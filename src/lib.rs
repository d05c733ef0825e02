//! A persistent, procedurally generated voxel world store: the block codec,
//! the chunk blob format, the storage backend interface, schematic stamping
//! and the phased chunk generator.

pub mod block;
pub mod chat;
pub mod codec;
pub mod mapgen;
pub mod schematic;
pub mod storage;
