use vstd::prelude::*;
use crate::block::{MapChunkData, Pos3};
use crate::codec::ChunkDecodeError;

verus! {

/// What a storage backend call can fail with.
#[derive(Clone, Debug, PartialEq, Eq)]
pub enum StorageError {
    /// A stored chunk blob is corrupt or of an unknown format.
    Decode(ChunkDecodeError),
    /// The storage medium reported an error, with its message.
    Database(String),
}

/// Persistence of chunks and of a small named-blob store.
pub trait StorageBackend {
    /// Stores `data` as the chunk at origin `pos`, replacing what was there.
    fn store_chunk(&mut self, pos: Pos3, data: &MapChunkData) -> Result<(), StorageError>
        requires
            data.wf(),
    ;

    /// Periodic flush hook: makes buffered writes durable.
    fn tick(&mut self) -> Result<(), StorageError>;

    /// The chunk stored at origin `pos`, if any.
    fn load_chunk(&mut self, pos: Pos3) -> (r: Result<Option<MapChunkData>, StorageError>)
        ensures
            r matches Ok(Some(c)) ==> c.wf(),
    ;

    /// The blob stored under `key`, if any.
    fn get_global_kv(&mut self, key: &str) -> Result<Option<Vec<u8>>, StorageError>;

    /// Stores `content` under `key`, replacing what was there.
    fn set_global_kv(&mut self, key: &str, content: &[u8]) -> Result<(), StorageError>;
}

/// A backend that keeps nothing: loads find nothing and writes are dropped.
/// It never fails.
pub struct NullStorageBackend;

impl StorageBackend for NullStorageBackend {
    fn store_chunk(&mut self, pos: Pos3, data: &MapChunkData) -> (r: Result<(), StorageError>)
        ensures
            r is Ok,
    {
        Ok(())
    }

    fn tick(&mut self) -> (r: Result<(), StorageError>)
        ensures
            r is Ok,
    {
        Ok(())
    }

    fn load_chunk(&mut self, pos: Pos3) -> (r: Result<Option<MapChunkData>, StorageError>)
        ensures
            r matches Ok(None),
    {
        Ok(None)
    }

    fn get_global_kv(&mut self, key: &str) -> (r: Result<Option<Vec<u8>>, StorageError>)
        ensures
            r matches Ok(None),
    {
        Ok(None)
    }

    fn set_global_kv(&mut self, key: &str, content: &[u8]) -> (r: Result<(), StorageError>)
        ensures
            r is Ok,
    {
        Ok(())
    }
}

/// The application identifier stamped into a database file's header.
pub const MEHLON_SQLITE_APP_ID: i32 = -2064732612;

/// The schema version stamped into a database file's header.
pub const USER_VERSION: u16 = 1;

/// How many consecutive chunk writes share one transaction.
pub const WRITES_PER_TRANSACTION: u32 = 50;

/// Why an existing database file was refused.
#[derive(Clone, Copy, Debug, PartialEq, Eq, Structural)]
pub enum IdentityError {
    /// The header's application identifier is another one (it is given).
    AppId(i32),
    /// The header's schema version is another one (it is given).
    UserVersion(u16),
}

impl IdentityError {
    /// A description of the mismatch.
    pub fn message(&self) -> (r: String)
        ensures
            r@ == (match self {
                IdentityError::AppId(_) => "unexpected application id in database header"@,
                IdentityError::UserVersion(_) => "unexpected user_version in database header"@,
            }),
    {
        match self {
            IdentityError::AppId(_) => {
                proof {
                    reveal_strlit("unexpected application id in database header");
                }
                "unexpected application id in database header".to_owned()
            },
            IdentityError::UserVersion(_) => {
                proof {
                    reveal_strlit("unexpected user_version in database header");
                }
                "unexpected user_version in database header".to_owned()
            },
        }
    }
}

/// Checks the identity fields read from an existing database file: the
/// application identifier first, then the schema version; both must match
/// exactly.
pub fn expect_user_ver(app_id: i32, user_version: u16) -> (r: Result<(), IdentityError>)
    ensures
        app_id != MEHLON_SQLITE_APP_ID ==> r == Err::<(), IdentityError>(IdentityError::AppId(app_id)),
        app_id == MEHLON_SQLITE_APP_ID && user_version != USER_VERSION ==> r == Err::<(), IdentityError>(
            IdentityError::UserVersion(user_version),
        ),
        app_id == MEHLON_SQLITE_APP_ID && user_version == USER_VERSION ==> r is Ok,
{
    if app_id != MEHLON_SQLITE_APP_ID {
        return Err(IdentityError::AppId(app_id));
    }
    if user_version != USER_VERSION {
        return Err(IdentityError::UserVersion(user_version));
    }
    Ok(())
}

/// What a backend does around one chunk write.
#[derive(Clone, Copy, Debug, PartialEq, Eq, Structural)]
pub struct StoreAction {
    /// Commit the open transaction before writing.
    pub commit_first: bool,
    /// Begin a transaction before writing.
    pub begin: bool,
}

/// How many writes the open transaction holds when `ctr` more may still join it.
pub open spec fn writes_in_transaction(ctr: u32) -> int {
    WRITES_PER_TRANSACTION - ctr
}

/// Groups chunk writes into transactions of at most `WRITES_PER_TRANSACTION`
/// writes: a transaction begins with the first write while none is open, and
/// is committed by the write that finds the budget spent, or when the host
/// ticks.
#[derive(Clone, Copy, Debug, PartialEq, Eq, Structural)]
pub struct WriteBatcher {
    /// Writes that may still join the open transaction before it is committed.
    pub ctr: u32,
}

impl WriteBatcher {
    /// A batcher for a freshly opened connection.
    pub fn new() -> (r: WriteBatcher)
        ensures
            r.ctr == 0,
    {
        WriteBatcher { ctr: 0 }
    }

    /// Decides what to do around one chunk write. `in_transaction` tells
    /// whether the connection has an open transaction. After the action the
    /// write always happens inside a transaction: a new one (holding just this
    /// write) when the budget was spent or none was open, else the open one,
    /// which then holds one write more, and never more than
    /// `WRITES_PER_TRANSACTION`.
    pub fn on_store(&mut self, in_transaction: bool) -> (r: StoreAction)
        requires
            old(self).ctr <= WRITES_PER_TRANSACTION,
        ensures
            final(self).ctr < WRITES_PER_TRANSACTION,
            0 < writes_in_transaction(final(self).ctr) <= WRITES_PER_TRANSACTION,
            old(self).ctr == 0 ==> final(self).ctr == WRITES_PER_TRANSACTION - 1
                && r.commit_first == in_transaction
                && r.begin,
            old(self).ctr > 0 ==> final(self).ctr == old(self).ctr - 1
                && !r.commit_first
                && r.begin == !in_transaction,
            !r.begin ==> writes_in_transaction(final(self).ctr) == writes_in_transaction(old(self).ctr) + 1,
    {
        let mut commit_first = false;
        if self.ctr == 0 {
            self.ctr = WRITES_PER_TRANSACTION - 1;
            commit_first = in_transaction;
        } else {
            self.ctr = self.ctr - 1;
        }
        let open_now = in_transaction && !commit_first;
        StoreAction { commit_first, begin: !open_now }
    }

    /// Decides whether a tick commits: it does exactly when a transaction is
    /// open, and then the write budget starts over.
    pub fn on_tick(&mut self, in_transaction: bool) -> (commit: bool)
        ensures
            commit == in_transaction,
            in_transaction ==> final(self).ctr == WRITES_PER_TRANSACTION,
            !in_transaction ==> final(self).ctr == old(self).ctr,
    {
        if in_transaction {
            self.ctr = WRITES_PER_TRANSACTION;
        }
        in_transaction
    }
}

} // verus!
