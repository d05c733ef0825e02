use mehlon::block::{MapBlock, Pos3, CHUNKSIZE};
use mehlon::mapgen::{
    gen_chunk_phase_one, spawn_schematic_mapgen, ChunkNoise, ColumnNoise, GenerationPhase, MapgenMap,
    WorldMap, CHUNK_COLUMNS,
};
use mehlon::schematic::{tree_schematic, Schematic};

/// Noise whose elevation is `elev(x, y)` (world coordinates), forest
/// everywhere, with every draw placing a tree when `trees` is set.
fn noise_for(pos: Pos3, elev: &dyn Fn(isize, isize) -> isize, trees: bool) -> ChunkNoise {
    let mut columns = Vec::new();
    for x in 0..CHUNKSIZE {
        for y in 0..CHUNKSIZE {
            columns.push(ColumnNoise { elevation: elev(pos.x + x, pos.y + y), forest: trees });
        }
    }
    ChunkNoise { columns, draws: vec![trees; CHUNK_COLUMNS] }
}

fn rolling(x: isize, y: isize) -> isize {
    ((x * 7 + y * 3).rem_euclid(23)) - 6
}

fn fill(map: &mut MapgenMap, min: Pos3, max: Pos3, elev: &dyn Fn(isize, isize) -> isize, trees: bool) {
    for p in map.missing_chunks_in_area(min, max) {
        map.gen_chunk_phase_one(p, &noise_for(p, elev, trees));
    }
}

fn blk(map: &MapgenMap, x: isize, y: isize, z: isize) -> MapBlock {
    map.get_blk_p1(Pos3::new(x, y, z)).unwrap()
}

#[test]
fn phase_one_column_fill() {
    let origin = Pos3::new(0, 0, 0);
    let c = gen_chunk_phase_one(origin, &noise_for(origin, &|x, _| if x == 0 { 0 } else { 10 }, false));
    assert_eq!(c.phase(), GenerationPhase::PhaseOne);
    // Column at or below the floor: water on the bottom block.
    assert_eq!(c.get_blk(Pos3::new(0, 5, 0)), MapBlock::Water);
    assert_eq!(c.get_blk(Pos3::new(0, 5, 1)), MapBlock::Air);
    // Column of elevation 10: ground below, air above.
    assert_eq!(c.get_blk(Pos3::new(3, 5, 9)), MapBlock::Ground);
    assert_eq!(c.get_blk(Pos3::new(3, 5, 10)), MapBlock::Air);
}

#[test]
fn phase_one_below_floor() {
    let pos = Pos3::new(0, 0, -32);
    let c = gen_chunk_phase_one(pos, &noise_for(pos, &|x, _| if x < 16 { -20 } else { -40 }, false));
    // Elevation -20 is 12 blocks above this chunk's floor: stone under water.
    assert_eq!(c.get_blk(Pos3::new(0, 0, 11)), MapBlock::Stone);
    assert_eq!(c.get_blk(Pos3::new(0, 0, 12)), MapBlock::Water);
    assert_eq!(c.get_blk(Pos3::new(0, 0, 31)), MapBlock::Water);
    // Elevation -40 lies under this chunk: all water.
    assert_eq!(c.get_blk(Pos3::new(20, 0, 0)), MapBlock::Water);
}

#[test]
fn phase_one_above_floor_stays_dry() {
    let pos = Pos3::new(0, 0, 32);
    let c = gen_chunk_phase_one(pos, &noise_for(pos, &|_, _| 0, false));
    assert_eq!(c.get_blk(Pos3::new(1, 1, 0)), MapBlock::Air);
    let full = gen_chunk_phase_one(pos, &noise_for(pos, &|_, _| 100, false));
    assert_eq!(full.get_blk(Pos3::new(1, 1, 31)), MapBlock::Ground);
}

#[test]
fn tree_schematic_shape() {
    let t: Schematic = tree_schematic();
    assert_eq!(t.items.len(), 31);
    assert_eq!(t.aabb_min, Pos3::new(-1, -1, 0));
    assert_eq!(t.aabb_max, Pos3::new(1, 1, 5));
    assert_eq!(t.items[0], (Pos3::new(-1, -1, 3), MapBlock::Leaves));
    assert_eq!(t.items[26], (Pos3::new(1, 1, 5), MapBlock::Leaves));
    assert_eq!(t.items[27], (Pos3::new(0, 0, 0), MapBlock::Tree));
    assert_eq!(t.items[30], (Pos3::new(0, 0, 3), MapBlock::Tree));
}

#[test]
fn stamping_crosses_chunk_borders() {
    let mut map = MapgenMap::new(1);
    let sample = |p: Pos3| noise_for(p, &|_, _| 4, false);
    for p in [Pos3::new(0, 0, 0), Pos3::new(-32, 0, 0)] {
        map.gen_chunk_phase_one(p, &sample(p));
    }
    let t = tree_schematic();
    spawn_schematic_mapgen(&mut map, Pos3::new(0, 5, 4), &t, &sample);
    assert_eq!(blk(&map, 0, 5, 4), MapBlock::Tree);
    assert_eq!(blk(&map, 0, 5, 7), MapBlock::Tree);
    assert_eq!(blk(&map, 0, 5, 8), MapBlock::Leaves);
    assert_eq!(blk(&map, -1, 4, 9), MapBlock::Leaves);
    assert_eq!(blk(&map, 1, 6, 7), MapBlock::Leaves);
    assert_eq!(blk(&map, 2, 5, 7), MapBlock::Air);
    // Writing a single block whose chunk is absent reports it and writes nothing.
    assert!(!map.set_blk_p1(Pos3::new(0, -1, 0), MapBlock::Coal));
    assert_eq!(map.get_blk_p1(Pos3::new(0, -1, 0)), None);
}

#[test]
fn stamping_generates_missing_chunks() {
    let mut map = MapgenMap::new(1);
    let sample = |p: Pos3| noise_for(p, &|_, _| 2, false);
    let t = tree_schematic();
    // The anchor sits on a chunk corner, so the tree reaches into four chunks,
    // none of them cached yet.
    spawn_schematic_mapgen(&mut map, Pos3::new(0, 0, 2), &t, &sample);
    for o in [Pos3::new(0, 0, 0), Pos3::new(-32, 0, 0), Pos3::new(0, -32, 0), Pos3::new(-32, -32, 0)] {
        assert_eq!(map.get_chunk_p1(o).unwrap().phase(), GenerationPhase::PhaseOne);
    }
    assert_eq!(blk(&map, 0, 0, 2), MapBlock::Tree);
    assert_eq!(blk(&map, -1, -1, 5), MapBlock::Leaves);
    // Terrain of a generated chunk is there below the tree.
    assert_eq!(blk(&map, -1, -1, 1), MapBlock::Ground);
    assert!(map.get_chunk_p1(Pos3::new(32, 0, 0)).is_none());
}

#[test]
fn area_query_delivers_once() {
    let mut map = MapgenMap::new(42);
    let origin = Pos3::new(0, 0, 0);
    let missing = map.missing_chunks_in_area(origin, origin);
    assert_eq!(missing.len(), 125);
    fill(&mut map, origin, origin, &rolling, true);
    assert_eq!(map.missing_chunks_in_area(origin, origin).len(), 0);
    let first = map.gen_prepared_area(origin, origin);
    assert_eq!(first, vec![origin]);
    let data = map.get_chunk_p1(origin).unwrap().data.clone();
    assert_eq!(map.get_chunk_p1(origin).unwrap().phase(), GenerationPhase::Done);
    // The area is done now: nothing is delivered and nothing changes.
    let second = map.gen_prepared_area(origin, origin);
    assert!(second.is_empty());
    assert_eq!(map.get_chunk_p1(origin).unwrap().data, data);
    assert_eq!(map.missing_chunks_in_area(origin, origin).len(), 0);
    // Floor-level columns whose elevation is at or below zero show water at z = 0.
    for x in 0..CHUNKSIZE {
        for y in 0..CHUNKSIZE {
            if rolling(x, y) <= 0 {
                let b = data.blocks[(x * CHUNKSIZE * CHUNKSIZE + y * CHUNKSIZE) as usize];
                assert!(b == MapBlock::Water || b == MapBlock::Tree || b == MapBlock::Leaves);
            }
        }
    }
}

#[test]
fn floor_level_water_without_trees() {
    let mut map = MapgenMap::new(42);
    let origin = Pos3::new(0, 0, 0);
    fill(&mut map, origin, origin, &rolling, false);
    map.gen_prepared_area(origin, origin);
    let c = map.get_chunk_p1(origin).unwrap();
    for x in 0..CHUNKSIZE {
        for y in 0..CHUNKSIZE {
            let e = rolling(x, y);
            let b = c.get_blk(Pos3::new(x, y, 0));
            if e <= 0 {
                assert_eq!(b, MapBlock::Water);
            } else {
                assert_eq!(b, MapBlock::Ground);
            }
        }
    }
}

#[test]
fn generation_is_deterministic() {
    let origin = Pos3::new(0, 0, 0);
    let far = Pos3::new(32, 0, 0);
    let mut a = MapgenMap::new(42);
    let mut b = MapgenMap::new(42);
    fill(&mut a, origin, far, &rolling, true);
    fill(&mut b, origin, far, &rolling, true);
    let da = a.gen_prepared_area(origin, far);
    let db = b.gen_prepared_area(origin, far);
    assert_eq!(da, db);
    assert_eq!(da.len(), 2);
    for p in da {
        assert_eq!(a.get_chunk_p1(p).unwrap().data, b.get_chunk_p1(p).unwrap().data);
    }
}

#[test]
fn trees_are_stamped_in_phase_two() {
    let mut map = MapgenMap::new(3);
    let origin = Pos3::new(0, 0, 0);
    fill(&mut map, origin, origin, &|_, _| 4, true);
    let before = map.get_chunk_p1(origin).unwrap().data.clone();
    assert_eq!(before.blocks[(5 * 1024 + 5 * 32 + 4) as usize], MapBlock::Air);
    map.gen_prepared_area(origin, origin);
    // Every column carries a tree on its surface, so the trunk foot sits at z = 4
    // (a later tree's leaves may cover it higher up).
    let c = map.get_chunk_p1(origin).unwrap();
    let b = c.get_blk(Pos3::new(5, 5, 4));
    assert!(b == MapBlock::Tree || b == MapBlock::Leaves);
    assert_ne!(c.data, before);
}

#[test]
fn world_map_starts_empty() {
    let w = WorldMap::new(42);
    assert_eq!(w.backend().seed(), 42);
    assert!(w.backend().get_chunk_p1(Pos3::new(0, 0, 0)).is_none());
}

#[test]
fn area_query_runs_phase_one_itself() {
    let origin = Pos3::new(0, 0, 0);
    let sample = |p: Pos3| noise_for(p, &rolling, true);
    let mut a = MapgenMap::new(42);
    let delivered = a.gen_chunks_in_area(origin, Pos3::new(31, 31, 31), &sample);
    assert_eq!(delivered, vec![origin]);
    assert_eq!(a.missing_chunks_in_area(origin, origin).len(), 0);
    assert!(a.gen_chunks_in_area(origin, origin, &sample).is_empty());
    // The same inputs through the two-step protocol give the same chunk.
    let mut b = MapgenMap::new(42);
    fill(&mut b, origin, origin, &rolling, true);
    b.gen_prepared_area(origin, origin);
    assert_eq!(a.get_chunk_p1(origin).unwrap().data, b.get_chunk_p1(origin).unwrap().data);
}

#[test]
fn neighbouring_query_delivers_only_new_chunks() {
    let sample = |p: Pos3| noise_for(p, &rolling, false);
    let mut m = MapgenMap::new(7);
    let first = m.gen_chunks_in_area(Pos3::new(0, 0, 0), Pos3::new(0, 0, 0), &sample);
    assert_eq!(first, vec![Pos3::new(0, 0, 0)]);
    let second = m.gen_chunks_in_area(Pos3::new(-32, 0, 0), Pos3::new(0, 0, 0), &sample);
    assert_eq!(second, vec![Pos3::new(-32, 0, 0)]);
    assert_eq!(m.get_chunk_p1(Pos3::new(-32, 0, 0)).unwrap().phase(), GenerationPhase::Done);
    assert_eq!(m.get_chunk_p1(Pos3::new(-64, 0, 0)).unwrap().phase(), GenerationPhase::PhaseTwo);
    assert_eq!(m.get_chunk_p1(Pos3::new(-96, 0, 0)).unwrap().phase(), GenerationPhase::PhaseOne);
}

#[test]
fn delivered_chunk_never_changes() {
    let sample = |p: Pos3| noise_for(p, &|_, _| 4, true);
    let mut m = MapgenMap::new(9);
    let origin = Pos3::new(0, 0, 0);
    m.gen_chunks_in_area(origin, origin, &sample);
    let data = m.get_chunk_p1(origin).unwrap().data.clone();
    for p in [Pos3::new(32, 0, 0), Pos3::new(-32, 32, 0), Pos3::new(0, 0, 32), Pos3::new(64, 0, 0)] {
        m.gen_chunks_in_area(p, p, &sample);
        assert_eq!(m.get_chunk_p1(origin).unwrap().data, data);
    }
}

#[test]
fn delivery_follows_visiting_order() {
    let sample = |p: Pos3| noise_for(p, &rolling, false);
    let mut m = MapgenMap::new(5);
    let got = m.gen_chunks_in_area(Pos3::new(0, 0, 0), Pos3::new(32, 32, 0), &sample);
    assert_eq!(got, vec![Pos3::new(0, 0, 0), Pos3::new(0, 32, 0), Pos3::new(32, 0, 0), Pos3::new(32, 32, 0)]);
}

#[test]
fn floor_water_survives_trees() {
    let sample = |p: Pos3| noise_for(p, &rolling, true);
    let mut m = MapgenMap::new(42);
    let origin = Pos3::new(0, 0, 0);
    m.gen_chunks_in_area(origin, origin, &sample);
    let c = m.get_chunk_p1(origin).unwrap();
    for x in 0..CHUNKSIZE {
        for y in 0..CHUNKSIZE {
            if rolling(x, y) <= 0 {
                assert_eq!(c.get_blk(Pos3::new(x, y, 0)), MapBlock::Water);
            }
        }
    }
}
