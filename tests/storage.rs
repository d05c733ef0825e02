use mehlon::block::{chunk_grid_key, chunk_origin_of, floor_div_chunksize, offset_in_chunk, MapBlock, MapChunkData, Pos3};
use mehlon::storage::{
    expect_user_ver, IdentityError, NullStorageBackend, StorageBackend, WriteBatcher,
    MEHLON_SQLITE_APP_ID, USER_VERSION, WRITES_PER_TRANSACTION,
};

#[test]
fn null_backend_never_fails() {
    let mut b = NullStorageBackend;
    let mut c = MapChunkData::fully_air();
    c.blocks[5] = MapBlock::Coal;
    for p in [Pos3::new(0, 0, 0), Pos3::new(-32, 64, 96), Pos3::new(7, -3, 1)] {
        assert!(b.store_chunk(p, &c).is_ok());
        assert_eq!(b.load_chunk(p), Ok(None));
    }
    assert!(b.tick().is_ok());
    assert!(b.set_global_kv("spawn", &[1, 2, 3]).is_ok());
    assert_eq!(b.get_global_kv("spawn"), Ok(None));
    assert_eq!(b.get_global_kv(""), Ok(None));
}

#[test]
fn identity_must_match_exactly() {
    assert_eq!(MEHLON_SQLITE_APP_ID, 0x84eeae3cu32 as i32);
    assert_eq!(expect_user_ver(MEHLON_SQLITE_APP_ID, USER_VERSION), Ok(()));
    assert_eq!(expect_user_ver(0, USER_VERSION), Err(IdentityError::AppId(0)));
    assert_eq!(expect_user_ver(MEHLON_SQLITE_APP_ID, 2), Err(IdentityError::UserVersion(2)));
    assert_eq!(expect_user_ver(5, 9), Err(IdentityError::AppId(5)));
    assert_eq!(IdentityError::AppId(5).message(), "unexpected application id in database header");
}

#[test]
fn writes_are_batched() {
    let mut w = WriteBatcher::new();
    // First write on an idle connection begins a transaction.
    let a = w.on_store(false);
    assert!(!a.commit_first);
    assert!(a.begin);
    assert_eq!(w.ctr, WRITES_PER_TRANSACTION - 1);
    // The next writes join it, up to the batch size.
    for k in 1..WRITES_PER_TRANSACTION {
        let a = w.on_store(true);
        assert!(!a.commit_first);
        assert!(!a.begin);
        assert_eq!(w.ctr, WRITES_PER_TRANSACTION - 1 - k);
    }
    // The transaction holds WRITES_PER_TRANSACTION writes: the next write
    // commits it first and begins a new one.
    let a = w.on_store(true);
    assert!(a.commit_first);
    assert!(a.begin);
    assert_eq!(w.ctr, WRITES_PER_TRANSACTION - 1);
}

#[test]
fn tick_commits_open_transaction() {
    let mut w = WriteBatcher::new();
    w.on_store(false);
    w.on_store(true);
    w.on_store(true);
    assert_eq!(w.ctr, WRITES_PER_TRANSACTION - 3);
    assert!(w.on_tick(true));
    assert_eq!(w.ctr, WRITES_PER_TRANSACTION);
    // After the commit the next write begins a new transaction.
    let a = w.on_store(false);
    assert!(a.begin);
    assert!(!a.commit_first);
    assert_eq!(w.ctr, WRITES_PER_TRANSACTION - 1);
    assert!(!w.on_tick(false));
}

#[test]
fn division_floors_at_chunk_boundaries() {
    assert_eq!(floor_div_chunksize(0), 0);
    assert_eq!(floor_div_chunksize(31), 0);
    assert_eq!(floor_div_chunksize(32), 1);
    assert_eq!(floor_div_chunksize(-1), -1);
    assert_eq!(floor_div_chunksize(-32), -1);
    assert_eq!(floor_div_chunksize(-33), -2);
    assert_eq!(floor_div_chunksize(isize::MIN), isize::MIN / 32);
    assert_eq!(chunk_origin_of(Pos3::new(-1, 33, -32)), Pos3::new(-32, 32, -32));
    assert_eq!(offset_in_chunk(Pos3::new(-1, 33, -32)), Pos3::new(31, 1, 0));
    assert_eq!(chunk_grid_key(Pos3::new(-64, 96, 0)), (-2, 3, 0));
}
