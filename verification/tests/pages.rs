use mdbx_rs::pager::has_room_for;
use mdbx_rs::space::{Space, SpaceView};
use mdbx_rs::{
    mdbx_del, mdbx_env_create, mdbx_env_info, mdbx_env_open, mdbx_env_set_geometry, mdbx_get,
    mdbx_put, mdbx_txn_abort, mdbx_txn_begin, mdbx_txn_commit, MDBX_env, MDBX_txn, MdbxError,
    TxnBegin, MAIN_DBI, MDBX_TXN_RDONLY,
};

fn open_env() -> MDBX_env {
    let mut env = mdbx_env_create();
    assert_eq!(mdbx_env_open(&mut env, 0), Ok(()));
    env
}

fn begin(env: &mut MDBX_env, flags: i32) -> MDBX_txn {
    match mdbx_txn_begin(env, None, flags as u32) {
        TxnBegin::Started(t) => t,
        other => panic!("transaction did not start: {:?}", other),
    }
}

fn overwrite(env: &mut MDBX_env, value: &[u8]) {
    let w = begin(env, 0);
    assert_eq!(mdbx_put(env, &w, MAIN_DBI, b"key", value, 0), Ok(()));
    assert_eq!(mdbx_txn_commit(env, &w), Ok(()));
}

#[test]
fn overwriting_one_key_does_not_grow_the_file() {
    let mut env = open_env();
    overwrite(&mut env, b"0");
    overwrite(&mut env, b"1");
    let settled = mdbx_env_info(&env).pages;
    assert_eq!(settled, 2);
    for i in 0..50u8 {
        overwrite(&mut env, &[i]);
        let info = mdbx_env_info(&env);
        assert_eq!(info.pages, settled);
        assert_eq!(info.free_pages, 1);
    }
    assert_eq!(mdbx_env_info(&env).recent_txnid, 52);
}

#[test]
fn a_pinned_snapshot_keeps_its_pages() {
    let mut env = open_env();
    overwrite(&mut env, b"0");
    overwrite(&mut env, b"1");
    let reader = begin(&mut env, MDBX_TXN_RDONLY);
    assert_eq!(mdbx_env_info(&env).oldest_reader, Some(2));
    let before = mdbx_env_info(&env).pages;
    assert_eq!(before, 2);
    // Nothing that was freed by transaction 2 or later is used again while
    // the snapshot of transaction 2 is pinned: every overwrite takes a new
    // page.
    for i in 2..10u8 {
        overwrite(&mut env, &[i]);
        assert_eq!(mdbx_env_info(&env).pages, before + (i as u64 - 1));
        assert_eq!(mdbx_get(&env, &reader, MAIN_DBI, b"key"), Ok(b"1".to_vec()));
    }
    let grown = mdbx_env_info(&env).pages;
    assert_eq!(mdbx_env_info(&env).free_pages, 9);
    assert_eq!(mdbx_txn_abort(&mut env, &reader), Ok(()));
    for i in 0..20u8 {
        overwrite(&mut env, &[i]);
        assert_eq!(mdbx_env_info(&env).pages, grown);
    }
}

#[test]
fn the_file_does_not_grow_beyond_its_limit() {
    let mut env = mdbx_env_create();
    assert_eq!(mdbx_env_set_geometry(&mut env, 0, 0, 4 * 256, -1, -1, 256), Ok(()));
    assert_eq!(mdbx_env_open(&mut env, 0), Ok(()));
    assert_eq!(mdbx_env_info(&env).page_limit, 4);
    overwrite(&mut env, b"0");
    let reader = begin(&mut env, MDBX_TXN_RDONLY);
    overwrite(&mut env, b"1");
    overwrite(&mut env, b"2");
    assert_eq!(mdbx_env_info(&env).pages, 3);
    assert_eq!(mdbx_env_info(&env).free_pages, 2);
    // A write needs room for two pages; one page is left, and the two free
    // pages were freed while the reader held its snapshot.
    let w = begin(&mut env, 0);
    assert_eq!(mdbx_put(&mut env, &w, MAIN_DBI, b"key", b"3", 0), Err(MdbxError::MapFull));
    assert_eq!(mdbx_get(&env, &w, MAIN_DBI, b"key"), Ok(b"2".to_vec()));
    assert_eq!(mdbx_del(&mut env, &w, MAIN_DBI, b"key", None), Err(MdbxError::MapFull));
    assert_eq!(mdbx_get(&env, &w, MAIN_DBI, b"key"), Ok(b"2".to_vec()));
    assert_eq!(mdbx_get(&env, &reader, MAIN_DBI, b"key"), Ok(b"0".to_vec()));
    // Once the reader is gone the free pages can be taken.
    assert_eq!(mdbx_txn_abort(&mut env, &reader), Ok(()));
    assert_eq!(mdbx_put(&mut env, &w, MAIN_DBI, b"key", b"3", 0), Ok(()));
    assert_eq!(mdbx_txn_commit(&mut env, &w), Ok(()));
    assert_eq!(mdbx_env_info(&env).pages, 3);
}

#[test]
fn shrinking_the_limit_below_the_file_is_refused() {
    let mut env = open_env();
    overwrite(&mut env, b"0");
    overwrite(&mut env, b"1");
    assert_eq!(mdbx_rs::mdbx_env_close(&mut env), Ok(()));
    assert_eq!(
        mdbx_env_set_geometry(&mut env, 0, 0, 4096, -1, -1, -1),
        Err(MdbxError::TooLarge)
    );
    assert_eq!(mdbx_env_set_geometry(&mut env, 0, 0, 2 * 4096, -1, -1, -1), Ok(()));
}

#[test]
fn an_aborted_transaction_gives_its_pages_back() {
    let mut env = open_env();
    overwrite(&mut env, b"0");
    let before = mdbx_env_info(&env);
    let w = begin(&mut env, 0);
    assert_eq!(mdbx_put(&mut env, &w, MAIN_DBI, b"key", b"x", 0), Ok(()));
    assert_eq!(mdbx_txn_abort(&mut env, &w), Ok(()));
    assert_eq!(mdbx_env_info(&env), before);
}

#[test]
fn free_pages_are_taken_before_new_ones() {
    let mut s = Space::new(10);
    assert_eq!(s.take(None), Ok(0));
    assert_eq!(s.take(None), Ok(1));
    assert_eq!(s.take(None), Ok(2));
    s.give(5, vec![0, 1]);
    s.give(7, vec![2]);
    assert_eq!(s.free_pages(), 3);
    assert!(s.has_room(Some(5)));
    assert_eq!(s.take(Some(5)), Ok(3));
    assert_eq!(s.take(Some(6)), Ok(1));
    assert_eq!(s.take(Some(6)), Ok(0));
    assert_eq!(s.take(Some(7)), Ok(4));
    assert_eq!(s.take(Some(8)), Ok(2));
    assert_eq!(s.free_pages(), 0);
    assert_eq!(s.next, 5);
    s.give(9, vec![]);
    assert_eq!(s.free.len(), 0);
}

#[test]
fn no_page_beyond_the_limit() {
    let mut s = Space::new(1);
    assert_eq!(s.take(None), Ok(0));
    assert!(!s.has_room(None));
    assert_eq!(s.take(None), Err(MdbxError::MapFull));
    s.give(3, vec![0]);
    assert_eq!(s.take(Some(3)), Err(MdbxError::MapFull));
    assert_eq!(s.take(Some(4)), Ok(0));
    let copy = s.copy();
    assert_eq!((copy.next, copy.limit, copy.free.len()), (1, 1, 0));
}

#[test]
fn as_many_pages_can_be_taken_as_are_ready() {
    let mut s = Space::new(10);
    for p in 0..6 {
        assert_eq!(s.take(None), Ok(p));
    }
    s.give(3, vec![0, 1]);
    s.give(5, vec![2]);
    s.give(8, vec![3, 4]);
    // Four pages are new. With a reader at snapshot 6 the pages that
    // transactions 3 and 5 freed are ready too, those of transaction 8 not.
    assert!(has_room_for(&s, Some(6), 7));
    assert!(!has_room_for(&s, Some(6), 8));
    assert!(has_room_for(&s, Some(3), 4));
    assert!(!has_room_for(&s, Some(3), 5));
    assert!(has_room_for(&s, Some(4), 6));
    assert!(!has_room_for(&s, Some(4), 7));
    assert!(has_room_for(&s, None, 9));
    assert!(!has_room_for(&s, None, 10));
    assert!(has_room_for(&s, Some(0), 0));
    // Taking them one after the other gives the same answer.
    let mut t = s.copy();
    for _ in 0..7 {
        assert!(t.take(Some(6)).is_ok());
    }
    assert_eq!(t.take(Some(6)), Err(MdbxError::MapFull));
    assert_eq!(t.free_pages(), 2);
}
