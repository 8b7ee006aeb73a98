use mdbx_rs::{
    mdbx_del, mdbx_env_create, mdbx_env_open, mdbx_get, mdbx_put, mdbx_txn_abort,
    mdbx_txn_begin, mdbx_txn_commit, MDBX_env, MDBX_txn, MdbxError, TxnBegin, MDBX_NOOVERWRITE,
    MDBX_TXN_RDONLY, MDBX_TXN_READWRITE, MDBX_TXN_TRY,
};

const MAIN: u32 = 1;

fn open_env() -> MDBX_env {
    let mut env = mdbx_env_create();
    assert_eq!(mdbx_env_open(&mut env, 0), Ok(()));
    env
}

fn begin(env: &mut MDBX_env, parent: Option<MDBX_txn>, flags: i32) -> MDBX_txn {
    match mdbx_txn_begin(env, parent, flags as u32) {
        TxnBegin::Started(t) => t,
        other => panic!("transaction did not start: {:?}", other),
    }
}

#[test]
fn put_then_get_in_same_transaction() {
    let mut env = open_env();
    let w = begin(&mut env, None, MDBX_TXN_READWRITE);
    assert_eq!(mdbx_put(&mut env, &w, MAIN, b"alpha", b"one", 0), Ok(()));
    assert_eq!(mdbx_get(&env, &w, MAIN, b"alpha"), Ok(b"one".to_vec()));
    assert_eq!(mdbx_get(&env, &w, MAIN, b"beta"), Err(MdbxError::NotFound));
}

#[test]
fn put_then_get_after_commit() {
    let mut env = open_env();
    let w = begin(&mut env, None, MDBX_TXN_READWRITE);
    assert_eq!(mdbx_put(&mut env, &w, MAIN, b"alpha", b"one", 0), Ok(()));
    assert_eq!(mdbx_txn_commit(&mut env, &w), Ok(()));
    let r = begin(&mut env, None, MDBX_TXN_RDONLY);
    assert_eq!(mdbx_get(&env, &r, MAIN, b"alpha"), Ok(b"one".to_vec()));
    assert_eq!(mdbx_get(&env, &w, MAIN, b"alpha"), Err(MdbxError::BadTxn));
}

#[test]
fn reader_keeps_its_snapshot() {
    let mut env = open_env();
    let w = begin(&mut env, None, MDBX_TXN_READWRITE);
    assert_eq!(mdbx_put(&mut env, &w, MAIN, b"k", b"old", 0), Ok(()));
    assert_eq!(mdbx_txn_commit(&mut env, &w), Ok(()));
    let r = begin(&mut env, None, MDBX_TXN_RDONLY);
    let w2 = begin(&mut env, None, MDBX_TXN_READWRITE);
    assert_eq!(mdbx_put(&mut env, &w2, MAIN, b"k", b"new", 0), Ok(()));
    assert_eq!(mdbx_put(&mut env, &w2, MAIN, b"k2", b"x", 0), Ok(()));
    assert_eq!(mdbx_get(&env, &r, MAIN, b"k"), Ok(b"old".to_vec()));
    assert_eq!(mdbx_txn_commit(&mut env, &w2), Ok(()));
    assert_eq!(mdbx_get(&env, &r, MAIN, b"k"), Ok(b"old".to_vec()));
    assert_eq!(mdbx_get(&env, &r, MAIN, b"k2"), Err(MdbxError::NotFound));
    let r2 = begin(&mut env, None, MDBX_TXN_RDONLY);
    assert_eq!(mdbx_get(&env, &r2, MAIN, b"k"), Ok(b"new".to_vec()));
    assert_eq!(mdbx_get(&env, &r2, MAIN, b"k2"), Ok(b"x".to_vec()));
}

#[test]
fn no_overwrite_keeps_the_first_value() {
    let mut env = open_env();
    let w = begin(&mut env, None, MDBX_TXN_READWRITE);
    assert_eq!(mdbx_put(&mut env, &w, MAIN, b"k", b"v1", 0), Ok(()));
    assert_eq!(
        mdbx_put(&mut env, &w, MAIN, b"k", b"v2", MDBX_NOOVERWRITE as u32),
        Err(MdbxError::KeyExist)
    );
    assert_eq!(mdbx_get(&env, &w, MAIN, b"k"), Ok(b"v1".to_vec()));
}

#[test]
fn aborted_child_leaves_the_parent_as_it_was() {
    let mut env = open_env();
    let parent = begin(&mut env, None, MDBX_TXN_READWRITE);
    assert_eq!(mdbx_put(&mut env, &parent, MAIN, b"k", b"v1", 0), Ok(()));
    let child = begin(&mut env, Some(parent), MDBX_TXN_READWRITE);
    assert_eq!(mdbx_put(&mut env, &child, MAIN, b"k", b"v2", 0), Ok(()));
    assert_eq!(mdbx_get(&env, &child, MAIN, b"k"), Ok(b"v2".to_vec()));
    assert_eq!(mdbx_get(&env, &parent, MAIN, b"k"), Err(MdbxError::BadTxn));
    assert_eq!(mdbx_txn_abort(&mut env, &child), Ok(()));
    assert_eq!(mdbx_get(&env, &parent, MAIN, b"k"), Ok(b"v1".to_vec()));
    assert_eq!(mdbx_txn_commit(&mut env, &parent), Ok(()));
    let r = begin(&mut env, None, MDBX_TXN_RDONLY);
    assert_eq!(mdbx_get(&env, &r, MAIN, b"k"), Ok(b"v1".to_vec()));
}

#[test]
fn second_writer_waits_or_is_told_busy() {
    let mut env = open_env();
    let w = begin(&mut env, None, MDBX_TXN_READWRITE);
    assert!(matches!(mdbx_txn_begin(&mut env, None, 0), TxnBegin::MustWait));
    assert!(matches!(
        mdbx_txn_begin(&mut env, None, MDBX_TXN_TRY as u32),
        TxnBegin::Failed(MdbxError::Busy)
    ));
    assert_eq!(mdbx_txn_commit(&mut env, &w), Ok(()));
    assert!(matches!(mdbx_txn_begin(&mut env, None, 0), TxnBegin::Started(_)));
}

#[test]
fn delete_removes_the_key() {
    let mut env = open_env();
    let w = begin(&mut env, None, MDBX_TXN_READWRITE);
    assert_eq!(mdbx_put(&mut env, &w, MAIN, b"a", b"1", 0), Ok(()));
    assert_eq!(mdbx_put(&mut env, &w, MAIN, b"b", b"2", 0), Ok(()));
    assert_eq!(mdbx_del(&mut env, &w, MAIN, b"a", None), Ok(()));
    assert_eq!(mdbx_del(&mut env, &w, MAIN, b"a", None), Err(MdbxError::NotFound));
    assert_eq!(mdbx_get(&env, &w, MAIN, b"a"), Err(MdbxError::NotFound));
    assert_eq!(mdbx_get(&env, &w, MAIN, b"b"), Ok(b"2".to_vec()));
}

#[test]
fn test_bytes_to_val() {
    let data = b"hello";
    let val = mdbx_rs::bytes_to_val(data);
    assert_eq!(val.iov_len, 5);
}
