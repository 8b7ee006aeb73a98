use mdbx_rs::{
    mdbx_dbi_close, mdbx_dbi_flags, mdbx_dbi_open, mdbx_dbi_stat, mdbx_drop, mdbx_env_close,
    mdbx_env_close_ex, mdbx_env_close_forced, mdbx_env_create, mdbx_env_get_flags,
    mdbx_env_get_maxdbs, mdbx_env_get_maxreaders, mdbx_env_info, mdbx_env_open,
    mdbx_env_set_flags, mdbx_env_set_geometry, mdbx_env_set_maxdbs, mdbx_env_set_maxreaders,
    mdbx_env_stat_ex, mdbx_env_sync_ex, mdbx_get, mdbx_put, mdbx_txn_abort, mdbx_txn_begin,
    mdbx_txn_commit, mdbx_txn_flags, mdbx_txn_id, mdbx_txn_renew, mdbx_txn_reset, MDBX_env,
    MDBX_stat, MDBX_txn, MdbxError, TxnBegin, DEFAULT_MAX_READERS, MAIN_DBI, MDBX_CREATE,
    MDBX_DB_ACCEDE, MDBX_DUPFIXED, MDBX_DUPSORT, MDBX_EXCLUSIVE, MDBX_INTEGERDUP,
    MDBX_INTEGERKEY, MDBX_LIFORECLAIM, MDBX_MAX_DBI, MDBX_RDONLY, MDBX_REVERSEDUP,
    MDBX_REVERSEKEY, MDBX_SAFE_NOSYNC, MDBX_TXN_DIRTY, MDBX_TXN_HAS_CHILD, MDBX_TXN_RDONLY,
};

fn open_env() -> MDBX_env {
    let mut env = mdbx_env_create();
    assert_eq!(mdbx_env_set_maxdbs(&mut env, 2), Ok(()));
    assert_eq!(mdbx_env_open(&mut env, 0), Ok(()));
    env
}

fn begin(env: &mut MDBX_env, parent: Option<MDBX_txn>, flags: i32) -> MDBX_txn {
    match mdbx_txn_begin(env, parent, flags as u32) {
        TxnBegin::Started(t) => t,
        other => panic!("transaction did not start: {:?}", other),
    }
}

#[test]
fn a_new_environment_has_the_defaults() {
    let env = mdbx_env_create();
    assert_eq!(mdbx_env_get_maxreaders(&env), DEFAULT_MAX_READERS);
    assert_eq!(mdbx_env_get_maxdbs(&env), 0);
    assert_eq!(mdbx_env_get_flags(&env), 0);
    let info = mdbx_env_info(&env);
    assert_eq!(info.page_size, 4096);
    assert_eq!(info.page_limit, 0x4000_0000 / 4096);
    assert_eq!(info.pages, 0);
    assert_eq!(info.free_pages, 0);
    assert_eq!(info.recent_txnid, 0);
    assert_eq!(info.oldest_reader, None);
    assert_eq!(info.readers, 0);
    assert!(!info.unsynced);
}

#[test]
fn geometry_page_sizes() {
    for size in [256isize, 512, 1024, 2048, 4096, 8192, 16384, 32768, 65536] {
        let mut env = mdbx_env_create();
        assert_eq!(mdbx_env_set_geometry(&mut env, -1, -1, -1, -1, -1, size), Ok(()));
        assert_eq!(mdbx_env_info(&env).page_size, size as u64);
    }
    for size in [0isize, 1, 128, 255, 257, 300, 4095, 65537, 131072, -2] {
        let mut env = mdbx_env_create();
        assert_eq!(
            mdbx_env_set_geometry(&mut env, -1, -1, -1, -1, -1, size),
            Err(MdbxError::InvalidArgument)
        );
        assert_eq!(mdbx_env_info(&env).page_size, 4096);
    }
}

#[test]
fn geometry_sizes_must_ascend() {
    let mut env = mdbx_env_create();
    assert_eq!(mdbx_env_set_geometry(&mut env, 8192, 16384, 1 << 20, 4096, 8192, 4096), Ok(()));
    assert_eq!(mdbx_env_info(&env).page_limit, 256);
    assert_eq!(
        mdbx_env_set_geometry(&mut env, 1 << 21, -1, -1, -1, -1, -1),
        Err(MdbxError::InvalidArgument)
    );
    assert_eq!(
        mdbx_env_set_geometry(&mut env, -1, 1 << 21, -1, -1, -1, -1),
        Err(MdbxError::InvalidArgument)
    );
    assert_eq!(
        mdbx_env_set_geometry(&mut env, -1, -1, -5, -1, -1, -1),
        Err(MdbxError::InvalidArgument)
    );
    assert_eq!(mdbx_env_set_geometry(&mut env, -1, -1, 1 << 22, -1, -1, 1024), Ok(()));
    assert_eq!(mdbx_env_info(&env).page_limit, 4096);
}

#[test]
fn settings_are_fixed_once_open() {
    let mut env = open_env();
    assert_eq!(
        mdbx_env_set_geometry(&mut env, -1, -1, -1, -1, -1, 4096),
        Err(MdbxError::NotPermitted)
    );
    assert_eq!(mdbx_env_set_maxdbs(&mut env, 5), Err(MdbxError::NotPermitted));
    assert_eq!(mdbx_env_set_maxreaders(&mut env, 5), Err(MdbxError::NotPermitted));
    assert_eq!(mdbx_env_open(&mut env, 0), Err(MdbxError::NotPermitted));
    assert_eq!(mdbx_env_get_maxdbs(&env), 2);
}

#[test]
fn limits_of_the_settings() {
    let mut env = mdbx_env_create();
    assert_eq!(mdbx_env_set_maxdbs(&mut env, MDBX_MAX_DBI), Ok(()));
    assert_eq!(mdbx_env_set_maxdbs(&mut env, MDBX_MAX_DBI + 1), Err(MdbxError::InvalidArgument));
    assert_eq!(mdbx_env_get_maxdbs(&env), MDBX_MAX_DBI);
    assert_eq!(mdbx_env_set_maxreaders(&mut env, 0), Err(MdbxError::InvalidArgument));
    assert_eq!(mdbx_env_set_maxreaders(&mut env, 3), Ok(()));
    assert_eq!(mdbx_env_get_maxreaders(&env), 3);
}

#[test]
fn open_checks_the_flags_and_the_page_size() {
    let mut env = mdbx_env_create();
    assert_eq!(mdbx_env_open(&mut env, 1), Err(MdbxError::InvalidArgument));
    assert_eq!(mdbx_env_open(&mut env, MDBX_EXCLUSIVE as u32), Ok(()));
    assert_eq!(mdbx_env_get_flags(&env), MDBX_EXCLUSIVE as u32);
    assert_eq!(mdbx_env_close(&mut env), Ok(()));
    assert_eq!(mdbx_env_set_geometry(&mut env, -1, -1, -1, -1, -1, 8192), Ok(()));
    assert_eq!(mdbx_env_open(&mut env, 0), Err(MdbxError::Incompatible));
    assert_eq!(mdbx_env_set_geometry(&mut env, -1, -1, -1, -1, -1, 4096), Ok(()));
    assert_eq!(mdbx_env_open(&mut env, 0), Ok(()));
}

#[test]
fn data_survives_close_and_open() {
    let mut env = open_env();
    let w = begin(&mut env, None, 0);
    assert_eq!(mdbx_put(&mut env, &w, MAIN_DBI, b"k", b"v", 0), Ok(()));
    assert_eq!(mdbx_txn_commit(&mut env, &w), Ok(()));
    assert_eq!(mdbx_env_close(&mut env), Ok(()));
    assert!(matches!(mdbx_txn_begin(&mut env, None, 0), TxnBegin::Failed(MdbxError::NotPermitted)));
    assert_eq!(mdbx_env_open(&mut env, 0), Ok(()));
    let r = begin(&mut env, None, MDBX_TXN_RDONLY);
    assert_eq!(mdbx_get(&env, &r, MAIN_DBI, b"k"), Ok(b"v".to_vec()));
}

#[test]
fn close_refuses_while_a_transaction_runs() {
    let mut env = open_env();
    let r = begin(&mut env, None, MDBX_TXN_RDONLY);
    assert_eq!(mdbx_env_close(&mut env), Err(MdbxError::Busy));
    assert_eq!(mdbx_txn_abort(&mut env, &r), Ok(()));
    let w = begin(&mut env, None, 0);
    assert_eq!(mdbx_env_close_ex(&mut env, true), Err(MdbxError::Busy));
    assert_eq!(mdbx_env_close_forced(&mut env, false), Ok(()));
    assert_eq!(mdbx_txn_commit(&mut env, &w), Err(MdbxError::BadTxn));
    assert_eq!(mdbx_env_close(&mut env), Err(MdbxError::NotPermitted));
    assert_eq!(mdbx_env_close_forced(&mut env, false), Err(MdbxError::NotPermitted));
}

#[test]
fn sync_and_deferred_sync() {
    let mut env = mdbx_env_create();
    assert_eq!(mdbx_env_sync_ex(&mut env, true, false), Err(MdbxError::NotPermitted));
    assert_eq!(mdbx_env_open(&mut env, MDBX_SAFE_NOSYNC as u32), Ok(()));
    assert_eq!(mdbx_env_sync_ex(&mut env, false, false), Ok(false));
    assert_eq!(mdbx_env_sync_ex(&mut env, true, false), Ok(true));
    let w = begin(&mut env, None, 0);
    assert_eq!(mdbx_txn_commit(&mut env, &w), Ok(()));
    assert!(mdbx_env_info(&env).unsynced);
    assert_eq!(mdbx_env_sync_ex(&mut env, false, false), Ok(true));
    assert!(!mdbx_env_info(&env).unsynced);
    assert_eq!(mdbx_env_set_flags(&mut env, MDBX_SAFE_NOSYNC as u32, false), Ok(()));
    let w = begin(&mut env, None, 0);
    assert_eq!(mdbx_txn_commit(&mut env, &w), Ok(()));
    assert!(!mdbx_env_info(&env).unsynced);
    let w = begin(&mut env, None, MDBX_SAFE_NOSYNC);
    assert_eq!(mdbx_txn_commit(&mut env, &w), Ok(()));
    assert!(mdbx_env_info(&env).unsynced);
    assert_eq!(mdbx_env_close_ex(&mut env, true), Ok(()));
    assert!(mdbx_env_info(&env).unsynced);
}

#[test]
fn a_read_only_environment_takes_no_writes() {
    let mut env = mdbx_env_create();
    assert_eq!(mdbx_env_open(&mut env, MDBX_RDONLY as u32), Ok(()));
    assert!(matches!(mdbx_txn_begin(&mut env, None, 0), TxnBegin::Failed(MdbxError::AccessDenied)));
    assert_eq!(mdbx_env_sync_ex(&mut env, true, false), Err(MdbxError::AccessDenied));
    assert!(matches!(mdbx_txn_begin(&mut env, None, MDBX_TXN_RDONLY as u32), TxnBegin::Started(_)));
}

#[test]
fn flags_that_change_while_open() {
    let mut env = open_env();
    assert_eq!(mdbx_env_set_flags(&mut env, MDBX_LIFORECLAIM as u32, true), Ok(()));
    assert_eq!(mdbx_env_get_flags(&env), MDBX_LIFORECLAIM as u32);
    assert_eq!(mdbx_env_set_flags(&mut env, MDBX_LIFORECLAIM as u32, false), Ok(()));
    assert_eq!(mdbx_env_get_flags(&env), 0);
    assert_eq!(mdbx_env_set_flags(&mut env, MDBX_RDONLY as u32, true), Err(MdbxError::NotPermitted));
    assert_eq!(mdbx_env_set_flags(&mut env, 1, true), Err(MdbxError::InvalidArgument));
}

#[test]
fn the_reader_table_fills_up() {
    let mut env = mdbx_env_create();
    assert_eq!(mdbx_env_set_maxreaders(&mut env, 2), Ok(()));
    assert_eq!(mdbx_env_open(&mut env, 0), Ok(()));
    let a = begin(&mut env, None, MDBX_TXN_RDONLY);
    let _b = begin(&mut env, None, MDBX_TXN_RDONLY);
    assert!(matches!(
        mdbx_txn_begin(&mut env, None, MDBX_TXN_RDONLY as u32),
        TxnBegin::Failed(MdbxError::ReadersFull)
    ));
    assert_eq!(mdbx_env_info(&env).readers, 2);
    assert_eq!(mdbx_txn_commit(&mut env, &a), Ok(()));
    assert_eq!(mdbx_env_info(&env).readers, 1);
    assert!(matches!(mdbx_txn_begin(&mut env, None, MDBX_TXN_RDONLY as u32), TxnBegin::Started(_)));
    assert_eq!(mdbx_get(&env, &a, MAIN_DBI, b"k"), Err(MdbxError::BadTxn));
}

#[test]
fn reset_and_renew_keep_the_slot() {
    let mut env = mdbx_env_create();
    assert_eq!(mdbx_env_set_maxreaders(&mut env, 1), Ok(()));
    assert_eq!(mdbx_env_open(&mut env, 0), Ok(()));
    let r = begin(&mut env, None, MDBX_TXN_RDONLY);
    assert_eq!(mdbx_txn_id(&env, &r), Ok(0));
    assert_eq!(mdbx_txn_renew(&mut env, &r), Err(MdbxError::BadTxn));
    let w = begin(&mut env, None, 0);
    assert_eq!(mdbx_put(&mut env, &w, MAIN_DBI, b"k", b"v", 0), Ok(()));
    assert_eq!(mdbx_txn_commit(&mut env, &w), Ok(()));
    assert_eq!(mdbx_get(&env, &r, MAIN_DBI, b"k"), Err(MdbxError::NotFound));
    assert_eq!(mdbx_env_info(&env).oldest_reader, Some(0));
    assert_eq!(mdbx_txn_reset(&mut env, &r), Ok(()));
    assert_eq!(mdbx_env_info(&env).oldest_reader, None);
    assert_eq!(mdbx_env_info(&env).readers, 1);
    assert_eq!(mdbx_get(&env, &r, MAIN_DBI, b"k"), Err(MdbxError::BadTxn));
    assert_eq!(mdbx_txn_id(&env, &r), Err(MdbxError::BadTxn));
    assert_eq!(mdbx_txn_reset(&mut env, &r), Err(MdbxError::BadTxn));
    assert!(matches!(
        mdbx_txn_begin(&mut env, None, MDBX_TXN_RDONLY as u32),
        TxnBegin::Failed(MdbxError::ReadersFull)
    ));
    assert_eq!(mdbx_txn_renew(&mut env, &r), Ok(()));
    assert_eq!(mdbx_txn_id(&env, &r), Ok(1));
    assert_eq!(mdbx_get(&env, &r, MAIN_DBI, b"k"), Ok(b"v".to_vec()));
    assert_eq!(mdbx_txn_reset(&mut env, &w), Err(MdbxError::BadTxn));
}

#[test]
fn transaction_numbers_and_flags() {
    let mut env = open_env();
    let w = begin(&mut env, None, 0);
    assert_eq!(mdbx_txn_id(&env, &w), Ok(1));
    assert_eq!(mdbx_txn_flags(&env, &w), Ok(0));
    assert_eq!(mdbx_put(&mut env, &w, MAIN_DBI, b"k", b"v", 0), Ok(()));
    assert_eq!(mdbx_txn_flags(&env, &w), Ok(MDBX_TXN_DIRTY as u32));
    let c = begin(&mut env, Some(w), 0);
    assert_eq!(mdbx_txn_flags(&env, &w), Ok((MDBX_TXN_DIRTY | MDBX_TXN_HAS_CHILD) as u32));
    assert_eq!(mdbx_txn_id(&env, &c), Ok(1));
    assert_eq!(mdbx_txn_commit(&mut env, &w), Err(MdbxError::BadTxn));
    assert_eq!(mdbx_txn_commit(&mut env, &c), Ok(()));
    assert_eq!(mdbx_txn_commit(&mut env, &w), Ok(()));
    let r = begin(&mut env, None, MDBX_TXN_RDONLY);
    assert_eq!(mdbx_txn_id(&env, &r), Ok(1));
    assert_eq!(mdbx_txn_flags(&env, &r), Ok(MDBX_TXN_RDONLY as u32));
    assert_eq!(mdbx_txn_flags(&env, &w), Err(MdbxError::BadTxn));
    assert!(matches!(mdbx_txn_begin(&mut env, None, 1), TxnBegin::Failed(MdbxError::InvalidArgument)));
    assert!(matches!(
        mdbx_txn_begin(&mut env, Some(r), MDBX_TXN_RDONLY as u32),
        TxnBegin::Failed(MdbxError::BadTxn)
    ));
    assert!(matches!(mdbx_txn_begin(&mut env, Some(r), 0), TxnBegin::Failed(MdbxError::BadTxn)));
}

#[test]
fn committed_child_hands_its_changes_up() {
    let mut env = open_env();
    let p = begin(&mut env, None, 0);
    let c = begin(&mut env, Some(p), 0);
    assert_eq!(mdbx_put(&mut env, &c, MAIN_DBI, b"k", b"child", 0), Ok(()));
    assert_eq!(mdbx_txn_commit(&mut env, &c), Ok(()));
    assert_eq!(mdbx_get(&env, &p, MAIN_DBI, b"k"), Ok(b"child".to_vec()));
    assert_eq!(mdbx_txn_abort(&mut env, &p), Ok(()));
    let r = begin(&mut env, None, MDBX_TXN_RDONLY);
    assert_eq!(mdbx_get(&env, &r, MAIN_DBI, b"k"), Err(MdbxError::NotFound));
}

#[test]
fn aborting_a_parent_ends_its_children() {
    let mut env = open_env();
    let p = begin(&mut env, None, 0);
    let c = begin(&mut env, Some(p), 0);
    assert_eq!(mdbx_txn_abort(&mut env, &p), Ok(()));
    assert_eq!(mdbx_txn_abort(&mut env, &c), Err(MdbxError::BadTxn));
    assert_eq!(mdbx_txn_abort(&mut env, &p), Err(MdbxError::BadTxn));
    assert!(matches!(mdbx_txn_begin(&mut env, None, 0), TxnBegin::Started(_)));
}

#[test]
fn named_sub_databases() {
    let mut env = open_env();
    let w = begin(&mut env, None, 0);
    assert_eq!(mdbx_dbi_open(&mut env, &w, None, 0), Ok(MAIN_DBI));
    assert_eq!(mdbx_dbi_open(&mut env, &w, Some(b""), 0), Ok(MAIN_DBI));
    assert_eq!(mdbx_dbi_open(&mut env, &w, Some(b"one"), 0), Err(MdbxError::NotFound));
    assert_eq!(mdbx_dbi_open(&mut env, &w, Some(b"one"), MDBX_CREATE as u32), Ok(2));
    assert_eq!(mdbx_dbi_open(&mut env, &w, Some(b"one"), 0), Ok(2));
    assert_eq!(mdbx_dbi_open(&mut env, &w, Some(b"two"), (MDBX_CREATE | MDBX_DUPSORT) as u32), Ok(3));
    assert_eq!(
        mdbx_dbi_open(&mut env, &w, Some(b"three"), MDBX_CREATE as u32),
        Err(MdbxError::DbsFull)
    );
    assert_eq!(mdbx_dbi_open(&mut env, &w, Some(b"two"), 0), Err(MdbxError::Incompatible));
    assert_eq!(mdbx_dbi_open(&mut env, &w, Some(b"two"), MDBX_DB_ACCEDE as u32), Ok(3));
    assert_eq!(mdbx_dbi_flags(&env, &w, 3), Ok(MDBX_DUPSORT as u32));
    assert_eq!(mdbx_dbi_flags(&env, &w, 2), Ok(0));
    assert_eq!(mdbx_put(&mut env, &w, 2, b"k", b"in one", 0), Ok(()));
    assert_eq!(mdbx_put(&mut env, &w, 3, b"k", b"in two", 0), Ok(()));
    assert_eq!(mdbx_get(&env, &w, MAIN_DBI, b"k"), Err(MdbxError::NotFound));
    assert_eq!(mdbx_txn_commit(&mut env, &w), Ok(()));
    let r = begin(&mut env, None, MDBX_TXN_RDONLY);
    assert_eq!(mdbx_get(&env, &r, 2, b"k"), Ok(b"in one".to_vec()));
    assert_eq!(mdbx_get(&env, &r, 3, b"k"), Ok(b"in two".to_vec()));
    assert_eq!(mdbx_dbi_open(&mut env, &r, Some(b"new"), MDBX_CREATE as u32), Err(MdbxError::AccessDenied));
    assert_eq!(mdbx_get(&env, &r, 0, b"k"), Err(MdbxError::BadDbi));
    assert_eq!(mdbx_get(&env, &r, 4, b"k"), Err(MdbxError::BadDbi));
}

#[test]
fn handles_open_and_close() {
    let mut env = open_env();
    let w = begin(&mut env, None, 0);
    let dbi = mdbx_dbi_open(&mut env, &w, Some(b"one"), MDBX_CREATE as u32).unwrap();
    assert_eq!(mdbx_put(&mut env, &w, dbi, b"k", b"v", 0), Ok(()));
    assert_eq!(mdbx_txn_commit(&mut env, &w), Ok(()));
    assert_eq!(mdbx_dbi_close(&mut env, dbi), Ok(()));
    assert_eq!(mdbx_dbi_close(&mut env, dbi), Err(MdbxError::BadDbi));
    assert_eq!(mdbx_dbi_close(&mut env, MAIN_DBI), Err(MdbxError::BadDbi));
    assert_eq!(mdbx_dbi_close(&mut env, 99), Err(MdbxError::BadDbi));
    let r = begin(&mut env, None, MDBX_TXN_RDONLY);
    assert_eq!(mdbx_get(&env, &r, dbi, b"k"), Err(MdbxError::BadDbi));
    assert_eq!(mdbx_dbi_open(&mut env, &r, Some(b"one"), 0), Ok(dbi));
    assert_eq!(mdbx_get(&env, &r, dbi, b"k"), Ok(b"v".to_vec()));
}

#[test]
fn a_sub_database_created_in_an_aborted_transaction_is_gone() {
    let mut env = open_env();
    let w = begin(&mut env, None, 0);
    let dbi = mdbx_dbi_open(&mut env, &w, Some(b"one"), MDBX_CREATE as u32).unwrap();
    assert_eq!(mdbx_put(&mut env, &w, dbi, b"k", b"v", 0), Ok(()));
    assert_eq!(mdbx_txn_abort(&mut env, &w), Ok(()));
    let r = begin(&mut env, None, MDBX_TXN_RDONLY);
    assert_eq!(mdbx_get(&env, &r, dbi, b"k"), Err(MdbxError::BadDbi));
    assert_eq!(mdbx_dbi_open(&mut env, &r, Some(b"one"), 0), Err(MdbxError::NotFound));
}

#[test]
fn flag_combinations_are_checked_when_opening() {
    let mut env = open_env();
    let w = begin(&mut env, None, 0);
    let mut open = |flags: i32| mdbx_dbi_open(&mut env, &w, Some(b"x"), (flags | MDBX_CREATE) as u32);
    assert_eq!(open(MDBX_DUPFIXED), Err(MdbxError::Incompatible));
    assert_eq!(open(MDBX_INTEGERDUP), Err(MdbxError::Incompatible));
    assert_eq!(open(MDBX_REVERSEDUP), Err(MdbxError::Incompatible));
    assert_eq!(open(MDBX_DUPSORT | MDBX_INTEGERDUP), Err(MdbxError::Incompatible));
    assert_eq!(open(MDBX_INTEGERKEY | MDBX_REVERSEKEY), Err(MdbxError::Incompatible));
    assert_eq!(
        open(MDBX_DUPSORT | MDBX_DUPFIXED | MDBX_INTEGERDUP | MDBX_REVERSEDUP),
        Err(MdbxError::Incompatible)
    );
    assert_eq!(open(0x1), Err(MdbxError::InvalidArgument));
    assert_eq!(open(MDBX_DUPSORT | MDBX_DUPFIXED | MDBX_INTEGERDUP), Ok(2));
}

#[test]
fn the_main_sub_database_takes_flags_while_empty() {
    let mut env = open_env();
    let w = begin(&mut env, None, 0);
    assert_eq!(mdbx_dbi_open(&mut env, &w, None, MDBX_REVERSEKEY as u32), Ok(MAIN_DBI));
    assert_eq!(mdbx_dbi_flags(&env, &w, MAIN_DBI), Ok(MDBX_REVERSEKEY as u32));
    assert_eq!(mdbx_put(&mut env, &w, MAIN_DBI, b"k", b"v", 0), Ok(()));
    assert_eq!(mdbx_dbi_open(&mut env, &w, None, 0), Err(MdbxError::Incompatible));
    assert_eq!(mdbx_dbi_open(&mut env, &w, None, MDBX_DB_ACCEDE as u32), Ok(MAIN_DBI));
    assert_eq!(mdbx_dbi_flags(&env, &w, MAIN_DBI), Ok(MDBX_REVERSEKEY as u32));
}

#[test]
fn drop_empties_or_deletes() {
    let mut env = open_env();
    let w = begin(&mut env, None, 0);
    let dbi = mdbx_dbi_open(&mut env, &w, Some(b"one"), MDBX_CREATE as u32).unwrap();
    assert_eq!(mdbx_put(&mut env, &w, dbi, b"k", b"v", 0), Ok(()));
    assert_eq!(mdbx_put(&mut env, &w, MAIN_DBI, b"k", b"v", 0), Ok(()));
    assert_eq!(mdbx_drop(&mut env, &w, dbi, false), Ok(()));
    assert_eq!(mdbx_get(&env, &w, dbi, b"k"), Err(MdbxError::NotFound));
    assert_eq!(mdbx_put(&mut env, &w, dbi, b"k", b"again", 0), Ok(()));
    assert_eq!(mdbx_drop(&mut env, &w, dbi, true), Ok(()));
    assert_eq!(mdbx_get(&env, &w, dbi, b"k"), Err(MdbxError::BadDbi));
    assert_eq!(mdbx_dbi_open(&mut env, &w, Some(b"one"), 0), Err(MdbxError::NotFound));
    assert_eq!(mdbx_drop(&mut env, &w, MAIN_DBI, true), Ok(()));
    assert_eq!(mdbx_get(&env, &w, MAIN_DBI, b"k"), Err(MdbxError::NotFound));
    assert_eq!(mdbx_drop(&mut env, &w, 9, false), Err(MdbxError::BadDbi));
    assert_eq!(mdbx_txn_commit(&mut env, &w), Ok(()));
    let r = begin(&mut env, None, MDBX_TXN_RDONLY);
    assert_eq!(mdbx_drop(&mut env, &r, MAIN_DBI, false), Err(MdbxError::AccessDenied));
    assert_eq!(mdbx_drop(&mut env, &w, MAIN_DBI, false), Err(MdbxError::BadTxn));
}

#[test]
fn figures_of_a_sub_database() {
    let mut env = open_env();
    assert_eq!(MDBX_stat::default().ms_entries, 0);
    let empty = mdbx_env_stat_ex(&env, None).unwrap();
    assert_eq!(
        empty,
        MDBX_stat {
            ms_psize: 4096,
            ms_depth: 0,
            ms_branch_pages: 0,
            ms_leaf_pages: 0,
            ms_overflow_pages: 0,
            ms_entries: 0,
            ms_mod_txnid: 0,
        }
    );
    let w = begin(&mut env, None, 0);
    let dbi = mdbx_dbi_open(&mut env, &w, Some(b"d"), (MDBX_CREATE | MDBX_DUPSORT) as u32).unwrap();
    for (k, v) in [(b"a", b"1"), (b"a", b"2"), (b"b", b"1")] {
        assert_eq!(mdbx_put(&mut env, &w, dbi, k, v, 0), Ok(()));
    }
    let s = mdbx_dbi_stat(&env, &w, dbi).unwrap();
    assert_eq!((s.ms_entries, s.ms_depth, s.ms_leaf_pages, s.ms_mod_txnid), (3, 1, 1, 1));
    assert_eq!(mdbx_env_stat_ex(&env, Some(&w)).unwrap().ms_entries, 0);
    assert_eq!(mdbx_dbi_stat(&env, &w, 9), Err(MdbxError::BadDbi));
    assert_eq!(mdbx_txn_commit(&mut env, &w), Ok(()));
    assert_eq!(mdbx_dbi_stat(&env, &w, dbi), Err(MdbxError::BadTxn));
    assert_eq!(mdbx_env_stat_ex(&env, Some(&w)), Err(MdbxError::BadTxn));
}
