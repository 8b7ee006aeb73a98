use mdbx_rs::{
    mdbx_dbi_open, mdbx_del, mdbx_env_create, mdbx_env_open, mdbx_env_set_maxdbs, mdbx_get,
    mdbx_put, mdbx_put_multiple, mdbx_txn_begin, mdbx_txn_commit, MDBX_env, MDBX_txn, MdbxError,
    TxnBegin,
    MAIN_DBI, MDBX_ALLDUPS, MDBX_APPEND, MDBX_APPENDDUP, MDBX_CREATE, MDBX_CURRENT,
    MDBX_DUPFIXED, MDBX_DUPSORT, MDBX_INTEGERDUP, MDBX_INTEGERKEY, MDBX_MAXDATASIZE,
    MDBX_MULTIPLE, MDBX_NODUPDATA, MDBX_NOOVERWRITE, MDBX_RESERVE, MDBX_REVERSEKEY,
    MDBX_TXN_RDONLY,
};

fn open_env() -> (MDBX_env, MDBX_txn) {
    let mut env = mdbx_env_create();
    assert_eq!(mdbx_env_set_maxdbs(&mut env, 4), Ok(()));
    assert_eq!(mdbx_env_open(&mut env, 0), Ok(()));
    let w = match mdbx_txn_begin(&mut env, None, 0) {
        TxnBegin::Started(t) => t,
        other => panic!("transaction did not start: {:?}", other),
    };
    (env, w)
}

fn with_db(flags: i32) -> (MDBX_env, MDBX_txn, u32) {
    let (mut env, w) = open_env();
    let dbi = mdbx_dbi_open(&mut env, &w, Some(b"db"), (flags | MDBX_CREATE) as u32).unwrap();
    (env, w, dbi)
}

#[test]
fn a_put_replaces_the_value() {
    let (mut env, w) = open_env();
    assert_eq!(mdbx_put(&mut env, &w, MAIN_DBI, b"k", b"v1", 0), Ok(()));
    assert_eq!(mdbx_put(&mut env, &w, MAIN_DBI, b"k", b"v2", 0), Ok(()));
    assert_eq!(mdbx_get(&env, &w, MAIN_DBI, b"k"), Ok(b"v2".to_vec()));
    assert_eq!(mdbx_put(&mut env, &w, MAIN_DBI, b"", b"", 0), Ok(()));
    assert_eq!(mdbx_get(&env, &w, MAIN_DBI, b""), Ok(Vec::new()));
}

#[test]
fn no_overwrite_in_a_sub_database_with_duplicates() {
    let (mut env, w, dbi) = with_db(MDBX_DUPSORT);
    assert_eq!(mdbx_put(&mut env, &w, dbi, b"k", b"v1", 0), Ok(()));
    assert_eq!(
        mdbx_put(&mut env, &w, dbi, b"k", b"v2", MDBX_NOOVERWRITE as u32),
        Err(MdbxError::KeyExist)
    );
    assert_eq!(mdbx_put(&mut env, &w, dbi, b"other", b"v2", MDBX_NOOVERWRITE as u32), Ok(()));
}

#[test]
fn no_dup_data_fails_for_the_same_pair_only() {
    let (mut env, w, dbi) = with_db(MDBX_DUPSORT);
    assert_eq!(mdbx_put(&mut env, &w, dbi, b"k", b"v1", MDBX_NODUPDATA as u32), Ok(()));
    assert_eq!(
        mdbx_put(&mut env, &w, dbi, b"k", b"v1", MDBX_NODUPDATA as u32),
        Err(MdbxError::KeyExist)
    );
    assert_eq!(mdbx_put(&mut env, &w, dbi, b"k", b"v2", MDBX_NODUPDATA as u32), Ok(()));
    assert_eq!(mdbx_put(&mut env, &w, dbi, b"k", b"v1", 0), Ok(()));
    assert_eq!(
        mdbx_put(&mut env, &w, MAIN_DBI, b"k", b"v1", MDBX_NODUPDATA as u32),
        Err(MdbxError::Incompatible)
    );
}

#[test]
fn current_replaces_and_never_inserts() {
    let (mut env, w) = open_env();
    assert_eq!(
        mdbx_put(&mut env, &w, MAIN_DBI, b"k", b"v", MDBX_CURRENT as u32),
        Err(MdbxError::NotFound)
    );
    assert_eq!(mdbx_put(&mut env, &w, MAIN_DBI, b"k", b"v", 0), Ok(()));
    assert_eq!(mdbx_put(&mut env, &w, MAIN_DBI, b"k", b"w", MDBX_CURRENT as u32), Ok(()));
    assert_eq!(mdbx_get(&env, &w, MAIN_DBI, b"k"), Ok(b"w".to_vec()));
    assert_eq!(
        mdbx_put(&mut env, &w, MAIN_DBI, b"k", b"w", (MDBX_CURRENT | MDBX_NOOVERWRITE) as u32),
        Err(MdbxError::Incompatible)
    );
}

#[test]
fn current_and_all_duplicates() {
    let (mut env, w, dbi) = with_db(MDBX_DUPSORT);
    assert_eq!(mdbx_put(&mut env, &w, dbi, b"k", b"1", 0), Ok(()));
    assert_eq!(mdbx_put(&mut env, &w, dbi, b"k", b"9", MDBX_CURRENT as u32), Ok(()));
    assert_eq!(mdbx_get(&env, &w, dbi, b"k"), Ok(b"9".to_vec()));
    assert_eq!(mdbx_put(&mut env, &w, dbi, b"k", b"5", 0), Ok(()));
    assert_eq!(
        mdbx_put(&mut env, &w, dbi, b"k", b"7", MDBX_CURRENT as u32),
        Err(MdbxError::Multival)
    );
    assert_eq!(mdbx_put(&mut env, &w, dbi, b"k", b"7", (MDBX_CURRENT | MDBX_ALLDUPS) as u32), Ok(()));
    assert_eq!(mdbx_get(&env, &w, dbi, b"k"), Ok(b"7".to_vec()));
    assert_eq!(mdbx_del(&mut env, &w, dbi, b"k", Some(b"7")), Ok(()));
    assert_eq!(mdbx_get(&env, &w, dbi, b"k"), Err(MdbxError::NotFound));
}

#[test]
fn append_needs_ascending_keys() {
    let (mut env, w) = open_env();
    assert_eq!(mdbx_put(&mut env, &w, MAIN_DBI, b"b", b"v", MDBX_APPEND as u32), Ok(()));
    assert_eq!(mdbx_put(&mut env, &w, MAIN_DBI, b"c", b"v", MDBX_APPEND as u32), Ok(()));
    assert_eq!(
        mdbx_put(&mut env, &w, MAIN_DBI, b"a", b"v", MDBX_APPEND as u32),
        Err(MdbxError::KeyMismatch)
    );
    assert_eq!(
        mdbx_put(&mut env, &w, MAIN_DBI, b"c", b"v", MDBX_APPEND as u32),
        Err(MdbxError::KeyMismatch)
    );
    assert_eq!(mdbx_get(&env, &w, MAIN_DBI, b"a"), Err(MdbxError::NotFound));
}

#[test]
fn append_dup_needs_ascending_values() {
    let (mut env, w, dbi) = with_db(MDBX_DUPSORT);
    assert_eq!(mdbx_put(&mut env, &w, dbi, b"k", b"2", MDBX_APPENDDUP as u32), Ok(()));
    assert_eq!(mdbx_put(&mut env, &w, dbi, b"k", b"4", MDBX_APPENDDUP as u32), Ok(()));
    assert_eq!(
        mdbx_put(&mut env, &w, dbi, b"k", b"3", MDBX_APPENDDUP as u32),
        Err(MdbxError::KeyMismatch)
    );
    assert_eq!(
        mdbx_put(&mut env, &w, dbi, b"k", b"4", MDBX_APPENDDUP as u32),
        Err(MdbxError::KeyMismatch)
    );
    assert_eq!(
        mdbx_put(&mut env, &w, MAIN_DBI, b"k", b"4", MDBX_APPENDDUP as u32),
        Err(MdbxError::Incompatible)
    );
}

#[test]
fn reserve_stores_the_bytes_given() {
    let (mut env, w, dbi) = with_db(MDBX_DUPSORT);
    assert_eq!(mdbx_put(&mut env, &w, MAIN_DBI, b"k", &[0; 16], MDBX_RESERVE as u32), Ok(()));
    assert_eq!(mdbx_get(&env, &w, MAIN_DBI, b"k"), Ok(vec![0; 16]));
    assert_eq!(
        mdbx_put(&mut env, &w, dbi, b"k", &[0; 16], MDBX_RESERVE as u32),
        Err(MdbxError::Incompatible)
    );
}

#[test]
fn an_array_of_values_needs_values_of_one_length() {
    let (mut env, w, dbi) = with_db(MDBX_DUPSORT);
    let (n, r, _) = mdbx_put_multiple(&mut env, &w, dbi, b"k", b"abcd", 2, MDBX_MULTIPLE as u32);
    assert_eq!((n, r), (0, Err(MdbxError::Incompatible)));
    assert_eq!(
        mdbx_put(&mut env, &w, dbi, b"k", b"abcd", MDBX_MULTIPLE as u32),
        Err(MdbxError::InvalidArgument)
    );
    assert_eq!(mdbx_put(&mut env, &w, dbi, b"k", b"abcd", 0x1), Err(MdbxError::InvalidArgument));
}

#[test]
fn integer_keys_are_four_or_eight_bytes() {
    let (mut env, w, dbi) = with_db(MDBX_INTEGERKEY);
    assert_eq!(mdbx_put(&mut env, &w, dbi, b"abc", b"v", 0), Err(MdbxError::BadValSize));
    assert_eq!(mdbx_put(&mut env, &w, dbi, b"", b"v", 0), Err(MdbxError::BadValSize));
    for n in [300u32, 2, 70000, 1] {
        assert_eq!(mdbx_put(&mut env, &w, dbi, &n.to_le_bytes(), &n.to_be_bytes(), 0), Ok(()));
    }
    assert_eq!(mdbx_put(&mut env, &w, dbi, &5u64.to_le_bytes(), b"v", 0), Ok(()));
    let mut c = mdbx_rs::mdbx_cursor_open(&env, &w, dbi).unwrap();
    let mut keys = Vec::new();
    let mut op = mdbx_rs::MDBX_cursor_op::MDBX_FIRST;
    while let Ok(f) = mdbx_rs::mdbx_cursor_get(&env, &mut c, b"", b"", op) {
        keys.push(f.key);
        op = mdbx_rs::MDBX_cursor_op::MDBX_NEXT;
    }
    let expected: Vec<Vec<u8>> = vec![
        1u32.to_le_bytes().to_vec(),
        2u32.to_le_bytes().to_vec(),
        300u32.to_le_bytes().to_vec(),
        70000u32.to_le_bytes().to_vec(),
        5u64.to_le_bytes().to_vec(),
    ];
    assert_eq!(keys, expected);
}

#[test]
fn reverse_keys_sort_from_the_back() {
    let (mut env, w, dbi) = with_db(MDBX_REVERSEKEY);
    for k in [&b"ab"[..], b"ba", b"c"] {
        assert_eq!(mdbx_put(&mut env, &w, dbi, k, b"v", 0), Ok(()));
    }
    let mut c = mdbx_rs::mdbx_cursor_open(&env, &w, dbi).unwrap();
    let first = mdbx_rs::mdbx_cursor_get(&env, &mut c, b"", b"", mdbx_rs::MDBX_cursor_op::MDBX_FIRST);
    assert_eq!(first.unwrap().key, b"ba".to_vec());
    let last = mdbx_rs::mdbx_cursor_get(&env, &mut c, b"", b"", mdbx_rs::MDBX_cursor_op::MDBX_LAST);
    assert_eq!(last.unwrap().key, b"c".to_vec());
}

#[test]
fn values_of_one_length() {
    let (mut env, w, dbi) = with_db(MDBX_DUPSORT | MDBX_DUPFIXED);
    assert_eq!(mdbx_put(&mut env, &w, dbi, b"a", b"xyz", 0), Ok(()));
    assert_eq!(mdbx_put(&mut env, &w, dbi, b"a", b"xy", 0), Err(MdbxError::BadValSize));
    assert_eq!(mdbx_put(&mut env, &w, dbi, b"b", b"wxyz", 0), Err(MdbxError::BadValSize));
    assert_eq!(mdbx_put(&mut env, &w, dbi, b"b", b"abc", 0), Ok(()));
    assert_eq!(mdbx_del(&mut env, &w, dbi, b"a", None), Ok(()));
    assert_eq!(mdbx_del(&mut env, &w, dbi, b"b", None), Ok(()));
    assert_eq!(mdbx_put(&mut env, &w, dbi, b"b", b"wxyz", 0), Ok(()));
}

#[test]
fn integer_values_are_four_or_eight_bytes() {
    let (mut env, w, dbi) = with_db(MDBX_DUPSORT | MDBX_DUPFIXED | MDBX_INTEGERDUP);
    assert_eq!(mdbx_put(&mut env, &w, dbi, b"a", b"xyz", 0), Err(MdbxError::BadValSize));
    for n in [9u32, 1000, 3] {
        assert_eq!(mdbx_put(&mut env, &w, dbi, b"a", &n.to_le_bytes(), 0), Ok(()));
    }
    assert_eq!(mdbx_get(&env, &w, dbi, b"a"), Ok(3u32.to_le_bytes().to_vec()));
    assert_eq!(
        mdbx_put(&mut env, &w, dbi, b"a", &7u64.to_le_bytes(), 0),
        Err(MdbxError::BadValSize)
    );
}

#[test]
fn no_value_beyond_the_largest() {
    let (mut env, w) = open_env();
    let huge = vec![0u8; MDBX_MAXDATASIZE as usize + 1];
    assert_eq!(mdbx_put(&mut env, &w, MAIN_DBI, b"k", &huge, 0), Err(MdbxError::BadValSize));
    assert_eq!(mdbx_put(&mut env, &w, MAIN_DBI, &huge, b"v", 0), Err(MdbxError::BadValSize));
    assert_eq!(mdbx_get(&env, &w, MAIN_DBI, b"k"), Err(MdbxError::NotFound));
}

#[test]
fn no_overwrite_comes_before_the_length_of_the_value() {
    let (mut env, w, dbi) = with_db(MDBX_DUPSORT | MDBX_DUPFIXED);
    assert_eq!(mdbx_put(&mut env, &w, dbi, b"a", b"xyz", 0), Ok(()));
    assert_eq!(
        mdbx_put(&mut env, &w, dbi, b"a", b"toolong", MDBX_NOOVERWRITE as u32),
        Err(MdbxError::KeyExist)
    );
}

#[test]
fn delete_of_pairs() {
    let (mut env, w, dbi) = with_db(MDBX_DUPSORT);
    for v in [b"1", b"2", b"3"] {
        assert_eq!(mdbx_put(&mut env, &w, dbi, b"k", v, 0), Ok(()));
    }
    assert_eq!(mdbx_del(&mut env, &w, dbi, b"k", Some(b"9")), Err(MdbxError::NotFound));
    assert_eq!(mdbx_del(&mut env, &w, dbi, b"x", Some(b"1")), Err(MdbxError::NotFound));
    assert_eq!(mdbx_del(&mut env, &w, dbi, b"k", Some(b"1")), Ok(()));
    assert_eq!(mdbx_get(&env, &w, dbi, b"k"), Ok(b"2".to_vec()));
    assert_eq!(mdbx_del(&mut env, &w, dbi, b"k", None), Ok(()));
    assert_eq!(mdbx_get(&env, &w, dbi, b"k"), Err(MdbxError::NotFound));
    assert_eq!(mdbx_put(&mut env, &w, MAIN_DBI, b"k", b"v", 0), Ok(()));
    assert_eq!(mdbx_del(&mut env, &w, MAIN_DBI, b"k", Some(b"other")), Ok(()));
    assert_eq!(mdbx_get(&env, &w, MAIN_DBI, b"k"), Err(MdbxError::NotFound));
}

#[test]
fn writes_need_the_innermost_write_transaction() {
    let (mut env, w) = open_env();
    assert_eq!(mdbx_put(&mut env, &w, 0, b"k", b"v", 0), Err(MdbxError::BadDbi));
    assert_eq!(mdbx_put(&mut env, &w, 5, b"k", b"v", 0), Err(MdbxError::BadDbi));
    assert_eq!(mdbx_del(&mut env, &w, 5, b"k", None), Err(MdbxError::BadDbi));
    assert_eq!(mdbx_txn_commit(&mut env, &w), Ok(()));
    assert_eq!(mdbx_put(&mut env, &w, MAIN_DBI, b"k", b"v", 0), Err(MdbxError::BadTxn));
    assert_eq!(mdbx_del(&mut env, &w, MAIN_DBI, b"k", None), Err(MdbxError::BadTxn));
    let r = match mdbx_txn_begin(&mut env, None, MDBX_TXN_RDONLY as u32) {
        TxnBegin::Started(t) => t,
        other => panic!("transaction did not start: {:?}", other),
    };
    assert_eq!(mdbx_put(&mut env, &r, MAIN_DBI, b"k", b"v", 0), Err(MdbxError::AccessDenied));
    assert_eq!(mdbx_del(&mut env, &r, MAIN_DBI, b"k", None), Err(MdbxError::AccessDenied));
}

#[test]
fn many_keys_in_any_order() {
    let (mut env, w) = open_env();
    let mut n: u32 = 12345;
    let mut keys = Vec::new();
    for _ in 0..500 {
        n = n.wrapping_mul(1664525).wrapping_add(1013904223);
        let k = (n >> 8).to_be_bytes();
        assert_eq!(mdbx_put(&mut env, &w, MAIN_DBI, &k, &n.to_le_bytes(), 0), Ok(()));
        keys.push((k, n));
    }
    for (k, n) in &keys {
        assert_eq!(mdbx_get(&env, &w, MAIN_DBI, k), Ok(n.to_le_bytes().to_vec()));
    }
    assert_eq!(mdbx_txn_commit(&mut env, &w), Ok(()));
    let r = match mdbx_txn_begin(&mut env, None, MDBX_TXN_RDONLY as u32) {
        TxnBegin::Started(t) => t,
        other => panic!("transaction did not start: {:?}", other),
    };
    let mut c = mdbx_rs::mdbx_cursor_open(&env, &r, MAIN_DBI).unwrap();
    let mut seen: Vec<Vec<u8>> = Vec::new();
    let mut op = mdbx_rs::MDBX_cursor_op::MDBX_FIRST;
    while let Ok(f) = mdbx_rs::mdbx_cursor_get(&env, &mut c, b"", b"", op) {
        seen.push(f.key);
        op = mdbx_rs::MDBX_cursor_op::MDBX_NEXT;
    }
    let mut sorted: Vec<Vec<u8>> = keys.iter().map(|(k, _)| k.to_vec()).collect();
    sorted.sort();
    sorted.dedup();
    assert_eq!(seen, sorted);
}
