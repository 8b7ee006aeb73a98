use mdbx_rs::{
    mdbx_cursor_count, mdbx_cursor_del, mdbx_cursor_get, mdbx_cursor_open, mdbx_cursor_put,
    mdbx_dbi_open, mdbx_env_create, mdbx_env_open, mdbx_env_set_maxdbs, mdbx_get, mdbx_put,
    mdbx_txn_begin, mdbx_txn_commit, MDBX_cursor_op, MDBX_env, MDBX_txn, MdbxError, TxnBegin,
    MDBX_ALLDUPS, MDBX_CREATE, MDBX_CURRENT, MDBX_DUPFIXED, MDBX_DUPSORT, MDBX_TXN_RDONLY,
};

fn open_env() -> MDBX_env {
    let mut env = mdbx_env_create();
    assert_eq!(mdbx_env_set_maxdbs(&mut env, 4), Ok(()));
    assert_eq!(mdbx_env_open(&mut env, 0), Ok(()));
    env
}

fn writer(env: &mut MDBX_env) -> MDBX_txn {
    match mdbx_txn_begin(env, None, 0) {
        TxnBegin::Started(t) => t,
        other => panic!("transaction did not start: {:?}", other),
    }
}

fn filled(keys: &[&[u8]]) -> (MDBX_env, MDBX_txn) {
    let mut env = open_env();
    let w = writer(&mut env);
    for k in keys {
        assert_eq!(mdbx_put(&mut env, &w, 1, k, b"v", 0), Ok(()));
    }
    (env, w)
}

fn dup_db(flags: i32) -> (MDBX_env, MDBX_txn, u32) {
    let mut env = open_env();
    let w = writer(&mut env);
    let dbi = mdbx_dbi_open(&mut env, &w, Some(b"dups"), (flags | MDBX_CREATE) as u32).unwrap();
    (env, w, dbi)
}

#[test]
fn duplicates_come_out_sorted() {
    let (mut env, w, dbi) = dup_db(MDBX_DUPSORT);
    for v in [5u8, 1, 3] {
        assert_eq!(mdbx_put(&mut env, &w, dbi, b"key", &[v], 0), Ok(()));
    }
    let mut c = mdbx_cursor_open(&env, &w, dbi).unwrap();
    let first = mdbx_cursor_get(&env, &mut c, b"key", b"", MDBX_cursor_op::MDBX_SET).unwrap();
    assert_eq!(first.data, vec![1]);
    let second = mdbx_cursor_get(&env, &mut c, b"", b"", MDBX_cursor_op::MDBX_NEXT_DUP).unwrap();
    assert_eq!(second.data, vec![3]);
    let third = mdbx_cursor_get(&env, &mut c, b"", b"", MDBX_cursor_op::MDBX_NEXT_DUP).unwrap();
    assert_eq!(third.data, vec![5]);
    assert_eq!(
        mdbx_cursor_get(&env, &mut c, b"", b"", MDBX_cursor_op::MDBX_NEXT_DUP),
        Err(MdbxError::NotFound)
    );
    assert_eq!(mdbx_cursor_count(&env, &c), Ok(3));
    assert_eq!(mdbx_get(&env, &w, dbi, b"key"), Ok(vec![1]));
}

#[test]
fn set_range_beyond_the_last_key_finds_nothing() {
    let (env, w) = filled(&[b"b", b"d", b"f"]);
    let mut c = mdbx_cursor_open(&env, &w, 1).unwrap();
    assert_eq!(
        mdbx_cursor_get(&env, &mut c, b"g", b"", MDBX_cursor_op::MDBX_SET_RANGE),
        Err(MdbxError::NotFound)
    );
    assert_eq!(
        mdbx_cursor_get(&env, &mut c, b"g", b"", MDBX_cursor_op::MDBX_SET_LOWERBOUND),
        Err(MdbxError::NotFound)
    );
}

#[test]
fn set_range_before_the_first_key_finds_the_first() {
    let (env, w) = filled(&[b"b", b"d", b"f"]);
    let mut c = mdbx_cursor_open(&env, &w, 1).unwrap();
    let f = mdbx_cursor_get(&env, &mut c, b"a", b"", MDBX_cursor_op::MDBX_SET_RANGE).unwrap();
    assert_eq!(f.key, b"b".to_vec());
    let f = mdbx_cursor_get(&env, &mut c, b"c", b"", MDBX_cursor_op::MDBX_SET_RANGE).unwrap();
    assert_eq!(f.key, b"d".to_vec());
    let f = mdbx_cursor_get(&env, &mut c, b"d", b"", MDBX_cursor_op::MDBX_SET_RANGE).unwrap();
    assert_eq!(f.key, b"d".to_vec());
}

#[test]
fn lower_bound_tells_exact_from_nearest() {
    let (env, w) = filled(&[b"b", b"d"]);
    let mut c = mdbx_cursor_open(&env, &w, 1).unwrap();
    let f = mdbx_cursor_get(&env, &mut c, b"b", b"", MDBX_cursor_op::MDBX_SET_LOWERBOUND).unwrap();
    assert_eq!((f.key.as_slice(), f.exact), (&b"b"[..], true));
    let f = mdbx_cursor_get(&env, &mut c, b"c", b"", MDBX_cursor_op::MDBX_SET_LOWERBOUND).unwrap();
    assert_eq!((f.key.as_slice(), f.exact), (&b"d"[..], false));
    let f = mdbx_cursor_get(&env, &mut c, b"b", b"", MDBX_cursor_op::MDBX_SET_UPPERBOUND).unwrap();
    assert_eq!(f.key, b"d".to_vec());
    assert_eq!(
        mdbx_cursor_get(&env, &mut c, b"d", b"", MDBX_cursor_op::MDBX_SET_UPPERBOUND),
        Err(MdbxError::NotFound)
    );
}

#[test]
fn walk_forward_and_backward() {
    let (env, w) = filled(&[b"c", b"a", b"b"]);
    let mut c = mdbx_cursor_open(&env, &w, 1).unwrap();
    let mut seen = Vec::new();
    let mut op = MDBX_cursor_op::MDBX_FIRST;
    while let Ok(f) = mdbx_cursor_get(&env, &mut c, b"", b"", op) {
        seen.push(f.key);
        op = MDBX_cursor_op::MDBX_NEXT;
    }
    assert_eq!(seen, vec![b"a".to_vec(), b"b".to_vec(), b"c".to_vec()]);
    let mut back = Vec::new();
    let mut op = MDBX_cursor_op::MDBX_LAST;
    while let Ok(f) = mdbx_cursor_get(&env, &mut c, b"", b"", op) {
        back.push(f.key);
        op = MDBX_cursor_op::MDBX_PREV;
    }
    assert_eq!(back, vec![b"c".to_vec(), b"b".to_vec(), b"a".to_vec()]);
}

#[test]
fn next_on_a_fresh_cursor_is_first_and_prev_is_last() {
    let (env, w) = filled(&[b"a", b"b"]);
    let mut c = mdbx_cursor_open(&env, &w, 1).unwrap();
    let f = mdbx_cursor_get(&env, &mut c, b"", b"", MDBX_cursor_op::MDBX_NEXT).unwrap();
    assert_eq!(f.key, b"a".to_vec());
    let mut c = mdbx_cursor_open(&env, &w, 1).unwrap();
    let f = mdbx_cursor_get(&env, &mut c, b"", b"", MDBX_cursor_op::MDBX_PREV).unwrap();
    assert_eq!(f.key, b"b".to_vec());
}

#[test]
fn current_needs_a_position() {
    let (env, w) = filled(&[b"a"]);
    let mut c = mdbx_cursor_open(&env, &w, 1).unwrap();
    assert_eq!(
        mdbx_cursor_get(&env, &mut c, b"", b"", MDBX_cursor_op::MDBX_GET_CURRENT),
        Err(MdbxError::NoData)
    );
    assert_eq!(mdbx_cursor_count(&env, &c), Err(MdbxError::NoData));
    mdbx_cursor_get(&env, &mut c, b"", b"", MDBX_cursor_op::MDBX_FIRST).unwrap();
    let f = mdbx_cursor_get(&env, &mut c, b"", b"", MDBX_cursor_op::MDBX_GET_CURRENT).unwrap();
    assert_eq!((f.key, f.data), (b"a".to_vec(), b"v".to_vec()));
}

#[test]
fn nodup_moves_skip_the_other_values() {
    let (mut env, w, dbi) = dup_db(MDBX_DUPSORT);
    for (k, v) in [(b"a", b"1"), (b"a", b"2"), (b"b", b"1"), (b"b", b"2"), (b"c", b"1")] {
        assert_eq!(mdbx_put(&mut env, &w, dbi, k, v, 0), Ok(()));
    }
    let mut c = mdbx_cursor_open(&env, &w, dbi).unwrap();
    mdbx_cursor_get(&env, &mut c, b"", b"", MDBX_cursor_op::MDBX_FIRST).unwrap();
    let f = mdbx_cursor_get(&env, &mut c, b"", b"", MDBX_cursor_op::MDBX_NEXT_NODUP).unwrap();
    assert_eq!((f.key, f.data), (b"b".to_vec(), b"1".to_vec()));
    let f = mdbx_cursor_get(&env, &mut c, b"", b"", MDBX_cursor_op::MDBX_LAST_DUP).unwrap();
    assert_eq!((f.key, f.data), (b"b".to_vec(), b"2".to_vec()));
    let f = mdbx_cursor_get(&env, &mut c, b"", b"", MDBX_cursor_op::MDBX_PREV_NODUP).unwrap();
    assert_eq!((f.key, f.data), (b"a".to_vec(), b"2".to_vec()));
    let f = mdbx_cursor_get(&env, &mut c, b"", b"", MDBX_cursor_op::MDBX_FIRST_DUP).unwrap();
    assert_eq!((f.key, f.data), (b"a".to_vec(), b"1".to_vec()));
    let f = mdbx_cursor_get(&env, &mut c, b"", b"", MDBX_cursor_op::MDBX_NEXT).unwrap();
    assert_eq!((f.key, f.data), (b"a".to_vec(), b"2".to_vec()));
    let f = mdbx_cursor_get(&env, &mut c, b"", b"", MDBX_cursor_op::MDBX_NEXT).unwrap();
    assert_eq!((f.key, f.data), (b"b".to_vec(), b"1".to_vec()));
    let f = mdbx_cursor_get(&env, &mut c, b"", b"", MDBX_cursor_op::MDBX_PREV).unwrap();
    assert_eq!((f.key, f.data), (b"a".to_vec(), b"2".to_vec()));
    let f = mdbx_cursor_get(&env, &mut c, b"", b"", MDBX_cursor_op::MDBX_PREV_DUP).unwrap();
    assert_eq!((f.key, f.data), (b"a".to_vec(), b"1".to_vec()));
    assert_eq!(
        mdbx_cursor_get(&env, &mut c, b"", b"", MDBX_cursor_op::MDBX_PREV_DUP),
        Err(MdbxError::NotFound)
    );
}

#[test]
fn get_both_and_get_both_range() {
    let (mut env, w, dbi) = dup_db(MDBX_DUPSORT);
    for v in [b"10", b"30", b"50"] {
        assert_eq!(mdbx_put(&mut env, &w, dbi, b"k", v, 0), Ok(()));
    }
    let mut c = mdbx_cursor_open(&env, &w, dbi).unwrap();
    let f = mdbx_cursor_get(&env, &mut c, b"k", b"30", MDBX_cursor_op::MDBX_GET_BOTH).unwrap();
    assert_eq!(f.data, b"30".to_vec());
    assert_eq!(
        mdbx_cursor_get(&env, &mut c, b"k", b"20", MDBX_cursor_op::MDBX_GET_BOTH),
        Err(MdbxError::NotFound)
    );
    let f = mdbx_cursor_get(&env, &mut c, b"k", b"20", MDBX_cursor_op::MDBX_GET_BOTH_RANGE).unwrap();
    assert_eq!(f.data, b"30".to_vec());
    assert_eq!(
        mdbx_cursor_get(&env, &mut c, b"k", b"60", MDBX_cursor_op::MDBX_GET_BOTH_RANGE),
        Err(MdbxError::NotFound)
    );
    assert_eq!(
        mdbx_cursor_get(&env, &mut c, b"x", b"10", MDBX_cursor_op::MDBX_GET_BOTH_RANGE),
        Err(MdbxError::NotFound)
    );
}

#[test]
fn doubtless_positioning_by_key() {
    let (env, w) = filled(&[b"b", b"d", b"f"]);
    let mut c = mdbx_cursor_open(&env, &w, 1).unwrap();
    let key_of = |c: &mut _, k: &[u8], op| mdbx_cursor_get(&env, c, k, b"", op).map(|f| f.key);
    assert_eq!(key_of(&mut c, b"d", MDBX_cursor_op::MDBX_TO_KEY_LESSER_THAN), Ok(b"b".to_vec()));
    assert_eq!(key_of(&mut c, b"d", MDBX_cursor_op::MDBX_TO_KEY_LESSER_OR_EQUAL), Ok(b"d".to_vec()));
    assert_eq!(key_of(&mut c, b"e", MDBX_cursor_op::MDBX_TO_KEY_LESSER_OR_EQUAL), Ok(b"d".to_vec()));
    assert_eq!(key_of(&mut c, b"d", MDBX_cursor_op::MDBX_TO_KEY_EQUAL), Ok(b"d".to_vec()));
    assert_eq!(key_of(&mut c, b"e", MDBX_cursor_op::MDBX_TO_KEY_EQUAL), Err(MdbxError::NotFound));
    assert_eq!(key_of(&mut c, b"e", MDBX_cursor_op::MDBX_TO_KEY_GREATER_OR_EQUAL), Ok(b"f".to_vec()));
    assert_eq!(key_of(&mut c, b"d", MDBX_cursor_op::MDBX_TO_KEY_GREATER_THAN), Ok(b"f".to_vec()));
    assert_eq!(key_of(&mut c, b"f", MDBX_cursor_op::MDBX_TO_KEY_GREATER_THAN), Err(MdbxError::NotFound));
    assert_eq!(key_of(&mut c, b"b", MDBX_cursor_op::MDBX_TO_KEY_LESSER_THAN), Err(MdbxError::NotFound));
}

#[test]
fn doubtless_positioning_by_pair() {
    let (mut env, w, dbi) = dup_db(MDBX_DUPSORT);
    for (k, v) in [(b"a", b"2"), (b"a", b"4"), (b"c", b"2"), (b"c", b"4")] {
        assert_eq!(mdbx_put(&mut env, &w, dbi, k, v, 0), Ok(()));
    }
    let mut c = mdbx_cursor_open(&env, &w, dbi).unwrap();
    let mut at = |k: &[u8], v: &[u8], op| mdbx_cursor_get(&env, &mut c, k, v, op).map(|f| (f.key, f.data));
    let pair = |k: &[u8], v: &[u8]| Ok((k.to_vec(), v.to_vec()));
    assert_eq!(at(b"c", b"2", MDBX_cursor_op::MDBX_TO_PAIR_LESSER_THAN), pair(b"a", b"4"));
    assert_eq!(at(b"c", b"2", MDBX_cursor_op::MDBX_TO_PAIR_LESSER_OR_EQUAL), pair(b"c", b"2"));
    assert_eq!(at(b"b", b"9", MDBX_cursor_op::MDBX_TO_PAIR_LESSER_OR_EQUAL), pair(b"a", b"4"));
    assert_eq!(at(b"a", b"4", MDBX_cursor_op::MDBX_TO_PAIR_EQUAL), pair(b"a", b"4"));
    assert_eq!(at(b"a", b"3", MDBX_cursor_op::MDBX_TO_PAIR_EQUAL), Err(MdbxError::NotFound));
    assert_eq!(at(b"a", b"5", MDBX_cursor_op::MDBX_TO_PAIR_GREATER_OR_EQUAL), pair(b"c", b"2"));
    assert_eq!(at(b"a", b"4", MDBX_cursor_op::MDBX_TO_PAIR_GREATER_THAN), pair(b"c", b"2"));
    assert_eq!(at(b"c", b"4", MDBX_cursor_op::MDBX_TO_PAIR_GREATER_THAN), Err(MdbxError::NotFound));
    assert_eq!(at(b"a", b"2", MDBX_cursor_op::MDBX_TO_PAIR_LESSER_THAN), Err(MdbxError::NotFound));
    assert_eq!(at(b"a", b"3", MDBX_cursor_op::MDBX_TO_EXACT_KEY_VALUE_LESSER_THAN), pair(b"a", b"2"));
    assert_eq!(at(b"a", b"4", MDBX_cursor_op::MDBX_TO_EXACT_KEY_VALUE_LESSER_OR_EQUAL), pair(b"a", b"4"));
    assert_eq!(at(b"a", b"3", MDBX_cursor_op::MDBX_TO_EXACT_KEY_VALUE_GREATER_OR_EQUAL), pair(b"a", b"4"));
    assert_eq!(at(b"a", b"2", MDBX_cursor_op::MDBX_TO_EXACT_KEY_VALUE_GREATER_THAN), pair(b"a", b"4"));
    assert_eq!(
        at(b"a", b"4", MDBX_cursor_op::MDBX_TO_EXACT_KEY_VALUE_GREATER_THAN),
        Err(MdbxError::NotFound)
    );
    assert_eq!(at(b"b", b"2", MDBX_cursor_op::MDBX_TO_EXACT_KEY_VALUE_EQUAL), Err(MdbxError::NotFound));
    assert_eq!(at(b"a", b"3", MDBX_cursor_op::MDBX_SET_LOWERBOUND), pair(b"a", b"4"));
    assert_eq!(at(b"a", b"4", MDBX_cursor_op::MDBX_SET_UPPERBOUND), pair(b"c", b"2"));
}

#[test]
fn several_values_at_once() {
    let (mut env, w, dbi) = dup_db(MDBX_DUPSORT | MDBX_DUPFIXED);
    for v in [b"aa", b"bb", b"cc", b"dd"] {
        assert_eq!(mdbx_put(&mut env, &w, dbi, b"k", v, 0), Ok(()));
    }
    let mut c = mdbx_cursor_open(&env, &w, dbi).unwrap();
    let f = mdbx_cursor_get(&env, &mut c, b"k", b"", MDBX_cursor_op::MDBX_SEEK_AND_GET_MULTIPLE).unwrap();
    assert_eq!(f.data, b"aabbccdd".to_vec());
    assert_eq!(
        mdbx_cursor_get(&env, &mut c, b"", b"", MDBX_cursor_op::MDBX_NEXT_MULTIPLE),
        Err(MdbxError::NotFound)
    );
    let f = mdbx_cursor_get(&env, &mut c, b"", b"", MDBX_cursor_op::MDBX_PREV_MULTIPLE).unwrap();
    assert_eq!(f.data, b"aabbcc".to_vec());
    mdbx_cursor_get(&env, &mut c, b"k", b"bb", MDBX_cursor_op::MDBX_GET_BOTH).unwrap();
    let f = mdbx_cursor_get(&env, &mut c, b"", b"", MDBX_cursor_op::MDBX_GET_MULTIPLE).unwrap();
    assert_eq!(f.data, b"bbccdd".to_vec());
    mdbx_cursor_get(&env, &mut c, b"k", b"bb", MDBX_cursor_op::MDBX_GET_BOTH).unwrap();
    let f = mdbx_cursor_get(&env, &mut c, b"", b"", MDBX_cursor_op::MDBX_NEXT_MULTIPLE).unwrap();
    assert_eq!(f.data, b"ccdd".to_vec());
}

#[test]
fn several_values_need_values_of_one_length() {
    let (env, w) = filled(&[b"a"]);
    let mut c = mdbx_cursor_open(&env, &w, 1).unwrap();
    assert_eq!(
        mdbx_cursor_get(&env, &mut c, b"a", b"", MDBX_cursor_op::MDBX_SEEK_AND_GET_MULTIPLE),
        Err(MdbxError::Incompatible)
    );
}

#[test]
fn put_through_a_cursor_moves_it() {
    let (mut env, w) = filled(&[b"a", b"c"]);
    let mut c = mdbx_cursor_open(&env, &w, 1).unwrap();
    assert_eq!(mdbx_cursor_put(&mut env, &mut c, b"b", b"new", 0), Ok(()));
    let f = mdbx_cursor_get(&env, &mut c, b"", b"", MDBX_cursor_op::MDBX_GET_CURRENT).unwrap();
    assert_eq!((f.key, f.data), (b"b".to_vec(), b"new".to_vec()));
    let f = mdbx_cursor_get(&env, &mut c, b"", b"", MDBX_cursor_op::MDBX_NEXT).unwrap();
    assert_eq!(f.key, b"c".to_vec());
}

#[test]
fn replace_at_the_position() {
    let (mut env, w, dbi) = dup_db(MDBX_DUPSORT);
    for v in [b"10", b"30", b"50"] {
        assert_eq!(mdbx_put(&mut env, &w, dbi, b"k", v, 0), Ok(()));
    }
    let mut c = mdbx_cursor_open(&env, &w, dbi).unwrap();
    assert_eq!(
        mdbx_cursor_put(&mut env, &mut c, b"k", b"35", MDBX_CURRENT as u32),
        Err(MdbxError::NoData)
    );
    mdbx_cursor_get(&env, &mut c, b"k", b"30", MDBX_cursor_op::MDBX_GET_BOTH).unwrap();
    assert_eq!(
        mdbx_cursor_put(&mut env, &mut c, b"other", b"35", MDBX_CURRENT as u32),
        Err(MdbxError::KeyMismatch)
    );
    assert_eq!(
        mdbx_cursor_put(&mut env, &mut c, b"k", b"60", MDBX_CURRENT as u32),
        Err(MdbxError::KeyMismatch)
    );
    assert_eq!(mdbx_cursor_put(&mut env, &mut c, b"k", b"35", MDBX_CURRENT as u32), Ok(()));
    let f = mdbx_cursor_get(&env, &mut c, b"k", b"", MDBX_cursor_op::MDBX_SEEK_AND_GET_MULTIPLE);
    assert_eq!(f, Err(MdbxError::Incompatible));
    let vals: Vec<Vec<u8>> = {
        let mut out = Vec::new();
        let mut op = MDBX_cursor_op::MDBX_FIRST;
        while let Ok(f) = mdbx_cursor_get(&env, &mut c, b"", b"", op) {
            out.push(f.data);
            op = MDBX_cursor_op::MDBX_NEXT;
        }
        out
    };
    assert_eq!(vals, vec![b"10".to_vec(), b"35".to_vec(), b"50".to_vec()]);
}

#[test]
fn delete_through_a_cursor() {
    let (mut env, w, dbi) = dup_db(MDBX_DUPSORT);
    for (k, v) in [(b"a", b"1"), (b"a", b"2"), (b"b", b"1"), (b"b", b"2")] {
        assert_eq!(mdbx_put(&mut env, &w, dbi, k, v, 0), Ok(()));
    }
    let mut c = mdbx_cursor_open(&env, &w, dbi).unwrap();
    assert_eq!(mdbx_cursor_del(&mut env, &c, 0), Err(MdbxError::NoData));
    mdbx_cursor_get(&env, &mut c, b"", b"", MDBX_cursor_op::MDBX_FIRST).unwrap();
    assert_eq!(mdbx_cursor_del(&mut env, &c, 0x1000), Err(MdbxError::InvalidArgument));
    assert_eq!(mdbx_cursor_del(&mut env, &c, 0), Ok(()));
    assert_eq!(mdbx_cursor_del(&mut env, &c, 0), Err(MdbxError::NotFound));
    let f = mdbx_cursor_get(&env, &mut c, b"", b"", MDBX_cursor_op::MDBX_NEXT).unwrap();
    assert_eq!((f.key, f.data), (b"a".to_vec(), b"2".to_vec()));
    let f = mdbx_cursor_get(&env, &mut c, b"", b"", MDBX_cursor_op::MDBX_NEXT).unwrap();
    assert_eq!((f.key, f.data), (b"b".to_vec(), b"1".to_vec()));
    assert_eq!(mdbx_cursor_del(&mut env, &c, MDBX_ALLDUPS as u32), Ok(()));
    assert_eq!(mdbx_get(&env, &w, dbi, b"b"), Err(MdbxError::NotFound));
    assert_eq!(mdbx_get(&env, &w, dbi, b"a"), Ok(b"2".to_vec()));
}

#[test]
fn cursor_of_a_finished_transaction() {
    let (mut env, w) = filled(&[b"a"]);
    let mut c = mdbx_cursor_open(&env, &w, 1).unwrap();
    assert_eq!(mdbx_txn_commit(&mut env, &w), Ok(()));
    assert_eq!(
        mdbx_cursor_get(&env, &mut c, b"", b"", MDBX_cursor_op::MDBX_FIRST),
        Err(MdbxError::BadTxn)
    );
    assert_eq!(mdbx_cursor_put(&mut env, &mut c, b"a", b"b", 0), Err(MdbxError::BadTxn));
    assert_eq!(mdbx_cursor_del(&mut env, &c, 0), Err(MdbxError::BadTxn));
    assert_eq!(mdbx_cursor_count(&env, &c), Err(MdbxError::BadTxn));
    assert!(matches!(mdbx_cursor_open(&env, &w, 1), Err(MdbxError::BadTxn)));
}

#[test]
fn cursor_of_a_reader_cannot_write() {
    let (mut env, w) = filled(&[b"a"]);
    assert_eq!(mdbx_txn_commit(&mut env, &w), Ok(()));
    let r = match mdbx_txn_begin(&mut env, None, MDBX_TXN_RDONLY as u32) {
        TxnBegin::Started(t) => t,
        other => panic!("transaction did not start: {:?}", other),
    };
    let mut c = mdbx_cursor_open(&env, &r, 1).unwrap();
    mdbx_cursor_get(&env, &mut c, b"", b"", MDBX_cursor_op::MDBX_FIRST).unwrap();
    assert_eq!(mdbx_cursor_put(&mut env, &mut c, b"a", b"b", 0), Err(MdbxError::AccessDenied));
    assert_eq!(mdbx_cursor_del(&mut env, &c, 0), Err(MdbxError::AccessDenied));
    assert!(matches!(mdbx_cursor_open(&env, &r, 7), Err(MdbxError::BadDbi)));
}
