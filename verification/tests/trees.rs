use mdbx_rs::{
    mdbx_cursor_get, mdbx_cursor_open, mdbx_dbi_open, mdbx_dbi_stat, mdbx_del, mdbx_drop,
    mdbx_env_create, mdbx_env_info, mdbx_env_open, mdbx_env_set_geometry, mdbx_env_set_maxdbs,
    mdbx_get, mdbx_put, mdbx_put_multiple, mdbx_txn_abort, mdbx_txn_begin, mdbx_txn_commit,
    MDBX_cursor_op, MDBX_env, MDBX_txn, MdbxError, TxnBegin, MAIN_DBI, MDBX_CREATE,
    MDBX_DUPFIXED, MDBX_DUPSORT, MDBX_MULTIPLE, MDBX_NODUPDATA, MDBX_TXN_RDONLY,
};

// An environment with pages of 256 bytes, which hold eight items each.
fn small_pages(limit: isize) -> MDBX_env {
    let mut env = mdbx_env_create();
    assert_eq!(mdbx_env_set_geometry(&mut env, 0, 0, limit * 256, -1, -1, 256), Ok(()));
    assert_eq!(mdbx_env_set_maxdbs(&mut env, 4), Ok(()));
    assert_eq!(mdbx_env_open(&mut env, 0), Ok(()));
    env
}

fn begin(env: &mut MDBX_env, parent: Option<MDBX_txn>, flags: i32) -> MDBX_txn {
    match mdbx_txn_begin(env, parent, flags as u32) {
        TxnBegin::Started(t) => t,
        other => panic!("transaction did not start: {:?}", other),
    }
}

fn key(i: u32) -> Vec<u8> {
    vec![(i >> 24) as u8, (i >> 16) as u8, (i >> 8) as u8, i as u8]
}

// The numbers below `n` in an order that is neither ascending nor
// descending; `n` must not be a multiple of 7.
fn shuffled(n: u32) -> Vec<u32> {
    let mut v = Vec::new();
    let mut x = 0u32;
    for _ in 0..n {
        v.push(x);
        x = (x + 7) % n;
    }
    v
}

fn all_keys(env: &MDBX_env, txn: &MDBX_txn, dbi: u32) -> Vec<Vec<u8>> {
    let mut c = mdbx_cursor_open(env, txn, dbi).unwrap();
    let mut keys = Vec::new();
    let mut found = mdbx_cursor_get(env, &mut c, b"", b"", MDBX_cursor_op::MDBX_FIRST);
    while let Ok(f) = found {
        keys.push(f.key);
        found = mdbx_cursor_get(env, &mut c, b"", b"", MDBX_cursor_op::MDBX_NEXT);
    }
    assert_eq!(found, Err(MdbxError::NotFound));
    keys
}

#[test]
fn a_ninth_entry_splits_the_page() {
    let mut env = small_pages(1000);
    let w = begin(&mut env, None, 0);
    for i in 0..8 {
        assert_eq!(mdbx_put(&mut env, &w, MAIN_DBI, &key(i), b"v", 0), Ok(()));
    }
    let s = mdbx_dbi_stat(&env, &w, MAIN_DBI).unwrap();
    assert_eq!((s.ms_entries, s.ms_depth, s.ms_leaf_pages, s.ms_branch_pages), (8, 1, 1, 0));
    assert_eq!(mdbx_put(&mut env, &w, MAIN_DBI, &key(8), b"v", 0), Ok(()));
    let s = mdbx_dbi_stat(&env, &w, MAIN_DBI).unwrap();
    assert_eq!((s.ms_entries, s.ms_depth, s.ms_leaf_pages, s.ms_branch_pages), (9, 2, 2, 1));
    assert_eq!(s.ms_psize, 256);
    // Two entries less, and the two pages fit on one again.
    assert_eq!(mdbx_del(&mut env, &w, MAIN_DBI, &key(0), None), Ok(()));
    assert_eq!(mdbx_del(&mut env, &w, MAIN_DBI, &key(8), None), Ok(()));
    let s = mdbx_dbi_stat(&env, &w, MAIN_DBI).unwrap();
    assert_eq!((s.ms_entries, s.ms_depth, s.ms_leaf_pages, s.ms_branch_pages), (7, 1, 1, 0));
    let expected: Vec<Vec<u8>> = (1..8).map(key).collect();
    assert_eq!(all_keys(&env, &w, MAIN_DBI), expected);
}

#[test]
fn a_thousand_entries_stay_in_order() {
    let mut env = small_pages(100_000);
    let w = begin(&mut env, None, 0);
    for i in shuffled(1000) {
        assert_eq!(mdbx_put(&mut env, &w, MAIN_DBI, &key(i), &key(i * 3), 0), Ok(()));
    }
    assert_eq!(mdbx_txn_commit(&mut env, &w), Ok(()));
    let r = begin(&mut env, None, MDBX_TXN_RDONLY);
    let s = mdbx_dbi_stat(&env, &r, MAIN_DBI).unwrap();
    assert_eq!(s.ms_entries, 1000);
    // Every page below the root is at least half full and not more than
    // full.
    assert!(s.ms_leaf_pages >= 125 && s.ms_leaf_pages <= 250);
    assert!(s.ms_depth >= 4 && s.ms_depth <= 5);
    assert!(s.ms_branch_pages >= 17 && s.ms_branch_pages < s.ms_leaf_pages);
    let expected: Vec<Vec<u8>> = (0..1000).map(key).collect();
    assert_eq!(all_keys(&env, &r, MAIN_DBI), expected);
    for i in 0..1000 {
        assert_eq!(mdbx_get(&env, &r, MAIN_DBI, &key(i)), Ok(key(i * 3)));
    }
    assert_eq!(mdbx_get(&env, &r, MAIN_DBI, &key(1000)), Err(MdbxError::NotFound));
}

#[test]
fn deleting_entries_joins_pages() {
    let mut env = small_pages(100_000);
    let w = begin(&mut env, None, 0);
    for i in 0..500 {
        assert_eq!(mdbx_put(&mut env, &w, MAIN_DBI, &key(i), b"v", 0), Ok(()));
    }
    // Every other entry goes.
    for i in shuffled(500) {
        if i % 2 == 1 {
            assert_eq!(mdbx_del(&mut env, &w, MAIN_DBI, &key(i), None), Ok(()));
        }
    }
    let s = mdbx_dbi_stat(&env, &w, MAIN_DBI).unwrap();
    assert_eq!(s.ms_entries, 250);
    assert!(s.ms_leaf_pages >= 32 && s.ms_leaf_pages <= 63);
    let expected: Vec<Vec<u8>> = (0..250).map(|i| key(2 * i)).collect();
    assert_eq!(all_keys(&env, &w, MAIN_DBI), expected);
    assert_eq!(mdbx_del(&mut env, &w, MAIN_DBI, &key(1), None), Err(MdbxError::NotFound));
    // All but one go, and a single page is left.
    for i in 1..250 {
        assert_eq!(mdbx_del(&mut env, &w, MAIN_DBI, &key(2 * i), None), Ok(()));
    }
    let s = mdbx_dbi_stat(&env, &w, MAIN_DBI).unwrap();
    assert_eq!((s.ms_entries, s.ms_depth, s.ms_leaf_pages, s.ms_branch_pages), (1, 1, 1, 0));
    assert_eq!(mdbx_del(&mut env, &w, MAIN_DBI, &key(0), None), Ok(()));
    let s = mdbx_dbi_stat(&env, &w, MAIN_DBI).unwrap();
    assert_eq!((s.ms_entries, s.ms_depth, s.ms_leaf_pages, s.ms_branch_pages), (0, 0, 0, 0));
    assert_eq!(mdbx_txn_commit(&mut env, &w), Ok(()));
}

#[test]
fn a_reader_keeps_its_tree() {
    let mut env = small_pages(100_000);
    let w = begin(&mut env, None, 0);
    for i in 0..200 {
        assert_eq!(mdbx_put(&mut env, &w, MAIN_DBI, &key(i), b"old", 0), Ok(()));
    }
    assert_eq!(mdbx_txn_commit(&mut env, &w), Ok(()));
    let r = begin(&mut env, None, MDBX_TXN_RDONLY);
    let w = begin(&mut env, None, 0);
    for i in 0..200 {
        if i % 3 == 0 {
            assert_eq!(mdbx_del(&mut env, &w, MAIN_DBI, &key(i), None), Ok(()));
        } else {
            assert_eq!(mdbx_put(&mut env, &w, MAIN_DBI, &key(i), b"new", 0), Ok(()));
        }
    }
    for i in 200..300 {
        assert_eq!(mdbx_put(&mut env, &w, MAIN_DBI, &key(i), b"new", 0), Ok(()));
    }
    assert_eq!(mdbx_txn_commit(&mut env, &w), Ok(()));
    // A second transaction uses the pages again that no reader can see.
    let w = begin(&mut env, None, 0);
    for i in 300..400 {
        assert_eq!(mdbx_put(&mut env, &w, MAIN_DBI, &key(i), b"newer", 0), Ok(()));
    }
    assert_eq!(mdbx_txn_commit(&mut env, &w), Ok(()));
    let expected: Vec<Vec<u8>> = (0..200).map(key).collect();
    assert_eq!(all_keys(&env, &r, MAIN_DBI), expected);
    for i in 0..200 {
        assert_eq!(mdbx_get(&env, &r, MAIN_DBI, &key(i)), Ok(b"old".to_vec()));
    }
    assert_eq!(mdbx_dbi_stat(&env, &r, MAIN_DBI).unwrap().ms_entries, 200);
    let now = begin(&mut env, None, MDBX_TXN_RDONLY);
    assert_eq!(mdbx_get(&env, &now, MAIN_DBI, &key(0)), Err(MdbxError::NotFound));
    assert_eq!(mdbx_get(&env, &now, MAIN_DBI, &key(1)), Ok(b"new".to_vec()));
    assert_eq!(mdbx_get(&env, &now, MAIN_DBI, &key(399)), Ok(b"newer".to_vec()));
    assert_eq!(all_keys(&env, &now, MAIN_DBI).len(), 133 + 200);
}

#[test]
fn an_aborted_child_leaves_the_tree_of_its_parent() {
    let mut env = small_pages(100_000);
    let w = begin(&mut env, None, 0);
    for i in 0..100 {
        assert_eq!(mdbx_put(&mut env, &w, MAIN_DBI, &key(i), b"parent", 0), Ok(()));
    }
    let before = mdbx_dbi_stat(&env, &w, MAIN_DBI).unwrap();
    let child = begin(&mut env, Some(w), 0);
    for i in 0..100 {
        assert_eq!(mdbx_del(&mut env, &child, MAIN_DBI, &key(i), None), Ok(()));
    }
    for i in 100..150 {
        assert_eq!(mdbx_put(&mut env, &child, MAIN_DBI, &key(i), b"child", 0), Ok(()));
    }
    assert_eq!(mdbx_dbi_stat(&env, &child, MAIN_DBI).unwrap().ms_entries, 50);
    assert_eq!(mdbx_txn_abort(&mut env, &child), Ok(()));
    assert_eq!(mdbx_dbi_stat(&env, &w, MAIN_DBI).unwrap(), before);
    let expected: Vec<Vec<u8>> = (0..100).map(key).collect();
    assert_eq!(all_keys(&env, &w, MAIN_DBI), expected);
    // A child that commits hands its tree to the parent.
    let child = begin(&mut env, Some(w), 0);
    for i in 100..150 {
        assert_eq!(mdbx_put(&mut env, &child, MAIN_DBI, &key(i), b"child", 0), Ok(()));
    }
    assert_eq!(mdbx_txn_commit(&mut env, &child), Ok(()));
    assert_eq!(mdbx_dbi_stat(&env, &w, MAIN_DBI).unwrap().ms_entries, 150);
    assert_eq!(mdbx_get(&env, &w, MAIN_DBI, &key(149)), Ok(b"child".to_vec()));
}

#[test]
fn the_pages_of_a_dropped_tree_are_used_again() {
    let mut env = small_pages(100_000);
    let mut sizes = Vec::new();
    for _ in 0..4 {
        let w = begin(&mut env, None, 0);
        for i in 0..300 {
            assert_eq!(mdbx_put(&mut env, &w, MAIN_DBI, &key(i), b"v", 0), Ok(()));
        }
        assert_eq!(mdbx_txn_commit(&mut env, &w), Ok(()));
        let w = begin(&mut env, None, 0);
        assert_eq!(mdbx_drop(&mut env, &w, MAIN_DBI, false), Ok(()));
        assert_eq!(mdbx_dbi_stat(&env, &w, MAIN_DBI).unwrap().ms_entries, 0);
        assert_eq!(mdbx_txn_commit(&mut env, &w), Ok(()));
        let info = mdbx_env_info(&env);
        // Nothing is in use, so every page of the file is free.
        assert_eq!(info.free_pages, info.pages);
        sizes.push(info.pages);
    }
    // The file has grown while it was filled for the first time, and not
    // since.
    assert_eq!(sizes[1], sizes[0]);
    assert_eq!(sizes[2], sizes[0]);
    assert_eq!(sizes[3], sizes[0]);
}

#[test]
fn a_full_file_refuses_a_put_and_keeps_what_it_has() {
    let mut env = small_pages(40);
    let w = begin(&mut env, None, 0);
    let mut stored = 0u32;
    loop {
        match mdbx_put(&mut env, &w, MAIN_DBI, &key(stored), b"v", 0) {
            Ok(()) => stored += 1,
            Err(e) => {
                assert_eq!(e, MdbxError::MapFull);
                break;
            },
        }
        assert!(stored < 1000);
    }
    assert!(stored >= 8);
    assert!(mdbx_env_info(&env).pages == 0);
    let expected: Vec<Vec<u8>> = (0..stored).map(key).collect();
    assert_eq!(all_keys(&env, &w, MAIN_DBI), expected);
    assert_eq!(mdbx_txn_commit(&mut env, &w), Ok(()));
    let info = mdbx_env_info(&env);
    assert!(info.pages <= 40);
    let r = begin(&mut env, None, MDBX_TXN_RDONLY);
    assert_eq!(all_keys(&env, &r, MAIN_DBI), expected);
}

#[test]
fn two_trees_share_no_page() {
    let mut env = small_pages(100_000);
    let w = begin(&mut env, None, 0);
    let a = mdbx_dbi_open(&mut env, &w, Some(b"a"), MDBX_CREATE as u32).unwrap();
    let b = mdbx_dbi_open(&mut env, &w, Some(b"b"), (MDBX_CREATE | MDBX_DUPSORT) as u32).unwrap();
    for i in shuffled(200) {
        assert_eq!(mdbx_put(&mut env, &w, a, &key(i), b"a", 0), Ok(()));
        assert_eq!(mdbx_put(&mut env, &w, b, &key(i % 50), &key(i), 0), Ok(()));
    }
    assert_eq!(mdbx_txn_commit(&mut env, &w), Ok(()));
    let w = begin(&mut env, None, 0);
    assert_eq!(mdbx_drop(&mut env, &w, a, false), Ok(()));
    assert_eq!(mdbx_txn_commit(&mut env, &w), Ok(()));
    let w = begin(&mut env, None, 0);
    for i in 0..100 {
        assert_eq!(mdbx_put(&mut env, &w, MAIN_DBI, &key(i), b"main", 0), Ok(()));
    }
    assert_eq!(mdbx_txn_commit(&mut env, &w), Ok(()));
    let r = begin(&mut env, None, MDBX_TXN_RDONLY);
    // The pages of the file are the pages of the three trees and the free
    // pages.
    let info = mdbx_env_info(&env);
    let mut in_trees = 0;
    for dbi in [MAIN_DBI, a, b] {
        let s = mdbx_dbi_stat(&env, &r, dbi).unwrap();
        in_trees += s.ms_leaf_pages + s.ms_branch_pages;
    }
    assert_eq!(info.pages, in_trees + info.free_pages);
    assert!(info.free_pages > 0);
    let s = mdbx_dbi_stat(&env, &r, b).unwrap();
    assert_eq!(s.ms_entries, 200);
    let expected: Vec<Vec<u8>> = (0..50).map(key).collect();
    let mut c = mdbx_cursor_open(&env, &r, b).unwrap();
    let mut keys = Vec::new();
    let mut found = mdbx_cursor_get(&env, &mut c, b"", b"", MDBX_cursor_op::MDBX_FIRST);
    while let Ok(f) = found {
        keys.push(f.key);
        found = mdbx_cursor_get(&env, &mut c, b"", b"", MDBX_cursor_op::MDBX_NEXT_NODUP);
    }
    assert_eq!(keys, expected);
    assert_eq!(mdbx_get(&env, &r, b, &key(7)), Ok(key(7)));
    assert_eq!(mdbx_dbi_stat(&env, &r, a).unwrap().ms_entries, 0);
    assert_eq!(all_keys(&env, &r, MAIN_DBI).len(), 100);
}

#[test]
fn a_cursor_moves_across_pages() {
    let mut env = small_pages(100_000);
    let w = begin(&mut env, None, 0);
    for i in shuffled(100) {
        assert_eq!(mdbx_put(&mut env, &w, MAIN_DBI, &key(2 * i), &key(i), 0), Ok(()));
    }
    let mut c = mdbx_cursor_open(&env, &w, MAIN_DBI).unwrap();
    // Backwards from the last key.
    let mut found = mdbx_cursor_get(&env, &mut c, b"", b"", MDBX_cursor_op::MDBX_LAST);
    let mut seen = Vec::new();
    while let Ok(f) = found {
        seen.push(f.key);
        found = mdbx_cursor_get(&env, &mut c, b"", b"", MDBX_cursor_op::MDBX_PREV);
    }
    let expected: Vec<Vec<u8>> = (0..100).rev().map(|i| key(2 * i)).collect();
    assert_eq!(seen, expected);
    // A key that is absent: the next key is found.
    for i in 0..99 {
        let f = mdbx_cursor_get(&env, &mut c, &key(2 * i + 1), b"", MDBX_cursor_op::MDBX_SET_RANGE)
            .unwrap();
        assert_eq!((f.key, f.data), (key(2 * i + 2), key(i + 1)));
        let f = mdbx_cursor_get(&env, &mut c, b"", b"", MDBX_cursor_op::MDBX_PREV).unwrap();
        assert_eq!(f.key, key(2 * i));
    }
    assert_eq!(
        mdbx_cursor_get(&env, &mut c, &key(199), b"", MDBX_cursor_op::MDBX_SET_RANGE),
        Err(MdbxError::NotFound)
    );
    assert_eq!(
        mdbx_cursor_get(&env, &mut c, &key(199), b"", MDBX_cursor_op::MDBX_SET_LOWERBOUND),
        Err(MdbxError::NotFound)
    );
    assert_eq!(
        mdbx_cursor_get(&env, &mut c, &key(7), b"", MDBX_cursor_op::MDBX_SET),
        Err(MdbxError::NotFound)
    );
    let f = mdbx_cursor_get(&env, &mut c, b"", b"", MDBX_cursor_op::MDBX_SET_LOWERBOUND).unwrap();
    assert_eq!((f.key, f.exact), (key(0), false));
    let f = mdbx_cursor_get(&env, &mut c, &key(64), b"", MDBX_cursor_op::MDBX_SET_KEY).unwrap();
    assert_eq!((f.key, f.data), (key(64), key(32)));
}

#[test]
fn duplicates_in_a_tree_of_many_keys() {
    let mut env = small_pages(100_000);
    let w = begin(&mut env, None, 0);
    let dbi = mdbx_dbi_open(&mut env, &w, Some(b"dups"), (MDBX_CREATE | MDBX_DUPSORT) as u32).unwrap();
    for v in [4u8, 0, 3, 1, 2] {
        for i in shuffled(60) {
            assert_eq!(mdbx_put(&mut env, &w, dbi, &key(i), &[v], 0), Ok(()));
        }
    }
    let s = mdbx_dbi_stat(&env, &w, dbi).unwrap();
    assert_eq!(s.ms_entries, 300);
    assert!(s.ms_depth >= 2);
    let mut c = mdbx_cursor_open(&env, &w, dbi).unwrap();
    let mut pairs = Vec::new();
    let mut found = mdbx_cursor_get(&env, &mut c, b"", b"", MDBX_cursor_op::MDBX_FIRST);
    while let Ok(f) = found {
        pairs.push((f.key, f.data));
        found = mdbx_cursor_get(&env, &mut c, b"", b"", MDBX_cursor_op::MDBX_NEXT);
    }
    let expected: Vec<(Vec<u8>, Vec<u8>)> =
        (0..300).map(|n| (key(n / 5), vec![(n % 5) as u8])).collect();
    assert_eq!(pairs, expected);
    // One value of a key goes, then the key with the rest of its values.
    assert_eq!(mdbx_del(&mut env, &w, dbi, &key(30), Some(&[2])), Ok(()));
    assert_eq!(mdbx_dbi_stat(&env, &w, dbi).unwrap().ms_entries, 299);
    assert_eq!(mdbx_get(&env, &w, dbi, &key(30)), Ok(vec![0]));
    assert_eq!(mdbx_del(&mut env, &w, dbi, &key(30), None), Ok(()));
    assert_eq!(mdbx_dbi_stat(&env, &w, dbi).unwrap().ms_entries, 295);
    assert_eq!(mdbx_get(&env, &w, dbi, &key(30)), Err(MdbxError::NotFound));
    assert_eq!(mdbx_get(&env, &w, dbi, &key(31)), Ok(vec![0]));
}

#[test]
fn the_depth_grows_with_the_logarithm_of_the_entries() {
    let mut env = small_pages(1_000_000);
    let w = begin(&mut env, None, 0);
    let mut depth = 0;
    for i in 0..3000u32 {
        assert_eq!(mdbx_put(&mut env, &w, MAIN_DBI, &key(i), b"", 0), Ok(()));
        if (i + 1) % 500 == 0 {
            let s = mdbx_dbi_stat(&env, &w, MAIN_DBI).unwrap();
            assert!(s.ms_depth >= depth);
            depth = s.ms_depth;
            assert!(1u64 << (s.ms_depth - 1) <= s.ms_entries);
            assert!(s.ms_leaf_pages <= s.ms_entries);
            assert!(s.ms_branch_pages < s.ms_leaf_pages);
            // Pages of eight items that are half full at least.
            assert!(s.ms_leaf_pages * 4 <= s.ms_entries || s.ms_depth == 1);
            assert!(s.ms_leaf_pages * 8 >= s.ms_entries);
        }
    }
    assert!(depth >= 4 && depth <= 6);
    assert_eq!(mdbx_txn_commit(&mut env, &w), Ok(()));
    let info = mdbx_env_info(&env);
    let r = begin(&mut env, None, MDBX_TXN_RDONLY);
    let s = mdbx_dbi_stat(&env, &r, MAIN_DBI).unwrap();
    // What is not free is the tree.
    assert_eq!(info.pages - info.free_pages, s.ms_leaf_pages + s.ms_branch_pages);
}

#[test]
fn several_values_in_one_put() {
    let mut env = small_pages(100_000);
    let w = begin(&mut env, None, 0);
    let flags = (MDBX_CREATE | MDBX_DUPSORT | MDBX_DUPFIXED) as u32;
    let dbi = mdbx_dbi_open(&mut env, &w, Some(b"fixed"), flags).unwrap();
    let many = MDBX_MULTIPLE as u32;
    let (n, r, _) = mdbx_put_multiple(&mut env, &w, dbi, b"k", b"ccaabb", 2, many);
    assert_eq!((n, r), (3, Ok(())));
    let mut c = mdbx_cursor_open(&env, &w, dbi).unwrap();
    let f = mdbx_cursor_get(&env, &mut c, b"k", b"", MDBX_cursor_op::MDBX_SEEK_AND_GET_MULTIPLE)
        .unwrap();
    assert_eq!(f.data, b"aabbcc".to_vec());
    assert_eq!(mdbx_dbi_stat(&env, &w, dbi).unwrap().ms_entries, 3);
    // A value that is there stops a put that admits no pair twice; what
    // was put before it stays.
    let strict = (MDBX_MULTIPLE | MDBX_NODUPDATA) as u32;
    let (n, r, _) = mdbx_put_multiple(&mut env, &w, dbi, b"k", b"ddbbee", 2, strict);
    assert_eq!((n, r), (1, Err(MdbxError::KeyExist)));
    assert_eq!(mdbx_dbi_stat(&env, &w, dbi).unwrap().ms_entries, 4);
    // Values of another length are refused.
    let (n, r, _) = mdbx_put_multiple(&mut env, &w, dbi, b"k", b"xyzxyz", 3, many);
    assert_eq!((n, r), (0, Err(MdbxError::BadValSize)));
    // The data must be made of values of the given size.
    let (n, r, _) = mdbx_put_multiple(&mut env, &w, dbi, b"k", b"abcde", 2, many);
    assert_eq!((n, r), (0, Err(MdbxError::InvalidArgument)));
    let (n, r, _) = mdbx_put_multiple(&mut env, &w, dbi, b"k", b"abcd", 0, many);
    assert_eq!((n, r), (0, Err(MdbxError::InvalidArgument)));
    let (n, r, _) = mdbx_put_multiple(&mut env, &w, dbi, b"k", b"", 2, many);
    assert_eq!((n, r), (0, Err(MdbxError::InvalidArgument)));
    // The flag for several values goes with several values only.
    let (n, r, _) = mdbx_put_multiple(&mut env, &w, dbi, b"k", b"ffgg", 2, 0);
    assert_eq!((n, r), (0, Err(MdbxError::InvalidArgument)));
    assert_eq!(mdbx_put(&mut env, &w, dbi, b"k", b"ff", many), Err(MdbxError::InvalidArgument));
    assert_eq!(mdbx_put(&mut env, &w, dbi, b"k", b"ff", 0), Ok(()));
    // A sub-database whose values are not of one length takes no array.
    let (n, r, _) = mdbx_put_multiple(&mut env, &w, MAIN_DBI, b"k", b"ffgg", 2, many);
    assert_eq!((n, r), (0, Err(MdbxError::Incompatible)));
    // Many values of many keys.
    for i in 0..40 {
        let mut data = Vec::new();
        for v in 0..20u8 {
            data.extend_from_slice(&[19 - v, i as u8]);
        }
        let (n, r, _) = mdbx_put_multiple(&mut env, &w, dbi, &key(i), &data, 2, many);
        assert_eq!((n, r), (20, Ok(())));
    }
    assert_eq!(mdbx_dbi_stat(&env, &w, dbi).unwrap().ms_entries, 5 + 800);
    let f = mdbx_cursor_get(&env, &mut c, &key(7), b"", MDBX_cursor_op::MDBX_SEEK_AND_GET_MULTIPLE)
        .unwrap();
    assert_eq!(f.data.len(), 40);
    assert_eq!(&f.data[..4], &[0, 7, 1, 7]);
    assert_eq!(mdbx_txn_commit(&mut env, &w), Ok(()));
}
