use mdbx_rs::flags::{has, DbFlags, DbOpen, PutFlags};
use mdbx_rs::order::{compare_bytes, ByteOrder};
use mdbx_rs::{
    bytes_to_val, mdbx_cmp, mdbx_dbi_open, mdbx_dcmp, mdbx_env_create, mdbx_env_open,
    mdbx_env_set_maxdbs, mdbx_txn_begin, val_to_bytes, MDBX_cursor_op, MDBX_val, MdbxError,
    TxnBegin, MDBX_APPEND, MDBX_CREATE, MDBX_CURRENT, MDBX_DUPFIXED, MDBX_DUPSORT,
    MDBX_INTEGERDUP, MDBX_INTEGERKEY, MDBX_NOOVERWRITE, MDBX_RESERVE, MDBX_REVERSEDUP,
    MDBX_REVERSEKEY,
};

#[test]
fn lexical_order() {
    let o = ByteOrder::Lexical;
    assert_eq!(compare_bytes(o, b"", b""), 0);
    assert_eq!(compare_bytes(o, b"", b"a"), -1);
    assert_eq!(compare_bytes(o, b"a", b""), 1);
    assert_eq!(compare_bytes(o, b"abc", b"abd"), -1);
    assert_eq!(compare_bytes(o, b"abd", b"abc"), 1);
    assert_eq!(compare_bytes(o, b"ab", b"abc"), -1);
    assert_eq!(compare_bytes(o, b"b", b"abc"), 1);
    assert_eq!(compare_bytes(o, b"abc", b"abc"), 0);
    assert_eq!(compare_bytes(o, &[0x7f], &[0x80]), -1);
}

#[test]
fn reverse_order() {
    let o = ByteOrder::Reverse;
    assert_eq!(compare_bytes(o, b"", b""), 0);
    assert_eq!(compare_bytes(o, b"", b"a"), -1);
    assert_eq!(compare_bytes(o, b"za", b"ab"), -1);
    assert_eq!(compare_bytes(o, b"ab", b"za"), 1);
    assert_eq!(compare_bytes(o, b"bc", b"abc"), -1);
    assert_eq!(compare_bytes(o, b"abc", b"bc"), 1);
    assert_eq!(compare_bytes(o, b"xbc", b"abc"), 1);
    assert_eq!(compare_bytes(o, b"abc", b"abc"), 0);
}

#[test]
fn integer_order() {
    let o = ByteOrder::Integer;
    let n = |x: u32| x.to_le_bytes();
    assert_eq!(compare_bytes(o, &n(1), &n(2)), -1);
    assert_eq!(compare_bytes(o, &n(256), &n(255)), 1);
    assert_eq!(compare_bytes(o, &n(0x0100_0000), &n(0x00ff_ffff)), 1);
    assert_eq!(compare_bytes(o, &n(77), &n(77)), 0);
    assert_eq!(compare_bytes(o, &u32::MAX.to_le_bytes(), &0u64.to_le_bytes()), -1);
    let m = |x: u64| x.to_le_bytes();
    assert_eq!(compare_bytes(o, &m(1 << 40), &m((1 << 40) - 1)), 1);
    assert_eq!(compare_bytes(o, &m(3), &m(1 << 63)), -1);
}

#[test]
fn orders_of_a_sub_database() {
    let mut env = mdbx_env_create();
    assert_eq!(mdbx_env_set_maxdbs(&mut env, 4), Ok(()));
    assert_eq!(mdbx_env_open(&mut env, 0), Ok(()));
    let w = match mdbx_txn_begin(&mut env, None, 0) {
        TxnBegin::Started(t) => t,
        other => panic!("transaction did not start: {:?}", other),
    };
    let rev = mdbx_dbi_open(
        &mut env,
        &w,
        Some(b"rev"),
        (MDBX_CREATE | MDBX_REVERSEKEY | MDBX_DUPSORT | MDBX_DUPFIXED | MDBX_INTEGERDUP) as u32,
    )
    .unwrap();
    assert_eq!(mdbx_cmp(&env, &w, 1, b"ab", b"ba"), Ok(-1));
    assert_eq!(mdbx_cmp(&env, &w, rev, b"ab", b"ba"), Ok(1));
    assert_eq!(mdbx_cmp(&env, &w, rev, b"ab", b"ab"), Ok(0));
    assert_eq!(mdbx_dcmp(&env, &w, rev, &2u32.to_le_bytes(), &256u32.to_le_bytes()), Ok(-1));
    assert_eq!(mdbx_dcmp(&env, &w, 1, &2u32.to_le_bytes(), &256u32.to_le_bytes()), Ok(1));
    assert_eq!(mdbx_cmp(&env, &w, 9, b"a", b"b"), Err(MdbxError::BadDbi));
    assert_eq!(mdbx_dcmp(&env, &w, 9, b"a", b"b"), Err(MdbxError::BadDbi));
    assert_eq!(mdbx_rs::mdbx_txn_abort(&mut env, &w), Ok(()));
    assert_eq!(mdbx_cmp(&env, &w, 1, b"a", b"b"), Err(MdbxError::BadTxn));
    assert_eq!(mdbx_dcmp(&env, &w, 1, b"a", b"b"), Err(MdbxError::BadTxn));
}

#[test]
fn flag_words_of_a_sub_database() {
    assert!(has(0x24, MDBX_DUPSORT));
    assert!(!has(0x20, MDBX_DUPSORT));
    let plain = DbFlags {
        reverse_key: false,
        dup_sort: false,
        integer_key: false,
        dup_fixed: false,
        integer_dup: false,
        reverse_dup: false,
    };
    assert_eq!(DbFlags::parse(0), Ok(DbOpen { flags: plain, create: false, accede: false }));
    assert_eq!(
        DbFlags::parse((MDBX_CREATE | MDBX_DUPSORT | MDBX_REVERSEDUP | MDBX_INTEGERKEY) as u32),
        Ok(DbOpen {
            flags: DbFlags { dup_sort: true, reverse_dup: true, integer_key: true, ..plain },
            create: true,
            accede: false,
        })
    );
    assert_eq!(DbFlags::parse(0x80), Err(MdbxError::InvalidArgument));
    assert_eq!(DbFlags::parse(MDBX_DUPFIXED as u32), Err(MdbxError::Incompatible));
    let all = DbFlags { dup_sort: true, dup_fixed: true, integer_dup: true, reverse_key: true, ..plain };
    assert!(all.is_valid());
    assert_eq!(all.bits(), (MDBX_DUPSORT | MDBX_DUPFIXED | MDBX_INTEGERDUP | MDBX_REVERSEKEY) as u32);
    assert_eq!(DbFlags::parse(all.bits()).map(|o| o.flags), Ok(all));
    assert_eq!(all.get_key_order(), ByteOrder::Reverse);
    assert_eq!(all.get_dup_order(), ByteOrder::Integer);
    assert_eq!(plain.get_key_order(), ByteOrder::Lexical);
    assert_eq!(DbFlags { integer_key: true, ..plain }.get_key_order(), ByteOrder::Integer);
    assert_eq!(DbFlags { dup_sort: true, reverse_dup: true, ..plain }.get_dup_order(), ByteOrder::Reverse);
    assert!(!DbFlags { integer_key: true, reverse_key: true, ..plain }.is_valid());
}

#[test]
fn flag_words_of_a_put() {
    let none = PutFlags {
        no_overwrite: false,
        no_dup_data: false,
        current: false,
        all_dups: false,
        reserve: false,
        append: false,
        append_dup: false,
        multiple: false,
    };
    assert_eq!(PutFlags::parse(0), Ok(none));
    assert_eq!(
        PutFlags::parse((MDBX_NOOVERWRITE | MDBX_APPEND) as u32),
        Ok(PutFlags { no_overwrite: true, append: true, ..none })
    );
    assert_eq!(PutFlags::parse(1), Err(MdbxError::InvalidArgument));
    let plain = DbFlags::parse(0).unwrap().flags;
    let dups = DbFlags::parse(MDBX_DUPSORT as u32).unwrap().flags;
    assert!(none.check(&plain));
    assert!(PutFlags::parse(MDBX_RESERVE as u32).unwrap().check(&plain));
    assert!(!PutFlags::parse(MDBX_RESERVE as u32).unwrap().check(&dups));
    assert!(!PutFlags { no_dup_data: true, ..none }.check(&plain));
    assert!(PutFlags { no_dup_data: true, ..none }.check(&dups));
    assert!(!PutFlags::parse((MDBX_CURRENT | MDBX_NOOVERWRITE) as u32).unwrap().check(&plain));
    assert!(!PutFlags { multiple: true, ..none }.check(&dups));
}

#[test]
fn numbers_of_the_cursor_operations() {
    assert_eq!(MDBX_cursor_op::MDBX_FIRST.code(), 0);
    assert_eq!(MDBX_cursor_op::MDBX_SET_RANGE.code(), 17);
    assert_eq!(MDBX_cursor_op::MDBX_SEEK_AND_GET_MULTIPLE.code(), 36);
    for n in 0..=36 {
        let op = MDBX_cursor_op::from_code(n).unwrap();
        assert_eq!(op.code(), n);
        assert_eq!(op as i32, n);
    }
    assert_eq!(MDBX_cursor_op::from_code(37), None);
    assert_eq!(MDBX_cursor_op::from_code(-1), None);
}

#[test]
fn values_and_bytes() {
    let data = b"hello";
    let val = bytes_to_val(data);
    assert_eq!(val.iov_len, 5);
    assert_eq!(val_to_bytes(&val), b"hello");
    let null = MDBX_val::default();
    assert_eq!(null.iov_len, 0);
    assert!(null.iov_base.is_none());
    assert_eq!(val_to_bytes(&null), b"");
    let empty = bytes_to_val(b"");
    assert_eq!(val_to_bytes(&empty), b"");
    let part = MDBX_val { iov_len: 3, iov_base: Some(&data[..]) };
    assert_eq!(val_to_bytes(&part), b"hel");
    let none = MDBX_val { iov_len: 0, iov_base: Some(&data[..]) };
    assert_eq!(val_to_bytes(&none), b"");
    let dangling = MDBX_val { iov_len: 4, iov_base: None };
    assert_eq!(val_to_bytes(&dangling), b"");
}
