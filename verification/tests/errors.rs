use mdbx_rs::{
    ErrorClass, MdbxError, MDBX_BACKLOG_DEPLETED, MDBX_BAD_DBI, MDBX_BAD_RSLOT, MDBX_BAD_TXN,
    MDBX_BAD_VALSIZE, MDBX_BUSY, MDBX_CORRUPTED, MDBX_CURSOR_FULL, MDBX_DANGLING_DBI,
    MDBX_DBS_FULL, MDBX_DUPLICATED_CLK, MDBX_EBADSIGN, MDBX_EKEYMISMATCH, MDBX_EMULTIVAL,
    MDBX_INCOMPATIBLE, MDBX_INVALID, MDBX_KEYEXIST, MDBX_MAP_FULL, MDBX_MVCC_RETARDED,
    MDBX_NOTFOUND, MDBX_OUSTED, MDBX_PAGE_FULL, MDBX_PAGE_NOTFOUND, MDBX_PANIC, MDBX_PROBLEM,
    MDBX_READERS_FULL, MDBX_SUCCESS, MDBX_THREAD_MISMATCH, MDBX_TOO_LARGE, MDBX_TXN_FULL,
    MDBX_TXN_OVERLAPPING, MDBX_UNABLE_EXTEND_MAPSIZE, MDBX_VERSION_MISMATCH,
    MDBX_WANNA_RECOVERY,
};

const OWN: [(MdbxError, i32); 33] = [
    (MdbxError::KeyExist, MDBX_KEYEXIST),
    (MdbxError::NotFound, MDBX_NOTFOUND),
    (MdbxError::PageNotFound, MDBX_PAGE_NOTFOUND),
    (MdbxError::Corrupted, MDBX_CORRUPTED),
    (MdbxError::Panic, MDBX_PANIC),
    (MdbxError::VersionMismatch, MDBX_VERSION_MISMATCH),
    (MdbxError::Invalid, MDBX_INVALID),
    (MdbxError::MapFull, MDBX_MAP_FULL),
    (MdbxError::DbsFull, MDBX_DBS_FULL),
    (MdbxError::ReadersFull, MDBX_READERS_FULL),
    (MdbxError::TxnFull, MDBX_TXN_FULL),
    (MdbxError::CursorFull, MDBX_CURSOR_FULL),
    (MdbxError::PageFull, MDBX_PAGE_FULL),
    (MdbxError::UnableExtendMapsize, MDBX_UNABLE_EXTEND_MAPSIZE),
    (MdbxError::Incompatible, MDBX_INCOMPATIBLE),
    (MdbxError::BadRslot, MDBX_BAD_RSLOT),
    (MdbxError::BadTxn, MDBX_BAD_TXN),
    (MdbxError::BadValSize, MDBX_BAD_VALSIZE),
    (MdbxError::BadDbi, MDBX_BAD_DBI),
    (MdbxError::Problem, MDBX_PROBLEM),
    (MdbxError::Busy, MDBX_BUSY),
    (MdbxError::Multival, MDBX_EMULTIVAL),
    (MdbxError::BadSign, MDBX_EBADSIGN),
    (MdbxError::WannaRecovery, MDBX_WANNA_RECOVERY),
    (MdbxError::KeyMismatch, MDBX_EKEYMISMATCH),
    (MdbxError::TooLarge, MDBX_TOO_LARGE),
    (MdbxError::ThreadMismatch, MDBX_THREAD_MISMATCH),
    (MdbxError::TxnOverlapping, MDBX_TXN_OVERLAPPING),
    (MdbxError::BacklogDepleted, MDBX_BACKLOG_DEPLETED),
    (MdbxError::DuplicatedClk, MDBX_DUPLICATED_CLK),
    (MdbxError::DanglingDbi, MDBX_DANGLING_DBI),
    (MdbxError::Ousted, MDBX_OUSTED),
    (MdbxError::MvccRetarded, MDBX_MVCC_RETARDED),
];

#[test]
fn every_failure_of_the_engine_has_its_number() {
    for (e, code) in OWN {
        assert_eq!(e.code(), code);
        assert_eq!(MdbxError::from_code(code), Some(e));
    }
    assert_eq!(MdbxError::KeyExist.code(), -30799);
    assert_eq!(MdbxError::MvccRetarded.code(), -30410);
}

#[test]
fn numbers_of_the_system() {
    assert_eq!(MdbxError::InvalidArgument.code(), libc::EINVAL);
    assert_eq!(MdbxError::AccessDenied.code(), libc::EACCES);
    assert_eq!(MdbxError::NoData.code(), libc::ENODATA);
    assert_eq!(MdbxError::NotPermitted.code(), libc::EPERM);
    assert_eq!(MdbxError::NotSupported.code(), libc::ENOTSUP);
    for e in [
        MdbxError::InvalidArgument,
        MdbxError::AccessDenied,
        MdbxError::NoData,
        MdbxError::NotPermitted,
        MdbxError::NotSupported,
    ] {
        assert_ne!(e.code(), MDBX_SUCCESS);
    }
}

#[test]
fn numbers_that_are_no_failure_of_the_engine() {
    for code in [0, -1, 1, 22, -30800, -30789, -30777, -30422, -30409, i32::MIN, i32::MAX] {
        assert_eq!(MdbxError::from_code(code), None);
    }
}

#[test]
fn classes_of_failures() {
    let expected = [
        (MdbxError::NotFound, ErrorClass::NotFound),
        (MdbxError::PageNotFound, ErrorClass::NotFound),
        (MdbxError::NoData, ErrorClass::NotFound),
        (MdbxError::KeyExist, ErrorClass::Conflict),
        (MdbxError::TxnOverlapping, ErrorClass::Conflict),
        (MdbxError::MapFull, ErrorClass::ResourceExhaustion),
        (MdbxError::DbsFull, ErrorClass::ResourceExhaustion),
        (MdbxError::ReadersFull, ErrorClass::ResourceExhaustion),
        (MdbxError::TxnFull, ErrorClass::ResourceExhaustion),
        (MdbxError::CursorFull, ErrorClass::ResourceExhaustion),
        (MdbxError::PageFull, ErrorClass::ResourceExhaustion),
        (MdbxError::Corrupted, ErrorClass::Integrity),
        (MdbxError::Panic, ErrorClass::Integrity),
        (MdbxError::WannaRecovery, ErrorClass::Integrity),
        (MdbxError::BadSign, ErrorClass::Integrity),
        (MdbxError::InvalidArgument, ErrorClass::Usage),
        (MdbxError::BadTxn, ErrorClass::Usage),
        (MdbxError::BadDbi, ErrorClass::Usage),
        (MdbxError::Incompatible, ErrorClass::Usage),
        (MdbxError::ThreadMismatch, ErrorClass::Usage),
        (MdbxError::BadValSize, ErrorClass::Usage),
        (MdbxError::Busy, ErrorClass::Concurrency),
        (MdbxError::BacklogDepleted, ErrorClass::Concurrency),
        (MdbxError::Ousted, ErrorClass::Concurrency),
    ];
    for (e, class) in expected {
        assert_eq!(e.class(), class);
    }
}

#[test]
fn what_a_caller_can_do() {
    assert!(MdbxError::NotFound.is_ordinary());
    assert!(MdbxError::KeyExist.is_ordinary());
    assert!(!MdbxError::MapFull.is_ordinary());
    assert!(!MdbxError::TxnOverlapping.is_ordinary());
    assert!(MdbxError::Corrupted.is_fatal());
    assert!(MdbxError::Panic.is_fatal());
    assert!(!MdbxError::NotFound.is_fatal());
    assert!(!MdbxError::Busy.is_fatal());
    assert!(MdbxError::Busy.is_retryable());
    assert!(MdbxError::Ousted.is_retryable());
    assert!(!MdbxError::KeyExist.is_retryable());
    assert!(!MdbxError::BadTxn.is_retryable());
}
