use mdbx_rs::{
    MDBX_ALLDUPS, MDBX_APPEND, MDBX_APPENDDUP, MDBX_BACKLOG_DEPLETED, MDBX_BAD_DBI,
    MDBX_BAD_RSLOT, MDBX_BAD_TXN, MDBX_BAD_VALSIZE, MDBX_BUSY, MDBX_CORRUPTED, MDBX_CP_COMPACT,
    MDBX_CP_DEFAULTS, MDBX_CP_DISPOSE_TXN, MDBX_CP_DONT_FLUSH, MDBX_CP_FORCE_DYNAMIC_SIZE,
    MDBX_CP_OVERWRITE, MDBX_CP_RENEW_TXN, MDBX_CP_THROTTLE_MVCC, MDBX_CREATE, MDBX_CURRENT,
    MDBX_CURSOR_FULL, MDBX_DANGLING_DBI, MDBX_DBG_ASSERT, MDBX_DBG_AUDIT, MDBX_DBG_DONTCHANGE,
    MDBX_DBG_DONT_UPGRADE, MDBX_DBG_DUMP, MDBX_DBG_JITTER, MDBX_DBG_LEGACY_MULTIOPEN,
    MDBX_DBG_LEGACY_OVERLAP, MDBX_DBG_NONE, MDBX_DBI_CREAT, MDBX_DBI_DIRTY, MDBX_DBI_FRESH,
    MDBX_DBI_STALE, MDBX_DBS_FULL, MDBX_DB_DEFAULTS, MDBX_DUPFIXED, MDBX_DUPLICATED_CLK,
    MDBX_DUPSORT, MDBX_EBADSIGN, MDBX_EKEYMISMATCH, MDBX_EMULTIVAL, MDBX_ENV_DEFAULTS,
    MDBX_ENV_ENSURE_UNUSED, MDBX_ENV_JUST_DELETE, MDBX_ENV_WAIT_FOR_UNUSED, MDBX_EXCLUSIVE,
    MDBX_FIRST_ADDED_ERRCODE, MDBX_FIRST_LMDB_ERRCODE, MDBX_INCOMPATIBLE, MDBX_INTEGERDUP,
    MDBX_INTEGERKEY, MDBX_INVALID, MDBX_KEYEXIST, MDBX_LAST_ADDED_ERRCODE,
    MDBX_LAST_LMDB_ERRCODE, MDBX_LIFORECLAIM, MDBX_LOG_DEBUG, MDBX_LOG_DONTCHANGE,
    MDBX_LOG_ERROR, MDBX_LOG_EXTRA, MDBX_LOG_FATAL, MDBX_LOG_NOTICE, MDBX_LOG_TRACE,
    MDBX_LOG_VERBOSE, MDBX_LOG_WARN, MDBX_MAPASYNC, MDBX_MAP_FULL, MDBX_MAXDATASIZE,
    MDBX_MAX_DBI, MDBX_MAX_PAGESIZE, MDBX_MIN_PAGESIZE, MDBX_MULTIPLE, MDBX_MVCC_RETARDED,
    MDBX_NODUPDATA, MDBX_NOMEMINIT, MDBX_NOMETASYNC, MDBX_NOOVERWRITE, MDBX_NORDAHEAD,
    MDBX_NOSTICKYTHREADS, MDBX_NOSUBDIR, MDBX_NOTFOUND, MDBX_NOTLS, MDBX_OUSTED, MDBX_PAGE_FULL,
    MDBX_PAGE_NOTFOUND, MDBX_PANIC, MDBX_PROBLEM, MDBX_RDONLY, MDBX_READERS_FULL, MDBX_RESERVE,
    MDBX_RESULT_FALSE, MDBX_RESULT_TRUE, MDBX_REVERSEDUP, MDBX_REVERSEKEY, MDBX_SAFE_NOSYNC,
    MDBX_SUCCESS, MDBX_SYNC_DURABLE, MDBX_THREAD_MISMATCH, MDBX_TOO_LARGE, MDBX_TXN_BLOCKED,
    MDBX_TXN_DIRTY, MDBX_TXN_ERROR, MDBX_TXN_FINISHED, MDBX_TXN_FULL, MDBX_TXN_HAS_CHILD,
    MDBX_TXN_INVALID, MDBX_TXN_OVERLAPPING, MDBX_TXN_PARKED, MDBX_TXN_RDONLY,
    MDBX_TXN_READWRITE, MDBX_TXN_SPILLS, MDBX_TXN_TRY, MDBX_UNABLE_EXTEND_MAPSIZE, MDBX_UPSERT,
    MDBX_UTTERLY_NOSYNC, MDBX_VERSION_MISMATCH, MDBX_WANNA_RECOVERY, MDBX_WARMUP_DEFAULT,
    MDBX_WARMUP_FORCE, MDBX_WARMUP_LOCK, MDBX_WARMUP_OOMSAFE, MDBX_WARMUP_RELEASE,
    MDBX_WARMUP_TOUCHLIMIT, MDBX_WRITEMAP, MDBX_cursor_op, MDBX_opt_gc_time_limit,
    MDBX_opt_max_db, MDBX_opt_max_readers, MDBX_opt_subpage_reserve_limit, MDBX_opt_sync_bytes,
};

#[test]
fn test_error_code_values() {
    assert_eq!(MDBX_SUCCESS, 0);
    assert_eq!(MDBX_RESULT_FALSE, 0);
    assert_eq!(MDBX_RESULT_TRUE, -1);
    assert_eq!(MDBX_KEYEXIST, -30799);
    assert_eq!(MDBX_NOTFOUND, -30798);
    assert_eq!(MDBX_PAGE_NOTFOUND, -30797);
    assert_eq!(MDBX_CORRUPTED, -30796);
    assert_eq!(MDBX_PANIC, -30795);
    assert_eq!(MDBX_VERSION_MISMATCH, -30794);
    assert_eq!(MDBX_INVALID, -30793);
    assert_eq!(MDBX_MAP_FULL, -30792);
    assert_eq!(MDBX_DBS_FULL, -30791);
    assert_eq!(MDBX_READERS_FULL, -30790);
    assert_eq!(MDBX_TXN_FULL, -30788);
    assert_eq!(MDBX_CURSOR_FULL, -30787);
    assert_eq!(MDBX_PAGE_FULL, -30786);
    assert_eq!(MDBX_UNABLE_EXTEND_MAPSIZE, -30785);
    assert_eq!(MDBX_INCOMPATIBLE, -30784);
    assert_eq!(MDBX_BAD_RSLOT, -30783);
    assert_eq!(MDBX_BAD_TXN, -30782);
    assert_eq!(MDBX_BAD_VALSIZE, -30781);
    assert_eq!(MDBX_BAD_DBI, -30780);
    assert_eq!(MDBX_PROBLEM, -30779);
}

#[test]
fn test_added_error_codes() {
    assert_eq!(MDBX_BUSY, -30778);
    assert_eq!(MDBX_EMULTIVAL, -30421);
    assert_eq!(MDBX_EBADSIGN, -30420);
    assert_eq!(MDBX_WANNA_RECOVERY, -30419);
    assert_eq!(MDBX_EKEYMISMATCH, -30418);
    assert_eq!(MDBX_TOO_LARGE, -30417);
    assert_eq!(MDBX_THREAD_MISMATCH, -30416);
    assert_eq!(MDBX_TXN_OVERLAPPING, -30415);
    assert_eq!(MDBX_BACKLOG_DEPLETED, -30414);
    assert_eq!(MDBX_DUPLICATED_CLK, -30413);
    assert_eq!(MDBX_DANGLING_DBI, -30412);
    assert_eq!(MDBX_OUSTED, -30411);
    assert_eq!(MDBX_MVCC_RETARDED, -30410);
}

#[test]
fn test_errcode_bounds() {
    assert_eq!(MDBX_FIRST_LMDB_ERRCODE, MDBX_KEYEXIST);
    assert_eq!(MDBX_LAST_LMDB_ERRCODE, MDBX_PROBLEM);
    assert_eq!(MDBX_FIRST_ADDED_ERRCODE, MDBX_BUSY);
    assert_eq!(MDBX_LAST_ADDED_ERRCODE, MDBX_MVCC_RETARDED);
}

#[test]
fn test_env_flags() {
    assert_eq!(MDBX_ENV_DEFAULTS, 0);
    assert_eq!(MDBX_NOSUBDIR, 0x4000);
    assert_eq!(MDBX_RDONLY, 0x20000);
    assert_eq!(MDBX_EXCLUSIVE, 0x400000);
    assert_eq!(MDBX_WRITEMAP, 0x80000);
    assert_eq!(MDBX_NOSTICKYTHREADS, 0x200000);
    assert_eq!(MDBX_NOTLS, MDBX_NOSTICKYTHREADS);
    assert_eq!(MDBX_NORDAHEAD, 0x800000);
    assert_eq!(MDBX_NOMEMINIT, 0x1000000);
    assert_eq!(MDBX_LIFORECLAIM, 0x4000000);
}

#[test]
fn test_sync_flags() {
    assert_eq!(MDBX_SYNC_DURABLE, 0);
    assert_eq!(MDBX_NOMETASYNC, 0x40000);
    assert_eq!(MDBX_SAFE_NOSYNC, 0x10000);
    assert_eq!(MDBX_MAPASYNC, MDBX_SAFE_NOSYNC);
    assert_eq!(MDBX_UTTERLY_NOSYNC, MDBX_SAFE_NOSYNC | MDBX_NOMETASYNC);
}

#[test]
fn test_txn_flags() {
    assert_eq!(MDBX_TXN_READWRITE, 0);
    assert_eq!(MDBX_TXN_RDONLY, MDBX_RDONLY);
    assert_eq!(MDBX_TXN_TRY, 0x10000000);
    assert_eq!(MDBX_TXN_INVALID, i32::MIN);
    assert_eq!(MDBX_TXN_FINISHED, 0x01);
    assert_eq!(MDBX_TXN_ERROR, 0x02);
    assert_eq!(MDBX_TXN_DIRTY, 0x04);
    assert_eq!(MDBX_TXN_SPILLS, 0x08);
    assert_eq!(MDBX_TXN_HAS_CHILD, 0x10);
    assert_eq!(MDBX_TXN_PARKED, 0x20);
    assert_eq!(
        MDBX_TXN_BLOCKED,
        MDBX_TXN_FINISHED | MDBX_TXN_ERROR | MDBX_TXN_HAS_CHILD | MDBX_TXN_PARKED
    );
}

#[test]
fn test_db_flags() {
    assert_eq!(MDBX_DB_DEFAULTS, 0);
    assert_eq!(MDBX_REVERSEKEY, 0x02);
    assert_eq!(MDBX_DUPSORT, 0x04);
    assert_eq!(MDBX_INTEGERKEY, 0x08);
    assert_eq!(MDBX_DUPFIXED, 0x10);
    assert_eq!(MDBX_INTEGERDUP, 0x20);
    assert_eq!(MDBX_REVERSEDUP, 0x40);
    assert_eq!(MDBX_CREATE, 0x40000);
}

#[test]
fn test_put_flags() {
    assert_eq!(MDBX_UPSERT, 0);
    assert_eq!(MDBX_NOOVERWRITE, 0x10);
    assert_eq!(MDBX_NODUPDATA, 0x20);
    assert_eq!(MDBX_CURRENT, 0x40);
    assert_eq!(MDBX_ALLDUPS, 0x80);
    assert_eq!(MDBX_RESERVE, 0x10000);
    assert_eq!(MDBX_APPEND, 0x20000);
    assert_eq!(MDBX_APPENDDUP, 0x40000);
    assert_eq!(MDBX_MULTIPLE, 0x80000);
}

#[test]
fn test_copy_flags() {
    assert_eq!(MDBX_CP_DEFAULTS, 0);
    assert_eq!(MDBX_CP_COMPACT, 1);
    assert_eq!(MDBX_CP_FORCE_DYNAMIC_SIZE, 2);
    assert_eq!(MDBX_CP_DONT_FLUSH, 4);
    assert_eq!(MDBX_CP_THROTTLE_MVCC, 8);
    assert_eq!(MDBX_CP_DISPOSE_TXN, 16);
    assert_eq!(MDBX_CP_RENEW_TXN, 32);
    assert_eq!(MDBX_CP_OVERWRITE, 64);
}

#[test]
fn test_cursor_op_values() {
    assert_eq!(MDBX_cursor_op::MDBX_FIRST as i32, 0);
    assert_eq!(MDBX_cursor_op::MDBX_LAST as i32, 6);
    assert_eq!(MDBX_cursor_op::MDBX_NEXT as i32, 8);
    assert_eq!(MDBX_cursor_op::MDBX_PREV as i32, 12);
    assert_eq!(MDBX_cursor_op::MDBX_SET as i32, 15);
    assert_eq!(MDBX_cursor_op::MDBX_SET_RANGE as i32, 17);
    assert_eq!(MDBX_cursor_op::MDBX_SEEK_AND_GET_MULTIPLE as i32, 36);
}

#[test]
fn test_log_levels() {
    assert_eq!(MDBX_LOG_FATAL, 0);
    assert_eq!(MDBX_LOG_ERROR, 1);
    assert_eq!(MDBX_LOG_WARN, 2);
    assert_eq!(MDBX_LOG_NOTICE, 3);
    assert_eq!(MDBX_LOG_VERBOSE, 4);
    assert_eq!(MDBX_LOG_DEBUG, 5);
    assert_eq!(MDBX_LOG_TRACE, 6);
    assert_eq!(MDBX_LOG_EXTRA, 7);
    assert_eq!(MDBX_LOG_DONTCHANGE, -1);
}

#[test]
fn test_debug_flags() {
    assert_eq!(MDBX_DBG_NONE, 0);
    assert_eq!(MDBX_DBG_ASSERT, 1);
    assert_eq!(MDBX_DBG_AUDIT, 2);
    assert_eq!(MDBX_DBG_JITTER, 4);
    assert_eq!(MDBX_DBG_DUMP, 8);
    assert_eq!(MDBX_DBG_LEGACY_MULTIOPEN, 16);
    assert_eq!(MDBX_DBG_LEGACY_OVERLAP, 32);
    assert_eq!(MDBX_DBG_DONT_UPGRADE, 64);
    assert_eq!(MDBX_DBG_DONTCHANGE, -1);
}

#[test]
fn test_dbi_state_flags() {
    assert_eq!(MDBX_DBI_DIRTY, 0x01);
    assert_eq!(MDBX_DBI_STALE, 0x02);
    assert_eq!(MDBX_DBI_FRESH, 0x04);
    assert_eq!(MDBX_DBI_CREAT, 0x08);
}

#[test]
fn test_limits() {
    assert_eq!(MDBX_MAX_DBI, 32765);
    assert_eq!(MDBX_MAXDATASIZE, 0x7fff0000);
    assert_eq!(MDBX_MIN_PAGESIZE, 256);
    assert_eq!(MDBX_MAX_PAGESIZE, 65536);
}

#[test]
fn test_env_delete_flags() {
    assert_eq!(MDBX_ENV_JUST_DELETE, 0);
    assert_eq!(MDBX_ENV_ENSURE_UNUSED, 1);
    assert_eq!(MDBX_ENV_WAIT_FOR_UNUSED, 2);
}

#[test]
fn test_warmup_flags() {
    assert_eq!(MDBX_WARMUP_DEFAULT, 0);
    assert_eq!(MDBX_WARMUP_FORCE, 1);
    assert_eq!(MDBX_WARMUP_OOMSAFE, 2);
    assert_eq!(MDBX_WARMUP_LOCK, 4);
    assert_eq!(MDBX_WARMUP_TOUCHLIMIT, 8);
    assert_eq!(MDBX_WARMUP_RELEASE, 16);
}

#[test]
fn test_option_constants() {
    assert_eq!(MDBX_opt_max_db, 0);
    assert_eq!(MDBX_opt_max_readers, 1);
    assert_eq!(MDBX_opt_sync_bytes, 2);
    assert_eq!(MDBX_opt_gc_time_limit, 15);
    assert_eq!(MDBX_opt_subpage_reserve_limit, 20);
}

#[test]
fn test_cursor_op_debug_clone() {
    let op = MDBX_cursor_op::MDBX_FIRST;
    let cloned = op;
    assert_eq!(op, cloned);
    assert!(format!("{:?}", op).contains("FIRST"));
}
