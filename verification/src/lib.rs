//! An embedded, transactional key-value engine with MVCC snapshots,
//! nested write transactions, sorted duplicates and cursors.
//!
//! The pairs of a sub-database stand in a B+tree of pages. A write
//! transaction never changes a page that a snapshot may see: it writes the
//! changed page under a page number of its own and gives the old page up,
//! and the commit puts the pages that were given up on the free list, from
//! where they are taken again once no reader can see them.
//!
//! Every function of this crate is verified with Verus against the
//! contract written on it.
#![allow(non_camel_case_types)]
#![allow(non_snake_case)]
#![allow(non_upper_case_globals)]

/// The tree of a sub-database as a whole: putting, changing and taking out
/// entries by their index.
pub mod btree;
/// The numbers of the flags, the errors and the cursor operations.
pub mod constants;
/// Counting the pages of trees, of versions, of the free list and of the
/// file.
pub mod count;
/// The environment, its transactions, sub-databases and cursors.
pub mod env;
/// The errors, their numbers and their classes.
pub mod error;
/// Flag words, parsed into named fields.
pub mod flags;
/// Putting an entry into a tree of pages, and changing one.
pub mod grow;
/// What holds of the library, proved from its contracts.
pub mod laws;
/// The entries of a leaf page, and the plans of a put and of a delete.
pub mod leaf;
/// The mathematical model of a sub-database and of a write transaction.
pub mod model;
/// The orders of keys and values.
pub mod order;
/// The pages of a write transaction.
pub mod pager;
/// The entries of a tree as a transaction reads them, and the planning of
/// changes.
pub mod rows;
/// What the cursor operations find.
pub mod seek;
/// Taking an entry out of a tree of pages.
pub mod shrink;
/// The page numbers of the file and the free list.
pub mod space;
/// The mathematical model of the environment.
pub mod state;
/// Versions of the database, and the invariants that hold between what is
/// committed, what readers pin and what a write transaction has in hand.
pub mod store;
/// Pages, and the trees that they make.
pub mod tree;
/// Byte strings as callers hand them over.
pub mod val;
/// The changes that a write transaction makes to its version.
pub mod write;

pub use env::compare::{mdbx_cmp, mdbx_dcmp};
pub use env::cursor::{
    mdbx_cursor_close, mdbx_cursor_count, mdbx_cursor_del, mdbx_cursor_get, mdbx_cursor_open,
    mdbx_cursor_put, Found, MDBX_cursor,
};
pub use env::data::{mdbx_del, mdbx_get, mdbx_put, mdbx_put_multiple};
pub use env::dbi::{
    mdbx_dbi_close, mdbx_dbi_flags, mdbx_dbi_open, mdbx_dbi_stat, mdbx_drop, mdbx_env_info,
    mdbx_env_stat_ex,
};
pub use env::txn::{
    mdbx_txn_abort, mdbx_txn_begin, mdbx_txn_commit, mdbx_txn_flags, mdbx_txn_id, mdbx_txn_renew,
    mdbx_txn_reset, TxnBegin,
};
pub use env::{
    mdbx_env_close, mdbx_env_close_ex, mdbx_env_close_forced, mdbx_env_create,
    mdbx_env_get_flags, mdbx_env_get_maxdbs, mdbx_env_get_maxreaders, mdbx_env_open,
    mdbx_env_set_flags, mdbx_env_set_geometry, mdbx_env_set_maxdbs, mdbx_env_set_maxreaders,
    mdbx_env_sync_ex, MDBX_env, MDBX_txn,
};
pub use error::{ErrorClass, MdbxError};
pub use state::{EnvInfo, Geometry, MDBX_stat, DEFAULT_MAX_READERS, FREE_DBI, MAIN_DBI};
pub use val::{bytes_to_val, val_to_bytes, MDBX_val};
pub use constants::{
    MDBX_SUCCESS, MDBX_RESULT_FALSE, MDBX_RESULT_TRUE, MDBX_KEYEXIST, MDBX_FIRST_LMDB_ERRCODE,
    MDBX_NOTFOUND, MDBX_PAGE_NOTFOUND, MDBX_CORRUPTED, MDBX_PANIC, MDBX_VERSION_MISMATCH,
    MDBX_INVALID, MDBX_MAP_FULL, MDBX_DBS_FULL, MDBX_READERS_FULL, MDBX_TXN_FULL,
    MDBX_CURSOR_FULL, MDBX_PAGE_FULL, MDBX_UNABLE_EXTEND_MAPSIZE, MDBX_INCOMPATIBLE,
    MDBX_BAD_RSLOT, MDBX_BAD_TXN, MDBX_BAD_VALSIZE, MDBX_BAD_DBI, MDBX_PROBLEM,
    MDBX_LAST_LMDB_ERRCODE, MDBX_BUSY, MDBX_FIRST_ADDED_ERRCODE, MDBX_EMULTIVAL, MDBX_EBADSIGN,
    MDBX_WANNA_RECOVERY, MDBX_EKEYMISMATCH, MDBX_TOO_LARGE, MDBX_THREAD_MISMATCH,
    MDBX_TXN_OVERLAPPING, MDBX_BACKLOG_DEPLETED, MDBX_DUPLICATED_CLK, MDBX_DANGLING_DBI,
    MDBX_OUSTED, MDBX_MVCC_RETARDED, MDBX_LAST_ADDED_ERRCODE, MDBX_ENV_DEFAULTS,
    MDBX_VALIDATION, MDBX_NOSUBDIR, MDBX_RDONLY, MDBX_EXCLUSIVE, MDBX_ACCEDE, MDBX_WRITEMAP,
    MDBX_NOSTICKYTHREADS, MDBX_NOTLS, MDBX_NORDAHEAD, MDBX_NOMEMINIT, MDBX_COALESCE,
    MDBX_LIFORECLAIM, MDBX_PAGEPERTURB, MDBX_SYNC_DURABLE, MDBX_NOMETASYNC, MDBX_SAFE_NOSYNC,
    MDBX_MAPASYNC, MDBX_UTTERLY_NOSYNC, MDBX_TXN_READWRITE, MDBX_TXN_RDONLY,
    MDBX_TXN_RDONLY_PREPARE, MDBX_TXN_TRY, MDBX_TXN_NOMETASYNC, MDBX_TXN_NOSYNC,
    MDBX_TXN_INVALID, MDBX_TXN_FINISHED, MDBX_TXN_ERROR, MDBX_TXN_DIRTY, MDBX_TXN_SPILLS,
    MDBX_TXN_HAS_CHILD, MDBX_TXN_PARKED, MDBX_TXN_AUTOUNPARK, MDBX_TXN_OUSTED, MDBX_TXN_BLOCKED,
    MDBX_DB_DEFAULTS, MDBX_REVERSEKEY, MDBX_DUPSORT, MDBX_INTEGERKEY, MDBX_DUPFIXED,
    MDBX_INTEGERDUP, MDBX_REVERSEDUP, MDBX_CREATE, MDBX_DB_ACCEDE, MDBX_UPSERT,
    MDBX_NOOVERWRITE, MDBX_NODUPDATA, MDBX_CURRENT, MDBX_ALLDUPS, MDBX_RESERVE, MDBX_APPEND,
    MDBX_APPENDDUP, MDBX_MULTIPLE, MDBX_CP_DEFAULTS, MDBX_CP_COMPACT,
    MDBX_CP_FORCE_DYNAMIC_SIZE, MDBX_CP_DONT_FLUSH, MDBX_CP_THROTTLE_MVCC, MDBX_CP_DISPOSE_TXN,
    MDBX_CP_RENEW_TXN, MDBX_CP_OVERWRITE, MDBX_LOG_FATAL, MDBX_LOG_ERROR, MDBX_LOG_WARN,
    MDBX_LOG_NOTICE, MDBX_LOG_VERBOSE, MDBX_LOG_DEBUG, MDBX_LOG_TRACE, MDBX_LOG_EXTRA,
    MDBX_LOG_DONTCHANGE, MDBX_DBG_NONE, MDBX_DBG_ASSERT, MDBX_DBG_AUDIT, MDBX_DBG_JITTER,
    MDBX_DBG_DUMP, MDBX_DBG_LEGACY_MULTIOPEN, MDBX_DBG_LEGACY_OVERLAP, MDBX_DBG_DONT_UPGRADE,
    MDBX_DBG_DONTCHANGE, MDBX_DBI_DIRTY, MDBX_DBI_STALE, MDBX_DBI_FRESH, MDBX_DBI_CREAT,
    MDBX_MAX_DBI, MDBX_MAXDATASIZE, MDBX_MIN_PAGESIZE, MDBX_MAX_PAGESIZE, MDBX_ENV_JUST_DELETE,
    MDBX_ENV_ENSURE_UNUSED, MDBX_ENV_WAIT_FOR_UNUSED, MDBX_WARMUP_DEFAULT, MDBX_WARMUP_FORCE,
    MDBX_WARMUP_OOMSAFE, MDBX_WARMUP_LOCK, MDBX_WARMUP_TOUCHLIMIT, MDBX_WARMUP_RELEASE,
    MDBX_opt_max_db, MDBX_opt_max_readers, MDBX_opt_sync_bytes, MDBX_opt_sync_period,
    MDBX_opt_rp_augment_limit, MDBX_opt_loose_limit, MDBX_opt_dp_reserve_limit,
    MDBX_opt_txn_dp_limit, MDBX_opt_txn_dp_initial, MDBX_opt_spill_max_denominator,
    MDBX_opt_spill_min_denominator, MDBX_opt_spill_parent4child_denominator,
    MDBX_opt_merge_threshold_16dot16_percent, MDBX_opt_writethrough_threshold,
    MDBX_opt_prefault_write_enable, MDBX_opt_gc_time_limit,
    MDBX_opt_prefer_waf_insteadof_balance, MDBX_opt_subpage_limit,
    MDBX_opt_subpage_room_threshold, MDBX_opt_subpage_reserve_prereq,
    MDBX_opt_subpage_reserve_limit, MDBX_cursor_op,
};
