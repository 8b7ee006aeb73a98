//! Result codes, option flags and cursor operations of the engine.
//!
//! The numeric values are the ones that existing database files and callers
//! written against the C interface expect.
use libc::c_int;
use vstd::prelude::*;

verus! {

// Result codes.
pub const MDBX_SUCCESS: c_int = 0;
pub const MDBX_RESULT_FALSE: c_int = MDBX_SUCCESS;
pub const MDBX_RESULT_TRUE: c_int = -1;
pub const MDBX_KEYEXIST: c_int = -30799;
pub const MDBX_FIRST_LMDB_ERRCODE: c_int = MDBX_KEYEXIST;
pub const MDBX_NOTFOUND: c_int = -30798;
pub const MDBX_PAGE_NOTFOUND: c_int = -30797;
pub const MDBX_CORRUPTED: c_int = -30796;
pub const MDBX_PANIC: c_int = -30795;
pub const MDBX_VERSION_MISMATCH: c_int = -30794;
pub const MDBX_INVALID: c_int = -30793;
pub const MDBX_MAP_FULL: c_int = -30792;
pub const MDBX_DBS_FULL: c_int = -30791;
pub const MDBX_READERS_FULL: c_int = -30790;
pub const MDBX_TXN_FULL: c_int = -30788;
pub const MDBX_CURSOR_FULL: c_int = -30787;
pub const MDBX_PAGE_FULL: c_int = -30786;
pub const MDBX_UNABLE_EXTEND_MAPSIZE: c_int = -30785;
pub const MDBX_INCOMPATIBLE: c_int = -30784;
pub const MDBX_BAD_RSLOT: c_int = -30783;
pub const MDBX_BAD_TXN: c_int = -30782;
pub const MDBX_BAD_VALSIZE: c_int = -30781;
pub const MDBX_BAD_DBI: c_int = -30780;
pub const MDBX_PROBLEM: c_int = -30779;
pub const MDBX_LAST_LMDB_ERRCODE: c_int = MDBX_PROBLEM;
pub const MDBX_BUSY: c_int = -30778;
pub const MDBX_FIRST_ADDED_ERRCODE: c_int = MDBX_BUSY;
pub const MDBX_EMULTIVAL: c_int = -30421;
pub const MDBX_EBADSIGN: c_int = -30420;
pub const MDBX_WANNA_RECOVERY: c_int = -30419;
pub const MDBX_EKEYMISMATCH: c_int = -30418;
pub const MDBX_TOO_LARGE: c_int = -30417;
pub const MDBX_THREAD_MISMATCH: c_int = -30416;
pub const MDBX_TXN_OVERLAPPING: c_int = -30415;
pub const MDBX_BACKLOG_DEPLETED: c_int = -30414;
pub const MDBX_DUPLICATED_CLK: c_int = -30413;
pub const MDBX_DANGLING_DBI: c_int = -30412;
pub const MDBX_OUSTED: c_int = -30411;
pub const MDBX_MVCC_RETARDED: c_int = -30410;
pub const MDBX_LAST_ADDED_ERRCODE: c_int = MDBX_MVCC_RETARDED;

// Environment flags.
pub const MDBX_ENV_DEFAULTS: c_int = 0;
pub const MDBX_VALIDATION: c_int = 0x00002000;
pub const MDBX_NOSUBDIR: c_int = 0x4000;
pub const MDBX_RDONLY: c_int = 0x20000;
pub const MDBX_EXCLUSIVE: c_int = 0x400000;
pub const MDBX_ACCEDE: c_int = 0x40000000;
pub const MDBX_WRITEMAP: c_int = 0x80000;
pub const MDBX_NOSTICKYTHREADS: c_int = 0x200000;
pub const MDBX_NOTLS: c_int = MDBX_NOSTICKYTHREADS;
pub const MDBX_NORDAHEAD: c_int = 0x800000;
pub const MDBX_NOMEMINIT: c_int = 0x1000000;
pub const MDBX_COALESCE: c_int = 0x2000000;
pub const MDBX_LIFORECLAIM: c_int = 0x4000000;
pub const MDBX_PAGEPERTURB: c_int = 0x8000000;

// Durability modes.
pub const MDBX_SYNC_DURABLE: c_int = 0;
pub const MDBX_NOMETASYNC: c_int = 0x40000;
pub const MDBX_SAFE_NOSYNC: c_int = 0x10000;
pub const MDBX_MAPASYNC: c_int = MDBX_SAFE_NOSYNC;
pub const MDBX_UTTERLY_NOSYNC: c_int = MDBX_SAFE_NOSYNC | MDBX_NOMETASYNC;

// Flags given when a transaction begins.
pub const MDBX_TXN_READWRITE: c_int = 0;
pub const MDBX_TXN_RDONLY: c_int = MDBX_RDONLY;
pub const MDBX_TXN_RDONLY_PREPARE: c_int = MDBX_RDONLY | MDBX_NOMEMINIT;
pub const MDBX_TXN_TRY: c_int = 0x10000000;
pub const MDBX_TXN_NOMETASYNC: c_int = MDBX_NOMETASYNC;
pub const MDBX_TXN_NOSYNC: c_int = MDBX_SAFE_NOSYNC;

// State bits of a transaction.
pub const MDBX_TXN_INVALID: c_int = -0x8000_0000;
pub const MDBX_TXN_FINISHED: c_int = 0x01;
pub const MDBX_TXN_ERROR: c_int = 0x02;
pub const MDBX_TXN_DIRTY: c_int = 0x04;
pub const MDBX_TXN_SPILLS: c_int = 0x08;
pub const MDBX_TXN_HAS_CHILD: c_int = 0x10;
pub const MDBX_TXN_PARKED: c_int = 0x20;
pub const MDBX_TXN_AUTOUNPARK: c_int = 0x40;
pub const MDBX_TXN_OUSTED: c_int = 0x80;
pub const MDBX_TXN_BLOCKED: c_int = MDBX_TXN_FINISHED | MDBX_TXN_ERROR | MDBX_TXN_HAS_CHILD | MDBX_TXN_PARKED;

// Flags of a sub-database.
pub const MDBX_DB_DEFAULTS: c_int = 0;
pub const MDBX_REVERSEKEY: c_int = 0x02;
pub const MDBX_DUPSORT: c_int = 0x04;
pub const MDBX_INTEGERKEY: c_int = 0x08;
pub const MDBX_DUPFIXED: c_int = 0x10;
pub const MDBX_INTEGERDUP: c_int = 0x20;
pub const MDBX_REVERSEDUP: c_int = 0x40;
pub const MDBX_CREATE: c_int = 0x40000;
pub const MDBX_DB_ACCEDE: c_int = MDBX_ACCEDE;

// Flags of a put.
pub const MDBX_UPSERT: c_int = 0;
pub const MDBX_NOOVERWRITE: c_int = 0x10;
pub const MDBX_NODUPDATA: c_int = 0x20;
pub const MDBX_CURRENT: c_int = 0x40;
pub const MDBX_ALLDUPS: c_int = 0x80;
pub const MDBX_RESERVE: c_int = 0x10000;
pub const MDBX_APPEND: c_int = 0x20000;
pub const MDBX_APPENDDUP: c_int = 0x40000;
pub const MDBX_MULTIPLE: c_int = 0x80000;

// Flags of an environment copy.
pub const MDBX_CP_DEFAULTS: c_int = 0;
pub const MDBX_CP_COMPACT: c_int = 1;
pub const MDBX_CP_FORCE_DYNAMIC_SIZE: c_int = 2;
pub const MDBX_CP_DONT_FLUSH: c_int = 4;
pub const MDBX_CP_THROTTLE_MVCC: c_int = 8;
pub const MDBX_CP_DISPOSE_TXN: c_int = 16;
pub const MDBX_CP_RENEW_TXN: c_int = 32;
pub const MDBX_CP_OVERWRITE: c_int = 64;

// Log levels.
pub const MDBX_LOG_FATAL: c_int = 0;
pub const MDBX_LOG_ERROR: c_int = 1;
pub const MDBX_LOG_WARN: c_int = 2;
pub const MDBX_LOG_NOTICE: c_int = 3;
pub const MDBX_LOG_VERBOSE: c_int = 4;
pub const MDBX_LOG_DEBUG: c_int = 5;
pub const MDBX_LOG_TRACE: c_int = 6;
pub const MDBX_LOG_EXTRA: c_int = 7;
pub const MDBX_LOG_DONTCHANGE: c_int = -1;

// Debug flags.
pub const MDBX_DBG_NONE: c_int = 0;
pub const MDBX_DBG_ASSERT: c_int = 1;
pub const MDBX_DBG_AUDIT: c_int = 2;
pub const MDBX_DBG_JITTER: c_int = 4;
pub const MDBX_DBG_DUMP: c_int = 8;
pub const MDBX_DBG_LEGACY_MULTIOPEN: c_int = 16;
pub const MDBX_DBG_LEGACY_OVERLAP: c_int = 32;
pub const MDBX_DBG_DONT_UPGRADE: c_int = 64;
pub const MDBX_DBG_DONTCHANGE: c_int = -1;

// State bits of a sub-database handle.
pub const MDBX_DBI_DIRTY: c_int = 0x01;
pub const MDBX_DBI_STALE: c_int = 0x02;
pub const MDBX_DBI_FRESH: c_int = 0x04;
pub const MDBX_DBI_CREAT: c_int = 0x08;

// Limits.
pub const MDBX_MAX_DBI: u32 = 32765;
pub const MDBX_MAXDATASIZE: u32 = 0x7fff0000;
pub const MDBX_MIN_PAGESIZE: u32 = 256;
pub const MDBX_MAX_PAGESIZE: u32 = 65536;

// Modes of deleting an environment.
pub const MDBX_ENV_JUST_DELETE: c_int = 0;
pub const MDBX_ENV_ENSURE_UNUSED: c_int = 1;
pub const MDBX_ENV_WAIT_FOR_UNUSED: c_int = 2;

// Warm-up flags.
pub const MDBX_WARMUP_DEFAULT: c_int = 0;
pub const MDBX_WARMUP_FORCE: c_int = 1;
pub const MDBX_WARMUP_OOMSAFE: c_int = 2;
pub const MDBX_WARMUP_LOCK: c_int = 4;
pub const MDBX_WARMUP_TOUCHLIMIT: c_int = 8;
pub const MDBX_WARMUP_RELEASE: c_int = 16;

// Runtime options.
pub const MDBX_opt_max_db: c_int = 0;
pub const MDBX_opt_max_readers: c_int = 1;
pub const MDBX_opt_sync_bytes: c_int = 2;
pub const MDBX_opt_sync_period: c_int = 3;
pub const MDBX_opt_rp_augment_limit: c_int = 4;
pub const MDBX_opt_loose_limit: c_int = 5;
pub const MDBX_opt_dp_reserve_limit: c_int = 6;
pub const MDBX_opt_txn_dp_limit: c_int = 7;
pub const MDBX_opt_txn_dp_initial: c_int = 8;
pub const MDBX_opt_spill_max_denominator: c_int = 9;
pub const MDBX_opt_spill_min_denominator: c_int = 10;
pub const MDBX_opt_spill_parent4child_denominator: c_int = 11;
pub const MDBX_opt_merge_threshold_16dot16_percent: c_int = 12;
pub const MDBX_opt_writethrough_threshold: c_int = 13;
pub const MDBX_opt_prefault_write_enable: c_int = 14;
pub const MDBX_opt_gc_time_limit: c_int = 15;
pub const MDBX_opt_prefer_waf_insteadof_balance: c_int = 16;
pub const MDBX_opt_subpage_limit: c_int = 17;
pub const MDBX_opt_subpage_room_threshold: c_int = 18;
pub const MDBX_opt_subpage_reserve_prereq: c_int = 19;
pub const MDBX_opt_subpage_reserve_limit: c_int = 20;

/// What a cursor is asked to do. The variants are declared in the order of
/// their numbers, starting at zero, so a cast gives the number that
/// [`MDBX_cursor_op::code`] returns.
#[derive(Debug, Copy, Clone, PartialEq, Eq, Structural)]
pub enum MDBX_cursor_op {
    /// Position at the first pair.
    MDBX_FIRST,
    /// Position at the first value of the current key.
    MDBX_FIRST_DUP,
    /// Position at the given key and value.
    MDBX_GET_BOTH,
    /// Position at the given key and the nearest value not below the given one.
    MDBX_GET_BOTH_RANGE,
    /// Return the pair at the current position.
    MDBX_GET_CURRENT,
    /// Return the values of the current key, from the current one on, in one buffer.
    MDBX_GET_MULTIPLE,
    /// Position at the last pair.
    MDBX_LAST,
    /// Position at the last value of the current key.
    MDBX_LAST_DUP,
    /// Position at the next pair.
    MDBX_NEXT,
    /// Position at the next value of the current key.
    MDBX_NEXT_DUP,
    /// Return the values of the next key in one buffer.
    MDBX_NEXT_MULTIPLE,
    /// Position at the first value of the next key.
    MDBX_NEXT_NODUP,
    /// Position at the previous pair.
    MDBX_PREV,
    /// Position at the previous value of the current key.
    MDBX_PREV_DUP,
    /// Position at the last value of the previous key.
    MDBX_PREV_NODUP,
    /// Position at the given key.
    MDBX_SET,
    /// Position at the given key and return the stored key too.
    MDBX_SET_KEY,
    /// Position at the nearest key not below the given one.
    MDBX_SET_RANGE,
    /// Return the values of the previous key in one buffer.
    MDBX_PREV_MULTIPLE,
    /// Position at the nearest pair not below the given one and tell whether it matched exactly.
    MDBX_SET_LOWERBOUND,
    /// Position at the nearest pair above the given one.
    MDBX_SET_UPPERBOUND,
    /// Position at the nearest key below the given one.
    MDBX_TO_KEY_LESSER_THAN,
    /// Position at the nearest key not above the given one.
    MDBX_TO_KEY_LESSER_OR_EQUAL,
    /// Position at the given key.
    MDBX_TO_KEY_EQUAL,
    /// Position at the nearest key not below the given one.
    MDBX_TO_KEY_GREATER_OR_EQUAL,
    /// Position at the nearest key above the given one.
    MDBX_TO_KEY_GREATER_THAN,
    /// Within the given key, position at the nearest value below the given one.
    MDBX_TO_EXACT_KEY_VALUE_LESSER_THAN,
    /// Within the given key, position at the nearest value not above the given one.
    MDBX_TO_EXACT_KEY_VALUE_LESSER_OR_EQUAL,
    /// Within the given key, position at the given value.
    MDBX_TO_EXACT_KEY_VALUE_EQUAL,
    /// Within the given key, position at the nearest value not below the given one.
    MDBX_TO_EXACT_KEY_VALUE_GREATER_OR_EQUAL,
    /// Within the given key, position at the nearest value above the given one.
    MDBX_TO_EXACT_KEY_VALUE_GREATER_THAN,
    /// Position at the nearest pair below the given one.
    MDBX_TO_PAIR_LESSER_THAN,
    /// Position at the nearest pair not above the given one.
    MDBX_TO_PAIR_LESSER_OR_EQUAL,
    /// Position at the given pair.
    MDBX_TO_PAIR_EQUAL,
    /// Position at the nearest pair not below the given one.
    MDBX_TO_PAIR_GREATER_OR_EQUAL,
    /// Position at the nearest pair above the given one.
    MDBX_TO_PAIR_GREATER_THAN,
    /// Position at the given key and return its values in one buffer.
    MDBX_SEEK_AND_GET_MULTIPLE,
}

impl MDBX_cursor_op {
    /// The number of the operation.
    pub open spec fn spec_code(self) -> int {
        match self {
            MDBX_cursor_op::MDBX_FIRST => 0,
            MDBX_cursor_op::MDBX_FIRST_DUP => 1,
            MDBX_cursor_op::MDBX_GET_BOTH => 2,
            MDBX_cursor_op::MDBX_GET_BOTH_RANGE => 3,
            MDBX_cursor_op::MDBX_GET_CURRENT => 4,
            MDBX_cursor_op::MDBX_GET_MULTIPLE => 5,
            MDBX_cursor_op::MDBX_LAST => 6,
            MDBX_cursor_op::MDBX_LAST_DUP => 7,
            MDBX_cursor_op::MDBX_NEXT => 8,
            MDBX_cursor_op::MDBX_NEXT_DUP => 9,
            MDBX_cursor_op::MDBX_NEXT_MULTIPLE => 10,
            MDBX_cursor_op::MDBX_NEXT_NODUP => 11,
            MDBX_cursor_op::MDBX_PREV => 12,
            MDBX_cursor_op::MDBX_PREV_DUP => 13,
            MDBX_cursor_op::MDBX_PREV_NODUP => 14,
            MDBX_cursor_op::MDBX_SET => 15,
            MDBX_cursor_op::MDBX_SET_KEY => 16,
            MDBX_cursor_op::MDBX_SET_RANGE => 17,
            MDBX_cursor_op::MDBX_PREV_MULTIPLE => 18,
            MDBX_cursor_op::MDBX_SET_LOWERBOUND => 19,
            MDBX_cursor_op::MDBX_SET_UPPERBOUND => 20,
            MDBX_cursor_op::MDBX_TO_KEY_LESSER_THAN => 21,
            MDBX_cursor_op::MDBX_TO_KEY_LESSER_OR_EQUAL => 22,
            MDBX_cursor_op::MDBX_TO_KEY_EQUAL => 23,
            MDBX_cursor_op::MDBX_TO_KEY_GREATER_OR_EQUAL => 24,
            MDBX_cursor_op::MDBX_TO_KEY_GREATER_THAN => 25,
            MDBX_cursor_op::MDBX_TO_EXACT_KEY_VALUE_LESSER_THAN => 26,
            MDBX_cursor_op::MDBX_TO_EXACT_KEY_VALUE_LESSER_OR_EQUAL => 27,
            MDBX_cursor_op::MDBX_TO_EXACT_KEY_VALUE_EQUAL => 28,
            MDBX_cursor_op::MDBX_TO_EXACT_KEY_VALUE_GREATER_OR_EQUAL => 29,
            MDBX_cursor_op::MDBX_TO_EXACT_KEY_VALUE_GREATER_THAN => 30,
            MDBX_cursor_op::MDBX_TO_PAIR_LESSER_THAN => 31,
            MDBX_cursor_op::MDBX_TO_PAIR_LESSER_OR_EQUAL => 32,
            MDBX_cursor_op::MDBX_TO_PAIR_EQUAL => 33,
            MDBX_cursor_op::MDBX_TO_PAIR_GREATER_OR_EQUAL => 34,
            MDBX_cursor_op::MDBX_TO_PAIR_GREATER_THAN => 35,
            MDBX_cursor_op::MDBX_SEEK_AND_GET_MULTIPLE => 36,
        }
    }

    /// The number of the operation, as the C interface passes it.
    pub fn code(self) -> (c: c_int)
        ensures
            c == self.spec_code(),
            0 <= c <= 36,
    {
        match self {
            MDBX_cursor_op::MDBX_FIRST => 0,
            MDBX_cursor_op::MDBX_FIRST_DUP => 1,
            MDBX_cursor_op::MDBX_GET_BOTH => 2,
            MDBX_cursor_op::MDBX_GET_BOTH_RANGE => 3,
            MDBX_cursor_op::MDBX_GET_CURRENT => 4,
            MDBX_cursor_op::MDBX_GET_MULTIPLE => 5,
            MDBX_cursor_op::MDBX_LAST => 6,
            MDBX_cursor_op::MDBX_LAST_DUP => 7,
            MDBX_cursor_op::MDBX_NEXT => 8,
            MDBX_cursor_op::MDBX_NEXT_DUP => 9,
            MDBX_cursor_op::MDBX_NEXT_MULTIPLE => 10,
            MDBX_cursor_op::MDBX_NEXT_NODUP => 11,
            MDBX_cursor_op::MDBX_PREV => 12,
            MDBX_cursor_op::MDBX_PREV_DUP => 13,
            MDBX_cursor_op::MDBX_PREV_NODUP => 14,
            MDBX_cursor_op::MDBX_SET => 15,
            MDBX_cursor_op::MDBX_SET_KEY => 16,
            MDBX_cursor_op::MDBX_SET_RANGE => 17,
            MDBX_cursor_op::MDBX_PREV_MULTIPLE => 18,
            MDBX_cursor_op::MDBX_SET_LOWERBOUND => 19,
            MDBX_cursor_op::MDBX_SET_UPPERBOUND => 20,
            MDBX_cursor_op::MDBX_TO_KEY_LESSER_THAN => 21,
            MDBX_cursor_op::MDBX_TO_KEY_LESSER_OR_EQUAL => 22,
            MDBX_cursor_op::MDBX_TO_KEY_EQUAL => 23,
            MDBX_cursor_op::MDBX_TO_KEY_GREATER_OR_EQUAL => 24,
            MDBX_cursor_op::MDBX_TO_KEY_GREATER_THAN => 25,
            MDBX_cursor_op::MDBX_TO_EXACT_KEY_VALUE_LESSER_THAN => 26,
            MDBX_cursor_op::MDBX_TO_EXACT_KEY_VALUE_LESSER_OR_EQUAL => 27,
            MDBX_cursor_op::MDBX_TO_EXACT_KEY_VALUE_EQUAL => 28,
            MDBX_cursor_op::MDBX_TO_EXACT_KEY_VALUE_GREATER_OR_EQUAL => 29,
            MDBX_cursor_op::MDBX_TO_EXACT_KEY_VALUE_GREATER_THAN => 30,
            MDBX_cursor_op::MDBX_TO_PAIR_LESSER_THAN => 31,
            MDBX_cursor_op::MDBX_TO_PAIR_LESSER_OR_EQUAL => 32,
            MDBX_cursor_op::MDBX_TO_PAIR_EQUAL => 33,
            MDBX_cursor_op::MDBX_TO_PAIR_GREATER_OR_EQUAL => 34,
            MDBX_cursor_op::MDBX_TO_PAIR_GREATER_THAN => 35,
            MDBX_cursor_op::MDBX_SEEK_AND_GET_MULTIPLE => 36,
        }
    }

    /// The operation with the given number, if there is one.
    pub fn from_code(c: c_int) -> (op: Option<MDBX_cursor_op>)
        ensures
            0 <= c <= 36 ==> op is Some && op->0.spec_code() == c,
            !(0 <= c <= 36) ==> op is None,
    {
        match c {
            0 => Some(MDBX_cursor_op::MDBX_FIRST),
            1 => Some(MDBX_cursor_op::MDBX_FIRST_DUP),
            2 => Some(MDBX_cursor_op::MDBX_GET_BOTH),
            3 => Some(MDBX_cursor_op::MDBX_GET_BOTH_RANGE),
            4 => Some(MDBX_cursor_op::MDBX_GET_CURRENT),
            5 => Some(MDBX_cursor_op::MDBX_GET_MULTIPLE),
            6 => Some(MDBX_cursor_op::MDBX_LAST),
            7 => Some(MDBX_cursor_op::MDBX_LAST_DUP),
            8 => Some(MDBX_cursor_op::MDBX_NEXT),
            9 => Some(MDBX_cursor_op::MDBX_NEXT_DUP),
            10 => Some(MDBX_cursor_op::MDBX_NEXT_MULTIPLE),
            11 => Some(MDBX_cursor_op::MDBX_NEXT_NODUP),
            12 => Some(MDBX_cursor_op::MDBX_PREV),
            13 => Some(MDBX_cursor_op::MDBX_PREV_DUP),
            14 => Some(MDBX_cursor_op::MDBX_PREV_NODUP),
            15 => Some(MDBX_cursor_op::MDBX_SET),
            16 => Some(MDBX_cursor_op::MDBX_SET_KEY),
            17 => Some(MDBX_cursor_op::MDBX_SET_RANGE),
            18 => Some(MDBX_cursor_op::MDBX_PREV_MULTIPLE),
            19 => Some(MDBX_cursor_op::MDBX_SET_LOWERBOUND),
            20 => Some(MDBX_cursor_op::MDBX_SET_UPPERBOUND),
            21 => Some(MDBX_cursor_op::MDBX_TO_KEY_LESSER_THAN),
            22 => Some(MDBX_cursor_op::MDBX_TO_KEY_LESSER_OR_EQUAL),
            23 => Some(MDBX_cursor_op::MDBX_TO_KEY_EQUAL),
            24 => Some(MDBX_cursor_op::MDBX_TO_KEY_GREATER_OR_EQUAL),
            25 => Some(MDBX_cursor_op::MDBX_TO_KEY_GREATER_THAN),
            26 => Some(MDBX_cursor_op::MDBX_TO_EXACT_KEY_VALUE_LESSER_THAN),
            27 => Some(MDBX_cursor_op::MDBX_TO_EXACT_KEY_VALUE_LESSER_OR_EQUAL),
            28 => Some(MDBX_cursor_op::MDBX_TO_EXACT_KEY_VALUE_EQUAL),
            29 => Some(MDBX_cursor_op::MDBX_TO_EXACT_KEY_VALUE_GREATER_OR_EQUAL),
            30 => Some(MDBX_cursor_op::MDBX_TO_EXACT_KEY_VALUE_GREATER_THAN),
            31 => Some(MDBX_cursor_op::MDBX_TO_PAIR_LESSER_THAN),
            32 => Some(MDBX_cursor_op::MDBX_TO_PAIR_LESSER_OR_EQUAL),
            33 => Some(MDBX_cursor_op::MDBX_TO_PAIR_EQUAL),
            34 => Some(MDBX_cursor_op::MDBX_TO_PAIR_GREATER_OR_EQUAL),
            35 => Some(MDBX_cursor_op::MDBX_TO_PAIR_GREATER_THAN),
            36 => Some(MDBX_cursor_op::MDBX_SEEK_AND_GET_MULTIPLE),
            _ => None,
        }
    }
}

} // verus!
