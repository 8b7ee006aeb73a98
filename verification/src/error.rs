//! The failures that the engine reports, and the classes they fall into.
use crate::constants::{
    MDBX_BACKLOG_DEPLETED, MDBX_BAD_DBI, MDBX_BAD_RSLOT, MDBX_BAD_TXN, MDBX_BAD_VALSIZE, MDBX_BUSY,
    MDBX_CORRUPTED, MDBX_CURSOR_FULL, MDBX_DANGLING_DBI, MDBX_DBS_FULL, MDBX_DUPLICATED_CLK,
    MDBX_EBADSIGN, MDBX_EKEYMISMATCH, MDBX_EMULTIVAL, MDBX_INCOMPATIBLE, MDBX_INVALID,
    MDBX_KEYEXIST, MDBX_MAP_FULL, MDBX_MVCC_RETARDED, MDBX_NOTFOUND, MDBX_OUSTED, MDBX_PAGE_FULL,
    MDBX_PAGE_NOTFOUND, MDBX_PANIC, MDBX_PROBLEM, MDBX_READERS_FULL, MDBX_THREAD_MISMATCH,
    MDBX_TOO_LARGE, MDBX_TXN_FULL, MDBX_TXN_OVERLAPPING, MDBX_UNABLE_EXTEND_MAPSIZE,
    MDBX_VERSION_MISMATCH, MDBX_WANNA_RECOVERY,
};
use libc::c_int;
use vstd::prelude::*;

verus! {

/// A failure of an engine call. Every call that fails returns exactly one of
/// these; nothing is retried behind the caller's back.
#[derive(Debug, Copy, Clone, PartialEq, Eq, Structural)]
pub enum MdbxError {
    /// The key, or the key and value, is already there.
    KeyExist,
    /// No such key, value or further pair.
    NotFound,
    /// A page that the tree refers to is missing.
    PageNotFound,
    /// The stored data is damaged.
    Corrupted,
    /// A fatal failure happened earlier; the environment must be closed.
    Panic,
    /// The file was written by an incompatible version.
    VersionMismatch,
    /// The file is not a database of this engine.
    Invalid,
    /// The file cannot grow any further.
    MapFull,
    /// No room for another named sub-database.
    DbsFull,
    /// No free slot in the reader table.
    ReadersFull,
    /// The write transaction has too many dirty pages.
    TxnFull,
    /// The cursor stack is too deep.
    CursorFull,
    /// A page has no room for the entry.
    PageFull,
    /// The mapping of the file could not be extended.
    UnableExtendMapsize,
    /// The flags disagree with the database or with each other.
    Incompatible,
    /// The reader slot was taken over or is otherwise unusable.
    BadRslot,
    /// The transaction is finished, blocked or of the wrong kind.
    BadTxn,
    /// A key or value has a length the database does not accept.
    BadValSize,
    /// The sub-database handle is not open in this transaction.
    BadDbi,
    /// An unexpected internal failure.
    Problem,
    /// Another write transaction is running and the caller asked not to wait.
    Busy,
    /// The key has several values where one was expected.
    Multival,
    /// The signature of the stored data is wrong.
    BadSign,
    /// The database must be recovered, which a read-only open cannot do.
    WannaRecovery,
    /// The key or value does not sort where the caller said it would.
    KeyMismatch,
    /// The database is larger than this system can map.
    TooLarge,
    /// The transaction is used from a thread that does not own it.
    ThreadMismatch,
    /// The caller already runs a write transaction and would wait for
    /// itself.
    TxnOverlapping,
    /// The reclaimable space ran out while the free list was updated.
    BacklogDepleted,
    /// Another lock file was found for the same database.
    DuplicatedClk,
    /// A sub-database handle is still in use.
    DanglingDbi,
    /// The reader's slot was reclaimed while it was parked.
    Ousted,
    /// The snapshot is older than what the writer still keeps.
    MvccRetarded,
    /// The cursor has no current pair.
    NoData,
    /// An argument is out of range.
    InvalidArgument,
    /// A write was attempted through a read-only transaction or environment.
    AccessDenied,
    /// The call is not allowed in the current state of the environment.
    NotPermitted,
    /// The call is not supported for this sub-database.
    NotSupported,
}

/// What a caller can do about a failure.
#[derive(Debug, Copy, Clone, PartialEq, Eq, Structural)]
pub enum ErrorClass {
    /// Something asked for is absent. An ordinary outcome.
    NotFound,
    /// The request collides with what is stored or running; the caller may
    /// adjust and try again.
    Conflict,
    /// A configured limit is reached. The call failed; raising the limit
    /// helps.
    ResourceExhaustion,
    /// The stored data cannot be trusted. Fatal for the environment.
    Integrity,
    /// The caller used the interface wrongly.
    Usage,
    /// Another party holds what the call needs; try again later.
    Concurrency,
}

/// `libc::EINVAL`, the system's number for an invalid argument. The number
/// differs between systems; on all of them it is not zero.
#[verifier::external_body]
pub(crate) fn sys_einval() -> (r: c_int)
    ensures
        r != 0,
{
    libc::EINVAL
}

/// `libc::EACCES`, the system's number for a denied access. The number
/// differs between systems; on all of them it is not zero.
#[verifier::external_body]
pub(crate) fn sys_eacces() -> (r: c_int)
    ensures
        r != 0,
{
    libc::EACCES
}

/// `libc::ENODATA`, the system's number for missing data. The number differs
/// between systems; on all of them it is not zero.
#[verifier::external_body]
pub(crate) fn sys_enodata() -> (r: c_int)
    ensures
        r != 0,
{
    libc::ENODATA
}

/// `libc::EPERM`, the system's number for an operation that is not
/// permitted. The number differs between systems; on all of them it is not
/// zero.
#[verifier::external_body]
pub(crate) fn sys_eperm() -> (r: c_int)
    ensures
        r != 0,
{
    libc::EPERM
}

/// `libc::ENOTSUP`, the system's number for an unsupported operation. The
/// number differs between systems; on all of them it is not zero.
#[verifier::external_body]
pub(crate) fn sys_enotsup() -> (r: c_int)
    ensures
        r != 0,
{
    libc::ENOTSUP
}

impl MdbxError {
    /// The engine's own number of the failure, where it has one. The five
    /// failures that are reported with a number of the operating system have
    /// none.
    pub open spec fn own_code(self) -> Option<int> {
        match self {
            MdbxError::KeyExist => Some(MDBX_KEYEXIST as int),
            MdbxError::NotFound => Some(MDBX_NOTFOUND as int),
            MdbxError::PageNotFound => Some(MDBX_PAGE_NOTFOUND as int),
            MdbxError::Corrupted => Some(MDBX_CORRUPTED as int),
            MdbxError::Panic => Some(MDBX_PANIC as int),
            MdbxError::VersionMismatch => Some(MDBX_VERSION_MISMATCH as int),
            MdbxError::Invalid => Some(MDBX_INVALID as int),
            MdbxError::MapFull => Some(MDBX_MAP_FULL as int),
            MdbxError::DbsFull => Some(MDBX_DBS_FULL as int),
            MdbxError::ReadersFull => Some(MDBX_READERS_FULL as int),
            MdbxError::TxnFull => Some(MDBX_TXN_FULL as int),
            MdbxError::CursorFull => Some(MDBX_CURSOR_FULL as int),
            MdbxError::PageFull => Some(MDBX_PAGE_FULL as int),
            MdbxError::UnableExtendMapsize => Some(MDBX_UNABLE_EXTEND_MAPSIZE as int),
            MdbxError::Incompatible => Some(MDBX_INCOMPATIBLE as int),
            MdbxError::BadRslot => Some(MDBX_BAD_RSLOT as int),
            MdbxError::BadTxn => Some(MDBX_BAD_TXN as int),
            MdbxError::BadValSize => Some(MDBX_BAD_VALSIZE as int),
            MdbxError::BadDbi => Some(MDBX_BAD_DBI as int),
            MdbxError::Problem => Some(MDBX_PROBLEM as int),
            MdbxError::Busy => Some(MDBX_BUSY as int),
            MdbxError::Multival => Some(MDBX_EMULTIVAL as int),
            MdbxError::BadSign => Some(MDBX_EBADSIGN as int),
            MdbxError::WannaRecovery => Some(MDBX_WANNA_RECOVERY as int),
            MdbxError::KeyMismatch => Some(MDBX_EKEYMISMATCH as int),
            MdbxError::TooLarge => Some(MDBX_TOO_LARGE as int),
            MdbxError::ThreadMismatch => Some(MDBX_THREAD_MISMATCH as int),
            MdbxError::TxnOverlapping => Some(MDBX_TXN_OVERLAPPING as int),
            MdbxError::BacklogDepleted => Some(MDBX_BACKLOG_DEPLETED as int),
            MdbxError::DuplicatedClk => Some(MDBX_DUPLICATED_CLK as int),
            MdbxError::DanglingDbi => Some(MDBX_DANGLING_DBI as int),
            MdbxError::Ousted => Some(MDBX_OUSTED as int),
            MdbxError::MvccRetarded => Some(MDBX_MVCC_RETARDED as int),
            MdbxError::NoData => None,
            MdbxError::InvalidArgument => None,
            MdbxError::AccessDenied => None,
            MdbxError::NotPermitted => None,
            MdbxError::NotSupported => None,
        }
    }

    /// The class of the failure.
    pub open spec fn spec_class(self) -> ErrorClass {
        match self {
            MdbxError::NotFound | MdbxError::PageNotFound | MdbxError::NoData => ErrorClass::NotFound,
            MdbxError::KeyExist | MdbxError::TxnOverlapping | MdbxError::KeyMismatch
            | MdbxError::Multival => ErrorClass::Conflict,
            MdbxError::MapFull | MdbxError::DbsFull | MdbxError::ReadersFull | MdbxError::TxnFull
            | MdbxError::CursorFull | MdbxError::PageFull | MdbxError::UnableExtendMapsize
            | MdbxError::TooLarge => ErrorClass::ResourceExhaustion,
            MdbxError::Corrupted | MdbxError::Panic | MdbxError::WannaRecovery | MdbxError::BadSign
            | MdbxError::VersionMismatch | MdbxError::Invalid | MdbxError::Problem
            | MdbxError::DuplicatedClk => ErrorClass::Integrity,
            MdbxError::InvalidArgument | MdbxError::BadTxn | MdbxError::BadDbi
            | MdbxError::Incompatible | MdbxError::ThreadMismatch | MdbxError::BadValSize
            | MdbxError::BadRslot | MdbxError::DanglingDbi | MdbxError::AccessDenied
            | MdbxError::NotPermitted | MdbxError::NotSupported => ErrorClass::Usage,
            MdbxError::Busy | MdbxError::BacklogDepleted | MdbxError::Ousted
            | MdbxError::MvccRetarded => ErrorClass::Concurrency,
        }
    }

    /// The number under which the C interface reports the failure. It is
    /// never `MDBX_SUCCESS`. For the engine's own failures it is the constant
    /// of that name; for the other five it is the number of the operating
    /// system.
    pub fn code(self) -> (c: c_int)
        ensures
            c != 0,
            self.own_code() matches Some(n) ==> c == n,
    {
        match self {
            MdbxError::KeyExist => MDBX_KEYEXIST,
            MdbxError::NotFound => MDBX_NOTFOUND,
            MdbxError::PageNotFound => MDBX_PAGE_NOTFOUND,
            MdbxError::Corrupted => MDBX_CORRUPTED,
            MdbxError::Panic => MDBX_PANIC,
            MdbxError::VersionMismatch => MDBX_VERSION_MISMATCH,
            MdbxError::Invalid => MDBX_INVALID,
            MdbxError::MapFull => MDBX_MAP_FULL,
            MdbxError::DbsFull => MDBX_DBS_FULL,
            MdbxError::ReadersFull => MDBX_READERS_FULL,
            MdbxError::TxnFull => MDBX_TXN_FULL,
            MdbxError::CursorFull => MDBX_CURSOR_FULL,
            MdbxError::PageFull => MDBX_PAGE_FULL,
            MdbxError::UnableExtendMapsize => MDBX_UNABLE_EXTEND_MAPSIZE,
            MdbxError::Incompatible => MDBX_INCOMPATIBLE,
            MdbxError::BadRslot => MDBX_BAD_RSLOT,
            MdbxError::BadTxn => MDBX_BAD_TXN,
            MdbxError::BadValSize => MDBX_BAD_VALSIZE,
            MdbxError::BadDbi => MDBX_BAD_DBI,
            MdbxError::Problem => MDBX_PROBLEM,
            MdbxError::Busy => MDBX_BUSY,
            MdbxError::Multival => MDBX_EMULTIVAL,
            MdbxError::BadSign => MDBX_EBADSIGN,
            MdbxError::WannaRecovery => MDBX_WANNA_RECOVERY,
            MdbxError::KeyMismatch => MDBX_EKEYMISMATCH,
            MdbxError::TooLarge => MDBX_TOO_LARGE,
            MdbxError::ThreadMismatch => MDBX_THREAD_MISMATCH,
            MdbxError::TxnOverlapping => MDBX_TXN_OVERLAPPING,
            MdbxError::BacklogDepleted => MDBX_BACKLOG_DEPLETED,
            MdbxError::DuplicatedClk => MDBX_DUPLICATED_CLK,
            MdbxError::DanglingDbi => MDBX_DANGLING_DBI,
            MdbxError::Ousted => MDBX_OUSTED,
            MdbxError::MvccRetarded => MDBX_MVCC_RETARDED,
            MdbxError::NoData => sys_enodata(),
            MdbxError::InvalidArgument => sys_einval(),
            MdbxError::AccessDenied => sys_eacces(),
            MdbxError::NotPermitted => sys_eperm(),
            MdbxError::NotSupported => sys_enotsup(),
        }
    }

    /// The engine's own failure with the number `c`, if `c` is one of the
    /// engine's numbers.
    pub fn from_code(c: c_int) -> (e: Option<MdbxError>)
        ensures
            match e {
                Some(x) => x.own_code() == Some(c as int),
                None => forall|x: MdbxError| x.own_code() != Some(c as int),
            },
    {
        let e = match c {
            -30799 => Some(MdbxError::KeyExist),
            -30798 => Some(MdbxError::NotFound),
            -30797 => Some(MdbxError::PageNotFound),
            -30796 => Some(MdbxError::Corrupted),
            -30795 => Some(MdbxError::Panic),
            -30794 => Some(MdbxError::VersionMismatch),
            -30793 => Some(MdbxError::Invalid),
            -30792 => Some(MdbxError::MapFull),
            -30791 => Some(MdbxError::DbsFull),
            -30790 => Some(MdbxError::ReadersFull),
            -30788 => Some(MdbxError::TxnFull),
            -30787 => Some(MdbxError::CursorFull),
            -30786 => Some(MdbxError::PageFull),
            -30785 => Some(MdbxError::UnableExtendMapsize),
            -30784 => Some(MdbxError::Incompatible),
            -30783 => Some(MdbxError::BadRslot),
            -30782 => Some(MdbxError::BadTxn),
            -30781 => Some(MdbxError::BadValSize),
            -30780 => Some(MdbxError::BadDbi),
            -30779 => Some(MdbxError::Problem),
            -30778 => Some(MdbxError::Busy),
            -30421 => Some(MdbxError::Multival),
            -30420 => Some(MdbxError::BadSign),
            -30419 => Some(MdbxError::WannaRecovery),
            -30418 => Some(MdbxError::KeyMismatch),
            -30417 => Some(MdbxError::TooLarge),
            -30416 => Some(MdbxError::ThreadMismatch),
            -30415 => Some(MdbxError::TxnOverlapping),
            -30414 => Some(MdbxError::BacklogDepleted),
            -30413 => Some(MdbxError::DuplicatedClk),
            -30412 => Some(MdbxError::DanglingDbi),
            -30411 => Some(MdbxError::Ousted),
            -30410 => Some(MdbxError::MvccRetarded),
            _ => None,
        };
        e
    }

    /// The class of the failure.
    pub fn class(self) -> (k: ErrorClass)
        ensures
            k == self.spec_class(),
    {
        match self {
            MdbxError::NotFound | MdbxError::PageNotFound | MdbxError::NoData => ErrorClass::NotFound,
            MdbxError::KeyExist | MdbxError::TxnOverlapping | MdbxError::KeyMismatch
            | MdbxError::Multival => ErrorClass::Conflict,
            MdbxError::MapFull | MdbxError::DbsFull | MdbxError::ReadersFull | MdbxError::TxnFull
            | MdbxError::CursorFull | MdbxError::PageFull | MdbxError::UnableExtendMapsize
            | MdbxError::TooLarge => ErrorClass::ResourceExhaustion,
            MdbxError::Corrupted | MdbxError::Panic | MdbxError::WannaRecovery | MdbxError::BadSign
            | MdbxError::VersionMismatch | MdbxError::Invalid | MdbxError::Problem
            | MdbxError::DuplicatedClk => ErrorClass::Integrity,
            MdbxError::InvalidArgument | MdbxError::BadTxn | MdbxError::BadDbi
            | MdbxError::Incompatible | MdbxError::ThreadMismatch | MdbxError::BadValSize
            | MdbxError::BadRslot | MdbxError::DanglingDbi | MdbxError::AccessDenied
            | MdbxError::NotPermitted | MdbxError::NotSupported => ErrorClass::Usage,
            MdbxError::Busy | MdbxError::BacklogDepleted | MdbxError::Ousted
            | MdbxError::MvccRetarded => ErrorClass::Concurrency,
        }
    }

    /// Whether the failure is an outcome that callers meet in normal use: a
    /// miss, or a key that is already there.
    pub fn is_ordinary(self) -> (b: bool)
        ensures
            b == (self.spec_class() == ErrorClass::NotFound || self == MdbxError::KeyExist),
    {
        match self {
            MdbxError::NotFound | MdbxError::PageNotFound | MdbxError::NoData
            | MdbxError::KeyExist => true,
            _ => false,
        }
    }

    /// Whether the environment is unusable after this failure and has to be
    /// closed.
    pub fn is_fatal(self) -> (b: bool)
        ensures
            b == (self.spec_class() == ErrorClass::Integrity),
    {
        match self.class() {
            ErrorClass::Integrity => true,
            _ => false,
        }
    }

    /// Whether the same call may succeed later without any change by the
    /// caller.
    pub fn is_retryable(self) -> (b: bool)
        ensures
            b == (self.spec_class() == ErrorClass::Concurrency),
    {
        match self.class() {
            ErrorClass::Concurrency => true,
            _ => false,
        }
    }
}

} // verus!
