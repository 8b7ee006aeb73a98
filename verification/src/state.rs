//! The environment as a mathematical value, and what every call does to it.
//!
//! The executable engine keeps pages and tables; `MDBX_env::view` gives the
//! value of this module that they stand for. The contract of each call says
//! that the environment afterwards, and what the call returns, are what the
//! function of the same name computes here. A call that fails leaves the
//! environment as it was.
use crate::constants::{
    MDBX_cursor_op, MDBX_ACCEDE, MDBX_ALLDUPS, MDBX_COALESCE, MDBX_EXCLUSIVE, MDBX_LIFORECLAIM,
    MDBX_MAX_DBI, MDBX_NODUPDATA, MDBX_NOMEMINIT, MDBX_NOMETASYNC, MDBX_NORDAHEAD,
    MDBX_NOSTICKYTHREADS, MDBX_NOSUBDIR, MDBX_PAGEPERTURB, MDBX_RDONLY, MDBX_SAFE_NOSYNC,
    MDBX_TXN_DIRTY, MDBX_TXN_HAS_CHILD, MDBX_TXN_RDONLY, MDBX_TXN_TRY, MDBX_VALIDATION,
    MDBX_WRITEMAP,
};
use crate::error::MdbxError;
use crate::flags::{spec_has, DbFlags, PutFlags};
use crate::model::{oldest_of, position, DbState, DbView, Outcome, WriterState};
use crate::seek::{op_kind, OpKind};
use crate::space::SpaceView;
use vstd::arithmetic::power2::pow2;
use vstd::prelude::*;

verus! {

/// The sizes of the file, in bytes.
#[derive(Debug, Copy, Clone, PartialEq, Eq, Structural)]
pub struct Geometry {
    /// The size below which the file never shrinks.
    pub size_lower: u64,
    /// The size that the file starts with.
    pub size_now: u64,
    /// The size beyond which the file never grows.
    pub size_upper: u64,
    /// By how much the file grows when it is full.
    pub growth_step: u64,
    /// How much unused space makes the file shrink.
    pub shrink_threshold: u64,
    /// The size of a page.
    pub page_size: u64,
}

/// The handle of the free list. It takes no data operations.
pub const FREE_DBI: u32 = 0;

/// The handle of the main sub-database, which has no name and is always
/// open.
pub const MAIN_DBI: u32 = 1;

/// The readers that an environment admits unless told otherwise.
pub const DEFAULT_MAX_READERS: u32 = 126;

/// The geometry of an environment that was not told otherwise: pages of
/// 4096 bytes, up to one gibibyte, growing by sixteen mebibytes.
pub open spec fn default_geometry() -> Geometry {
    Geometry {
        size_lower: 0,
        size_now: 0,
        size_upper: 0x4000_0000,
        growth_step: 0x100_0000,
        shrink_threshold: 0x200_0000,
        page_size: 4096,
    }
}

/// Whether `n` can be the size of a page: a power of two from 256 to 65536.
pub open spec fn page_size_ok(n: int) -> bool {
    n == 256 || n == 512 || n == 1024 || n == 2048 || n == 4096 || n == 8192 || n == 16384 || n
        == 32768 || n == 65536
}

/// The number of pages that a file of this geometry may have.
pub open spec fn page_limit(g: Geometry) -> u64 {
    if g.page_size == 0 {
        0
    } else {
        g.size_upper / g.page_size
    }
}

/// The flags that an environment can have.
pub open spec fn spec_env_flag_mask() -> u32 {
    (MDBX_VALIDATION as u32) | (MDBX_NOSUBDIR as u32) | (MDBX_RDONLY as u32) | (MDBX_EXCLUSIVE as u32)
        | (MDBX_ACCEDE as u32) | (MDBX_WRITEMAP as u32) | (MDBX_NOSTICKYTHREADS as u32) | (
    MDBX_NORDAHEAD as u32) | (MDBX_NOMEMINIT as u32) | (MDBX_COALESCE as u32) | (
    MDBX_LIFORECLAIM as u32) | (MDBX_PAGEPERTURB as u32) | (MDBX_NOMETASYNC as u32) | (
    MDBX_SAFE_NOSYNC as u32)
}

/// The flags of an environment that can be changed while it is open: those
/// that concern durability and the treatment of pages.
pub open spec fn spec_env_runtime_mask() -> u32 {
    (MDBX_NOMEMINIT as u32) | (MDBX_COALESCE as u32) | (MDBX_LIFORECLAIM as u32) | (
    MDBX_PAGEPERTURB as u32) | (MDBX_NOMETASYNC as u32) | (MDBX_SAFE_NOSYNC as u32)
}

/// The flags that a transaction can begin with.
pub open spec fn spec_txn_flag_mask() -> u32 {
    (MDBX_TXN_RDONLY as u32) | (MDBX_TXN_TRY as u32) | (MDBX_NOMETASYNC as u32) | (
    MDBX_SAFE_NOSYNC as u32) | (MDBX_NOMEMINIT as u32)
}

/// Whether a commit under these flags may leave committed data unsynced.
pub open spec fn defers_sync(flags: u32) -> bool {
    spec_has(flags, MDBX_SAFE_NOSYNC) || spec_has(flags, MDBX_NOMETASYNC)
}

/// What a transaction handle says of itself.
pub struct TxnView {
    /// The number that the transaction is known by. No two transactions of
    /// an environment get the same.
    pub handle: u64,
    /// Whether it is a write transaction.
    pub write: bool,
    /// Its slot in the reader table, or its depth among the nested write
    /// transactions.
    pub slot: nat,
}

/// A read transaction in the reader table.
pub struct ReaderState {
    pub handle: u64,
    /// Whether it holds a snapshot; not so after a reset.
    pub live: bool,
    /// The transaction whose commit made the snapshot.
    pub txnid: u64,
    /// The snapshot.
    pub dbs: Seq<DbState>,
}

/// How a begin ended.
pub enum BeginView {
    /// The transaction runs.
    Started(TxnView),
    /// Another write transaction runs. The caller waits until it is
    /// finished and begins again.
    MustWait,
    /// The transaction cannot begin.
    Failed(MdbxError),
}

/// The index of the first free slot of the reader table; its length if
/// there is none.
pub open spec fn first_free(readers: Seq<Option<ReaderState>>) -> int
    decreases readers.len(),
{
    if readers.len() == 0 {
        0
    } else if readers[0] is None {
        0
    } else {
        1 + first_free(readers.skip(1))
    }
}

/// The snapshots that the reader table pins.
pub open spec fn pins_of(readers: Seq<Option<ReaderState>>) -> Seq<Option<u64>> {
    Seq::new(
        readers.len(),
        |i: int|
            match readers[i] {
                Some(r) => if r.live {
                    Some(r.txnid)
                } else {
                    None
                },
                None => None,
            },
    )
}

/// The table of open handles with handle `i` open.
pub open spec fn with_handle(handles: Seq<bool>, i: int) -> Seq<bool> {
    Seq::new(
        if i < handles.len() {
            handles.len()
        } else {
            (i + 1) as nat
        },
        |j: int| j == i || (j < handles.len() && handles[j]),
    )
}

/// The index of the sub-database named `name` among `dbs`, if it exists.
/// The two reserved records do not count.
pub open spec fn find_named(dbs: Seq<DbState>, name: Seq<u8>) -> Option<int>
    decreases dbs.len(),
{
    if dbs.len() <= 2 {
        None
    } else {
        match find_named(dbs.drop_last(), name) {
            Some(i) => Some(i),
            None => if dbs.last().alive && dbs.last().name == name {
                Some(dbs.len() - 1)
            } else {
                None
            },
        }
    }
}

/// An environment.
pub struct EnvView {
    /// Whether it is open.
    pub open: bool,
    /// Its flags.
    pub flags: u32,
    /// How many named sub-databases it admits.
    pub max_dbs: u32,
    /// How many readers it admits.
    pub max_readers: u32,
    /// The sizes of its file.
    pub geometry: Geometry,
    /// The page size that the file was made with, once it was made.
    pub made_with: Option<u64>,
    /// The last committed transaction.
    pub txnid: u64,
    /// The committed version.
    pub dbs: Seq<DbState>,
    /// The committed page numbers and free list.
    pub space: SpaceView,
    /// The reader table.
    pub readers: Seq<Option<ReaderState>>,
    /// The running write transaction and, nested in it, its children; the
    /// innermost is last.
    pub writers: Seq<WriterState>,
    /// Which sub-database handles are open.
    pub handles: Seq<bool>,
    /// The number that the next transaction gets.
    pub next_handle: u64,
    /// Whether committed data is not yet synced.
    pub unsynced: bool,
}

/// The values of `size` bytes each that stand one after the other in
/// `data`.
pub open spec fn values_of(data: Seq<u8>, size: nat) -> Seq<Seq<u8>> {
    Seq::new(
        if size == 0 {
            0
        } else {
            data.len() / size
        },
        |i: int| data.subrange(i * size, (i + 1) * size),
    )
}

/// The number of pages of the trees of the sub-databases.
pub open spec fn pages_sum(dbs: Seq<DbState>) -> nat
    decreases dbs.len(),
{
    if dbs.len() == 0 {
        0
    } else {
        pages_sum(dbs.drop_last()) + dbs.last().leaves + dbs.last().branches
    }
}

/// What holds of a sub-database in every version: it is well-formed; its
/// tree has levels exactly when it has entries, and twice as many entries
/// at least with every level more; a tree of one level is a single leaf, and
/// a tree of more levels has fewer branches than leaves, and not more leaves
/// than entries; and it has nothing once it is deleted.
pub open spec fn db_state_ok(d: DbState) -> bool {
    &&& d.db.wf()
    &&& d.depth > 0 <==> d.db.entries.len() > 0
    &&& d.depth <= 64
    &&& d.depth > 0 ==> pow2((d.depth - 1) as nat) <= d.db.entries.len()
    &&& d.leaves <= d.db.entries.len()
    &&& d.depth == 0 ==> d.leaves == 0 && d.branches == 0
    &&& d.depth == 1 ==> d.leaves == 1 && d.branches == 0
    &&& d.depth >= 2 ==> d.leaves >= 2 && 1 <= d.branches < d.leaves
    &&& !d.alive ==> d.db.entries.len() == 0
}

/// What holds of every version: the free list's record and the main
/// sub-database come first, and every sub-database is in order.
pub open spec fn version_valid(dbs: Seq<DbState>) -> bool {
    &&& 2 <= dbs.len() <= MDBX_MAX_DBI + 2
    &&& !dbs[0].alive
    &&& dbs[1].alive
    &&& forall|i: int| 0 <= i < dbs.len() ==> db_state_ok(#[trigger] dbs[i])
}

impl EnvView {
    /// What holds of every environment, whatever was done to it.
    pub open spec fn valid(self) -> bool {
        &&& version_valid(self.dbs)
        &&& self.space.wf()
        &&& self.space.next == pages_sum(self.dbs) + crate::space::free_count(self.space.free)
        &&& forall|s: int|
            0 <= s < self.readers.len() ==> ((#[trigger] self.readers[s]) matches Some(r) ==> r.handle
                < self.next_handle && (r.live ==> version_valid(r.dbs) && r.txnid <= self.txnid))
        &&& forall|l: int|
            0 <= l < self.writers.len() ==> version_valid((#[trigger] self.writers[l]).dbs)
                && self.writers[l].space.wf() && self.writers[l].handle < self.next_handle
                && self.writers[l].space.next == pages_sum(self.writers[l].dbs)
                + crate::space::free_count(self.writers[l].space.free) + self.writers[l].freed.len()
        &&& self.handles.len() >= 2
        &&& self.handles[1]
        &&& !self.open ==> self.writers.len() == 0 && self.readers.len() == 0
        &&& self.writers.len() > 0 ==> self.txnid < u64::MAX
        &&& self.readers.len() <= self.max_readers
    }

    /// A new environment: closed, empty, with the default settings.
    pub open spec fn fresh() -> EnvView {
        EnvView {
            open: false,
            flags: 0,
            max_dbs: 0,
            max_readers: DEFAULT_MAX_READERS,
            geometry: default_geometry(),
            made_with: None,
            txnid: 0,
            dbs: seq![
                DbState {
                    name: Seq::empty(),
                    alive: false,
                    db: DbView::empty(DbFlags::plain()),
                    mod_txnid: 0,
                    depth: 0,
                    leaves: 0,
                    branches: 0,
                },
                DbState {
                    name: Seq::empty(),
                    alive: true,
                    db: DbView::empty(DbFlags::plain()),
                    mod_txnid: 0,
                    depth: 0,
                    leaves: 0,
                    branches: 0,
                },
            ],
            space: SpaceView { next: 0, limit: page_limit(default_geometry()), free: Seq::empty() },
            readers: Seq::empty(),
            writers: Seq::empty(),
            handles: seq![false, true],
            next_handle: 1,
            unsynced: false,
        }
    }

    /// The oldest snapshot that a reader pins.
    pub open spec fn oldest(self) -> Option<u64> {
        oldest_of(pins_of(self.readers))
    }

    /// Whether any transaction runs.
    pub open spec fn busy(self) -> bool {
        self.writers.len() > 0 || exists|i: int|
            0 <= i < self.readers.len() && (#[trigger] self.readers[i]) is Some
    }

    /// Whether `t` is a read transaction of the reader table.
    pub open spec fn is_reader(self, t: TxnView) -> bool {
        &&& !t.write
        &&& t.slot < self.readers.len()
        &&& self.readers[t.slot as int] matches Some(r) && r.handle == t.handle
    }

    /// Whether `t` is the running write transaction or one of its children.
    pub open spec fn is_writer(self, t: TxnView) -> bool {
        &&& t.write
        &&& t.slot < self.writers.len()
        &&& self.writers[t.slot as int].handle == t.handle
    }

    /// Whether `t` is the innermost write transaction, the only one that
    /// may be used while it runs.
    pub open spec fn is_top(self, t: TxnView) -> bool {
        self.is_writer(t) && t.slot == self.writers.len() - 1
    }

    /// The version that `t` sees, if `t` can be used: a reader with a
    /// snapshot, or the innermost write transaction.
    pub open spec fn sees(self, t: TxnView) -> Option<Seq<DbState>> {
        if self.is_reader(t) && self.readers[t.slot as int]->0.live {
            Some(self.readers[t.slot as int]->0.dbs)
        } else if self.is_top(t) {
            Some(self.writers.last().dbs)
        } else {
            None
        }
    }

    /// Whether `dbi` is an open handle of a sub-database that exists in the
    /// version `dbs`.
    pub open spec fn dbi_ok(self, dbs: Seq<DbState>, dbi: u32) -> bool {
        &&& dbi < dbs.len()
        &&& dbs[dbi as int].alive
        &&& dbi < self.handles.len()
        &&& self.handles[dbi as int]
    }

    /// Sets the sizes of the file. A size of -1 keeps what is set. Only a
    /// closed environment takes new sizes. The sizes must not be negative,
    /// the page size must be a power of two from 256 to 65536, and the lower
    /// size, the starting size and the upper size must ascend.
    pub open spec fn set_geometry(
        self,
        lower: int,
        now: int,
        upper: int,
        growth: int,
        shrink: int,
        pagesize: int,
    ) -> Result<EnvView, MdbxError> {
        let g = Geometry {
            size_lower: if lower == -1 { self.geometry.size_lower } else { lower as u64 },
            size_now: if now == -1 { self.geometry.size_now } else { now as u64 },
            size_upper: if upper == -1 { self.geometry.size_upper } else { upper as u64 },
            growth_step: if growth == -1 { self.geometry.growth_step } else { growth as u64 },
            shrink_threshold: if shrink == -1 {
                self.geometry.shrink_threshold
            } else {
                shrink as u64
            },
            page_size: if pagesize == -1 { self.geometry.page_size } else { pagesize as u64 },
        };
        if self.open {
            Err(MdbxError::NotPermitted)
        } else if lower < -1 || now < -1 || upper < -1 || growth < -1 || shrink < -1 || pagesize
            < -1 {
            Err(MdbxError::InvalidArgument)
        } else if !page_size_ok(g.page_size as int) || g.size_lower > g.size_now || g.size_now
            > g.size_upper {
            Err(MdbxError::InvalidArgument)
        } else if page_limit(g) < self.space.next {
            Err(MdbxError::TooLarge)
        } else {
            Ok(
                EnvView {
                    geometry: g,
                    space: SpaceView { limit: page_limit(g), ..self.space },
                    ..self
                },
            )
        }
    }

    /// Sets how many named sub-databases the environment admits; only
    /// while it is closed, and never more than `MDBX_MAX_DBI`.
    pub open spec fn set_maxdbs(self, n: u32) -> Result<EnvView, MdbxError> {
        if self.open {
            Err(MdbxError::NotPermitted)
        } else if n > MDBX_MAX_DBI {
            Err(MdbxError::InvalidArgument)
        } else {
            Ok(EnvView { max_dbs: n, ..self })
        }
    }

    /// Sets how many readers the environment admits; only while it is
    /// closed, and at least one.
    pub open spec fn set_maxreaders(self, n: u32) -> Result<EnvView, MdbxError> {
        if self.open {
            Err(MdbxError::NotPermitted)
        } else if n == 0 {
            Err(MdbxError::InvalidArgument)
        } else {
            Ok(EnvView { max_readers: n, ..self })
        }
    }

    /// Opens the environment with the given flags. An open environment
    /// cannot be opened again; a flag that no environment has is an invalid
    /// argument; a file that was made with another page size is
    /// incompatible. The first opening makes the file with the page size
    /// that is set. Only the main sub-database is open at first.
    pub open spec fn open(self, flags: u32) -> Result<EnvView, MdbxError> {
        if self.open {
            Err(MdbxError::NotPermitted)
        } else if flags & !spec_env_flag_mask() != 0 {
            Err(MdbxError::InvalidArgument)
        } else if self.made_with is Some && self.made_with != Some(self.geometry.page_size) {
            Err(MdbxError::Incompatible)
        } else {
            Ok(
                EnvView {
                    open: true,
                    flags,
                    made_with: Some(self.geometry.page_size),
                    handles: seq![false, true],
                    ..self
                },
            )
        }
    }

    /// Closes the environment. It refuses with busy while a transaction
    /// runs. Unless told not to, it syncs what is unsynced.
    pub open spec fn close(self, dont_sync: bool) -> Result<EnvView, MdbxError> {
        if !self.open {
            Err(MdbxError::NotPermitted)
        } else if self.busy() {
            Err(MdbxError::Busy)
        } else {
            Ok(
                EnvView {
                    open: false,
                    unsynced: self.unsynced && dont_sync,
                    readers: Seq::empty(),
                    ..self
                },
            )
        }
    }

    /// Closes the environment whatever runs: every transaction is aborted
    /// first.
    pub open spec fn close_forced(self, dont_sync: bool) -> Result<EnvView, MdbxError> {
        if !self.open {
            Err(MdbxError::NotPermitted)
        } else {
            Ok(
                EnvView {
                    open: false,
                    unsynced: self.unsynced && dont_sync,
                    readers: Seq::empty(),
                    writers: Seq::empty(),
                    ..self
                },
            )
        }
    }

    /// Syncs committed data. Returns whether anything was written: there
    /// was unsynced data, or the caller forced it.
    pub open spec fn sync(self, force: bool) -> Result<(EnvView, bool), MdbxError> {
        if !self.open {
            Err(MdbxError::NotPermitted)
        } else if spec_has(self.flags, MDBX_RDONLY) {
            Err(MdbxError::AccessDenied)
        } else {
            Ok((EnvView { unsynced: false, ..self }, self.unsynced || force))
        }
    }

    /// Switches the given flags on or off. While the environment is open
    /// only the flags of `spec_env_runtime_mask` can be changed.
    pub open spec fn set_flags(self, flags: u32, onoff: bool) -> Result<EnvView, MdbxError> {
        if flags & !spec_env_flag_mask() != 0 {
            Err(MdbxError::InvalidArgument)
        } else if self.open && flags & !spec_env_runtime_mask() != 0 {
            Err(MdbxError::NotPermitted)
        } else {
            Ok(
                EnvView {
                    flags: if onoff {
                        self.flags | flags
                    } else {
                        self.flags & !flags
                    },
                    ..self
                },
            )
        }
    }

    /// The reader table with `r` in slot `slot`.
    pub open spec fn with_reader(self, slot: int, r: Option<ReaderState>) -> Seq<
        Option<ReaderState>,
    > {
        if slot < self.readers.len() {
            self.readers.update(slot, r)
        } else {
            self.readers.push(r)
        }
    }

    /// Begins a transaction.
    ///
    /// A closed environment begins none. A flag that no transaction has is
    /// an invalid argument. A read transaction has no parent; it takes the
    /// first free slot of the reader table and pins the committed version;
    /// with all slots taken the readers are full. A write transaction needs
    /// an environment that is not read-only. Without a parent it begins only
    /// when no write transaction runs: else the caller must wait, or is told
    /// busy if it asked not to wait. With a parent, which must be the
    /// innermost write transaction, it begins as a child that sees what the
    /// parent sees.
    pub open spec fn begin(self, parent: Option<TxnView>, flags: u32) -> (EnvView, BeginView) {
        let slot = first_free(self.readers);
        if !self.open {
            (self, BeginView::Failed(MdbxError::NotPermitted))
        } else if flags & !spec_txn_flag_mask() != 0 {
            (self, BeginView::Failed(MdbxError::InvalidArgument))
        } else if self.next_handle == u64::MAX {
            (self, BeginView::Failed(MdbxError::TxnFull))
        } else if spec_has(flags, MDBX_TXN_RDONLY) {
            if parent is Some {
                (self, BeginView::Failed(MdbxError::BadTxn))
            } else if slot >= self.max_readers {
                (self, BeginView::Failed(MdbxError::ReadersFull))
            } else {
                (
                    EnvView {
                        readers: self.with_reader(
                            slot,
                            Some(
                                ReaderState {
                                    handle: self.next_handle,
                                    live: true,
                                    txnid: self.txnid,
                                    dbs: self.dbs,
                                },
                            ),
                        ),
                        next_handle: (self.next_handle + 1) as u64,
                        ..self
                    },
                    BeginView::Started(
                        TxnView { handle: self.next_handle, write: false, slot: slot as nat },
                    ),
                )
            }
        } else if spec_has(self.flags, MDBX_RDONLY) {
            (self, BeginView::Failed(MdbxError::AccessDenied))
        } else {
            match parent {
                None => if self.writers.len() > 0 {
                    if spec_has(flags, MDBX_TXN_TRY) {
                        (self, BeginView::Failed(MdbxError::Busy))
                    } else {
                        (self, BeginView::MustWait)
                    }
                } else if self.txnid == u64::MAX {
                    (self, BeginView::Failed(MdbxError::TxnFull))
                } else {
                    (
                        EnvView {
                            writers: seq![
                                WriterState {
                                    handle: self.next_handle,
                                    flags,
                                    dbs: self.dbs,
                                    space: self.space,
                                    freed: Seq::empty(),
                                },
                            ],
                            next_handle: (self.next_handle + 1) as u64,
                            ..self
                        },
                        BeginView::Started(TxnView { handle: self.next_handle, write: true, slot: 0 }),
                    )
                },
                Some(p) => if !self.is_top(p) {
                    (self, BeginView::Failed(MdbxError::BadTxn))
                } else {
                    (
                        EnvView {
                            writers: self.writers.push(
                                WriterState { handle: self.next_handle, flags, ..self.writers.last() },
                            ),
                            next_handle: (self.next_handle + 1) as u64,
                            ..self
                        },
                        BeginView::Started(
                            TxnView { handle: self.next_handle, write: true, slot: self.writers.len() },
                        ),
                    )
                },
            }
        }
    }

    /// Commits a transaction.
    ///
    /// A read transaction gives its slot back. A child hands what it has to
    /// its parent, which goes on with it. The outermost write transaction
    /// makes its version the committed one under the next transaction
    /// number, puts the pages that it freed on the free list under that
    /// number, and leaves the data unsynced if the environment or the
    /// transaction defers syncing. The readers keep their snapshots. A write
    /// transaction that has a child running, and a handle of no running
    /// transaction, is a bad transaction.
    pub open spec fn commit(self, t: TxnView) -> Result<EnvView, MdbxError> {
        if self.is_reader(t) {
            Ok(EnvView { readers: self.readers.update(t.slot as int, None), ..self })
        } else if !self.is_top(t) {
            Err(MdbxError::BadTxn)
        } else if self.writers.len() >= 2 {
            let child = self.writers.last();
            let parent = self.writers[self.writers.len() - 2];
            Ok(
                EnvView {
                    writers: self.writers.take(self.writers.len() - 2).push(
                        WriterState { handle: parent.handle, flags: parent.flags, ..child },
                    ),
                    ..self
                },
            )
        } else {
            let w = self.writers[0];
            let id = (self.txnid + 1) as u64;
            Ok(
                EnvView {
                    txnid: id,
                    dbs: w.dbs,
                    space: w.space.give(id, w.freed),
                    writers: Seq::empty(),
                    unsynced: self.unsynced || defers_sync(self.flags) || defers_sync(w.flags),
                    ..self
                },
            )
        }
    }

    /// Aborts a transaction: a read transaction gives its slot back; a
    /// write transaction goes, with its children, and leaves everything else
    /// as it was before it began. Aborting a running transaction always
    /// succeeds.
    pub open spec fn abort(self, t: TxnView) -> Result<EnvView, MdbxError> {
        if self.is_reader(t) {
            Ok(EnvView { readers: self.readers.update(t.slot as int, None), ..self })
        } else if self.is_writer(t) {
            Ok(EnvView { writers: self.writers.take(t.slot as int), ..self })
        } else {
            Err(MdbxError::BadTxn)
        }
    }

    /// Lets a read transaction give up its snapshot and keep its slot.
    pub open spec fn reset(self, t: TxnView) -> Result<EnvView, MdbxError> {
        if self.is_reader(t) && self.readers[t.slot as int]->0.live {
            Ok(
                EnvView {
                    readers: self.readers.update(
                        t.slot as int,
                        Some(
                            ReaderState {
                                live: false,
                                dbs: Seq::empty(),
                                ..self.readers[t.slot as int]->0
                            },
                        ),
                    ),
                    ..self
                },
            )
        } else {
            Err(MdbxError::BadTxn)
        }
    }

    /// Gives a read transaction that was reset a snapshot of the committed
    /// version.
    pub open spec fn renew(self, t: TxnView) -> Result<EnvView, MdbxError> {
        if self.is_reader(t) && !self.readers[t.slot as int]->0.live {
            Ok(
                EnvView {
                    readers: self.readers.update(
                        t.slot as int,
                        Some(
                            ReaderState {
                                live: true,
                                txnid: self.txnid,
                                dbs: self.dbs,
                                ..self.readers[t.slot as int]->0
                            },
                        ),
                    ),
                    ..self
                },
            )
        } else {
            Err(MdbxError::BadTxn)
        }
    }

    /// The number of the version that `t` works on: the snapshot of a
    /// reader, the number that a write transaction will commit under.
    pub open spec fn txn_id(self, t: TxnView) -> Result<u64, MdbxError> {
        if self.is_reader(t) && self.readers[t.slot as int]->0.live {
            Ok(self.readers[t.slot as int]->0.txnid)
        } else if self.is_writer(t) {
            Ok((self.txnid + 1) as u64)
        } else {
            Err(MdbxError::BadTxn)
        }
    }

    /// The flags of `t`: those it began with, and the state bits for a
    /// running child and for pages that it has changed.
    pub open spec fn txn_flags(self, t: TxnView) -> Result<u32, MdbxError> {
        if self.is_reader(t) {
            Ok(MDBX_TXN_RDONLY as u32)
        } else if self.is_writer(t) {
            let w = self.writers[t.slot as int];
            let child: u32 = if t.slot + 1 < self.writers.len() {
                MDBX_TXN_HAS_CHILD as u32
            } else {
                0
            };
            let changed: u32 = if exists|i: int|
                0 <= i < w.dbs.len() && (#[trigger] w.dbs[i]).mod_txnid > self.txnid {
                MDBX_TXN_DIRTY as u32
            } else {
                0
            };
            Ok(w.flags | child | changed)
        } else {
            Err(MdbxError::BadTxn)
        }
    }

    /// What the innermost write transaction leaves to the writes that
    /// follow, as far as sub-database `dbi` goes.
    pub open spec fn outcome(self, dbi: u32) -> Outcome {
        self.writers.last().outcome(dbi as int)
    }

    /// The environment with the innermost write transaction replaced.
    pub open spec fn with_top(self, w: WriterState) -> EnvView {
        EnvView { writers: self.writers.update(self.writers.len() - 1, w), ..self }
    }

    /// The value stored under `k` in sub-database `dbi`, as `t` sees it.
    pub open spec fn get(self, t: TxnView, dbi: u32, k: Seq<u8>) -> Result<Seq<u8>, MdbxError> {
        match self.sees(t) {
            None => Err(MdbxError::BadTxn),
            Some(dbs) => if !self.dbi_ok(dbs, dbi) {
                Err(MdbxError::BadDbi)
            } else {
                match dbs[dbi as int].db.get(k) {
                    Some(v) => Ok(v),
                    None => Err(MdbxError::NotFound),
                }
            },
        }
    }

    /// Puts a pair into sub-database `dbi`, as a put of its own or, with
    /// `many`, as one of the values of a put of several values. Only the
    /// innermost write transaction can; a reader is denied. The flag for
    /// several values must be set exactly where several values are put, else
    /// the argument is invalid. What the put does to the sub-database is what
    /// `WriterState::put` says.
    pub open spec fn put_one(
        self,
        t: TxnView,
        dbi: u32,
        k: Seq<u8>,
        v: Seq<u8>,
        flags: u32,
        many: bool,
        out: Outcome,
    ) -> Result<EnvView, MdbxError> {
        if self.is_reader(t) {
            Err(MdbxError::AccessDenied)
        } else if !self.is_top(t) {
            Err(MdbxError::BadTxn)
        } else if !self.dbi_ok(self.writers.last().dbs, dbi) {
            Err(MdbxError::BadDbi)
        } else {
            match PutFlags::spec_parse(flags) {
                Err(e) => Err(e),
                Ok(pf) => if pf.multiple != many {
                    Err(MdbxError::InvalidArgument)
                } else {
                    match self.writers.last().put(
                        dbi as int,
                        k,
                        v,
                        pf,
                        self.oldest(),
                        (self.txnid + 1) as u64,
                        out,
                    ) {
                        Err(e) => Err(e),
                        Ok(w) => Ok(self.with_top(w)),
                    }
                },
            }
        }
    }

    /// Puts a pair into sub-database `dbi`.
    pub open spec fn put(
        self,
        t: TxnView,
        dbi: u32,
        k: Seq<u8>,
        v: Seq<u8>,
        flags: u32,
        out: Outcome,
    ) -> Result<EnvView, MdbxError> {
        self.put_one(t, dbi, k, v, flags, false, out)
    }

    /// Deletes a key, or one pair of it, from sub-database `dbi`. Only the
    /// innermost write transaction can; a reader is denied. What the delete
    /// does to the sub-database is what `WriterState::del` says.
    pub open spec fn del(
        self,
        t: TxnView,
        dbi: u32,
        k: Seq<u8>,
        v: Option<Seq<u8>>,
        out: Outcome,
    ) -> Result<EnvView, MdbxError> {
        if self.is_reader(t) {
            Err(MdbxError::AccessDenied)
        } else if !self.is_top(t) {
            Err(MdbxError::BadTxn)
        } else if !self.dbi_ok(self.writers.last().dbs, dbi) {
            Err(MdbxError::BadDbi)
        } else {
            match self.writers.last().del(
                dbi as int,
                k,
                v,
                self.oldest(),
                (self.txnid + 1) as u64,
                out,
            ) {
                Err(e) => Err(e),
                Ok(w) => Ok(self.with_top(w)),
            }
        }
    }

    /// Opens a sub-database and returns its handle.
    ///
    /// The transaction must be usable, and the flags must parse. Without a
    /// name, or with an empty one, the main sub-database is meant. It opens
    /// with the flags it has; with other flags it opens only while it is
    /// empty and the transaction writes, and then takes them. A named
    /// sub-database that exists opens with the flags it has. With other
    /// flags, in both cases, it opens only if the caller accedes to what is
    /// stored; else the flags are incompatible. A named sub-database that
    /// does not exist is not found, unless the caller asks to create it: then
    /// it is created empty, if the transaction writes (else access is denied)
    /// and the environment admits another one (else the sub-databases are
    /// full).
    pub open spec fn dbi_open(self, t: TxnView, name: Option<Seq<u8>>, flags: u32) -> Result<
        (EnvView, u32),
        MdbxError,
    > {
        match self.sees(t) {
            None => Err(MdbxError::BadTxn),
            Some(dbs) => match DbFlags::spec_parse(flags) {
                Err(e) => Err(e),
                Ok(o) => if name is None || name->0.len() == 0 {
                    if o.flags == dbs[1].db.flags || o.accede {
                        Ok((self, MAIN_DBI))
                    } else if self.is_top(t) && dbs[1].db.entries.len() == 0 {
                        Ok(
                            (
                                self.with_top(
                                    WriterState {
                                        dbs: dbs.update(
                                            1,
                                            DbState { db: DbView::empty(o.flags), ..dbs[1] },
                                        ),
                                        ..self.writers.last()
                                    },
                                ),
                                MAIN_DBI,
                            ),
                        )
                    } else {
                        Err(MdbxError::Incompatible)
                    }
                } else {
                    match find_named(dbs, name->0) {
                        Some(i) => if o.flags == dbs[i].db.flags || o.accede {
                            Ok((EnvView { handles: with_handle(self.handles, i), ..self }, i as u32))
                        } else {
                            Err(MdbxError::Incompatible)
                        },
                        None => if !o.create {
                            Err(MdbxError::NotFound)
                        } else if !self.is_top(t) {
                            Err(MdbxError::AccessDenied)
                        } else if dbs.len() - 2 >= self.max_dbs {
                            Err(MdbxError::DbsFull)
                        } else {
                            Ok(
                                (
                                    EnvView {
                                        handles: with_handle(self.handles, dbs.len() as int),
                                        ..self.with_top(
                                            WriterState {
                                                dbs: dbs.push(
                                                    DbState {
                                                        name: name->0,
                                                        alive: true,
                                                        db: DbView::empty(o.flags),
                                                        mod_txnid: (self.txnid + 1) as u64,
                                                        depth: 0,
                                                        leaves: 0,
                                                        branches: 0,
                                                    },
                                                ),
                                                ..self.writers.last()
                                            },
                                        )
                                    },
                                    dbs.len() as u32,
                                ),
                            )
                        },
                    }
                },
            },
        }
    }

    /// Closes the handle of a named sub-database. The handles of the free
    /// list and of the main sub-database cannot be closed.
    pub open spec fn dbi_close(self, dbi: u32) -> Result<EnvView, MdbxError> {
        if dbi < 2 || dbi >= self.handles.len() || !self.handles[dbi as int] {
            Err(MdbxError::BadDbi)
        } else {
            Ok(EnvView { handles: self.handles.update(dbi as int, false), ..self })
        }
    }

    /// Empties sub-database `dbi`, and with `del` deletes it and closes its
    /// handle. The main sub-database is emptied but never deleted. Only the
    /// innermost write transaction can; a reader is denied.
    pub open spec fn drop(self, t: TxnView, dbi: u32, del: bool, out: Outcome) -> Result<
        EnvView,
        MdbxError,
    > {
        if self.is_reader(t) {
            Err(MdbxError::AccessDenied)
        } else if !self.is_top(t) {
            Err(MdbxError::BadTxn)
        } else if !self.dbi_ok(self.writers.last().dbs, dbi) {
            Err(MdbxError::BadDbi)
        } else {
            let w = self.writers.last();
            let id = (self.txnid + 1) as u64;
            let e = w.write(dbi as int, DbView::empty(w.dbs[dbi as int].db.flags), id, out);
            if del && dbi >= 2 {
                Ok(
                    EnvView {
                        handles: self.handles.update(dbi as int, false),
                        ..self.with_top(
                            WriterState {
                                dbs: e.dbs.update(
                                    dbi as int,
                                    DbState { alive: false, ..e.dbs[dbi as int] },
                                ),
                                ..e
                            },
                        )
                    },
                )
            } else {
                Ok(self.with_top(e))
            }
        }
    }

    /// The figures of sub-database `dbi` as `t` sees it.
    pub open spec fn dbi_stat(self, t: TxnView, dbi: u32) -> Result<MDBX_stat, MdbxError> {
        match self.sees(t) {
            None => Err(MdbxError::BadTxn),
            Some(dbs) => if !self.dbi_ok(dbs, dbi) {
                Err(MdbxError::BadDbi)
            } else {
                Ok(stat_of(dbs[dbi as int], self.geometry.page_size))
            },
        }
    }

    /// The flags of sub-database `dbi` as `t` sees it, as a flag word.
    pub open spec fn dbi_flags(self, t: TxnView, dbi: u32) -> Result<u32, MdbxError> {
        match self.sees(t) {
            None => Err(MdbxError::BadTxn),
            Some(dbs) => if !self.dbi_ok(dbs, dbi) {
                Err(MdbxError::BadDbi)
            } else {
                Ok(dbs[dbi as int].db.flags.spec_bits() as u32)
            },
        }
    }

    /// The figures of the main sub-database: as `t` sees it, or as it is
    /// committed where no transaction is given.
    pub open spec fn env_stat(self, t: Option<TxnView>) -> Result<MDBX_stat, MdbxError> {
        match t {
            None => Ok(stat_of(self.dbs[1], self.geometry.page_size)),
            Some(x) => match self.sees(x) {
                None => Err(MdbxError::BadTxn),
                Some(dbs) => Ok(stat_of(dbs[1], self.geometry.page_size)),
            },
        }
    }

    /// The figures of the environment.
    pub open spec fn info(self) -> EnvInfo {
        EnvInfo {
            page_size: self.geometry.page_size,
            pages: self.space.next,
            page_limit: self.space.limit,
            free_pages: free_total(self.space.free),
            recent_txnid: self.txnid,
            oldest_reader: self.oldest(),
            readers: readers_in_use(self.readers),
            unsynced: self.unsynced,
        }
    }
}

/// The figures of a sub-database.
#[derive(Debug, Copy, Clone, PartialEq, Eq, Structural)]
pub struct MDBX_stat {
    /// The size of a page.
    pub ms_psize: u32,
    /// The height of the tree.
    pub ms_depth: u32,
    /// The number of branch pages.
    pub ms_branch_pages: u64,
    /// The number of leaf pages.
    pub ms_leaf_pages: u64,
    /// The number of overflow pages.
    pub ms_overflow_pages: u64,
    /// The number of pairs.
    pub ms_entries: u64,
    /// The transaction that last changed the sub-database.
    pub ms_mod_txnid: u64,
}

impl Default for MDBX_stat {
    fn default() -> (s: MDBX_stat)
        ensures
            s == (MDBX_stat {
                ms_psize: 0,
                ms_depth: 0,
                ms_branch_pages: 0,
                ms_leaf_pages: 0,
                ms_overflow_pages: 0,
                ms_entries: 0,
                ms_mod_txnid: 0,
            }),
    {
        MDBX_stat {
            ms_psize: 0,
            ms_depth: 0,
            ms_branch_pages: 0,
            ms_leaf_pages: 0,
            ms_overflow_pages: 0,
            ms_entries: 0,
            ms_mod_txnid: 0,
        }
    }
}

/// The figures of the sub-database `d` in a file with pages of `page_size`
/// bytes. The number of pairs stops at the largest number that fits.
pub open spec fn stat_of(d: DbState, page_size: u64) -> MDBX_stat {
    MDBX_stat {
        ms_psize: page_size as u32,
        ms_depth: d.depth as u32,
        ms_branch_pages: if d.branches > u64::MAX { u64::MAX } else { d.branches as u64 },
        ms_leaf_pages: if d.leaves > u64::MAX { u64::MAX } else { d.leaves as u64 },
        ms_overflow_pages: 0,
        ms_entries: if d.db.pairs() > u64::MAX { u64::MAX } else { d.db.pairs() as u64 },
        ms_mod_txnid: d.mod_txnid,
    }
}

/// The figures of an environment.
#[derive(Debug, Copy, Clone, PartialEq, Eq, Structural)]
pub struct EnvInfo {
    /// The size of a page.
    pub page_size: u64,
    /// The number of pages of the file.
    pub pages: u64,
    /// The number of pages that the file may have.
    pub page_limit: u64,
    /// The number of pages on the free list; it stops at the largest number
    /// that fits.
    pub free_pages: u64,
    /// The last committed transaction.
    pub recent_txnid: u64,
    /// The oldest snapshot that a reader pins.
    pub oldest_reader: Option<u64>,
    /// The number of slots of the reader table that are taken.
    pub readers: u32,
    /// Whether committed data is not yet synced.
    pub unsynced: bool,
}

/// The number of pages in the given records; it stops at the largest
/// number that fits.
pub open spec fn free_total(free: Seq<crate::space::FreeView>) -> u64 {
    if crate::space::free_count(free) > u64::MAX {
        u64::MAX
    } else {
        crate::space::free_count(free) as u64
    }
}

/// The number of slots that are taken.
pub open spec fn taken_slots(readers: Seq<Option<ReaderState>>) -> nat
    decreases readers.len(),
{
    if readers.len() == 0 {
        0
    } else {
        taken_slots(readers.drop_last()) + if readers.last() is Some { 1nat } else { 0nat }
    }
}

/// The number of slots that are taken; it stops at the largest number that
/// fits.
pub open spec fn readers_in_use(readers: Seq<Option<ReaderState>>) -> u32 {
    let n = taken_slots(readers);
    if n > u32::MAX {
        u32::MAX
    } else {
        n as u32
    }
}

/// A cursor: the transaction and sub-database that it belongs to, and the
/// pair that it last stood on.
pub struct CursorView {
    pub txn: TxnView,
    pub dbi: u32,
    pub at: Option<(Seq<u8>, Seq<u8>)>,
}

/// What a cursor operation returns.
pub struct FoundView {
    /// The key of the pair that was found.
    pub key: Seq<u8>,
    /// Its value; or several values of the key, one after the other.
    pub data: Seq<u8>,
    /// Whether the pair is the very pair that was asked for.
    pub exact: bool,
}

/// The byte strings one after the other.
pub open spec fn joined(vals: Seq<Seq<u8>>) -> Seq<u8>
    decreases vals.len(),
{
    if vals.len() == 0 {
        Seq::empty()
    } else {
        joined(vals.drop_last()) + vals.last()
    }
}

impl DbView {
    /// What an operation that returns several values at once finds: the
    /// entry, and the range of its values that are returned. The values of a
    /// key stand on one page, so all of them that the operation reaches are
    /// returned: from the current value on, those after the current value,
    /// those before it, or all values of the key `k`.
    pub open spec fn seek_many(self, at: Option<(Seq<u8>, Seq<u8>)>, op: MDBX_cursor_op, k: Seq<u8>) -> Result<
        (int, int, int),
        MdbxError,
    > {
        if !self.flags.dup_fixed {
            Err(MdbxError::Incompatible)
        } else {
            match op {
                MDBX_cursor_op::MDBX_SEEK_AND_GET_MULTIPLE => match self.find(k) {
                    Some(i) => Ok((i, 0, self.entries[i].vals.len() as int)),
                    None => Err(MdbxError::NotFound),
                },
                _ => match at {
                    None => Err(MdbxError::NoData),
                    Some((ck, cv)) => match self.find(ck) {
                        None => Err(MdbxError::NotFound),
                        Some(i) => {
                            let n = self.entries[i].vals.len() as int;
                            match op {
                                MDBX_cursor_op::MDBX_GET_MULTIPLE => match self.exactly(ck, cv) {
                                    Some(s) => Ok((i, s.val, n)),
                                    None => Err(MdbxError::NotFound),
                                },
                                MDBX_cursor_op::MDBX_NEXT_MULTIPLE => if self.val_above(i, cv) < n {
                                    Ok((i, self.val_above(i, cv), n))
                                } else {
                                    Err(MdbxError::NotFound)
                                },
                                MDBX_cursor_op::MDBX_PREV_MULTIPLE => if self.val_from(i, cv) > 0 {
                                    Ok((i, 0, self.val_from(i, cv)))
                                } else {
                                    Err(MdbxError::NotFound)
                                },
                                _ => Err(MdbxError::InvalidArgument),
                            }
                        },
                    },
                },
            }
        }
    }
}

impl EnvView {
    /// A cursor on sub-database `dbi` for the transaction `t`, without a
    /// position.
    pub open spec fn cursor_open(self, t: TxnView, dbi: u32) -> Result<CursorView, MdbxError> {
        match self.sees(t) {
            None => Err(MdbxError::BadTxn),
            Some(dbs) => if !self.dbi_ok(dbs, dbi) {
                Err(MdbxError::BadDbi)
            } else {
                Ok(CursorView { txn: t, dbi, at: None })
            },
        }
    }

    /// What a cursor operation finds, and where it leaves the cursor. A
    /// cursor whose transaction is finished is of a bad transaction. An
    /// operation for one pair finds what `DbView::seek` says and leaves the
    /// cursor on it. An operation for several values finds what
    /// `DbView::seek_many` says; a forward one leaves the cursor on the last
    /// value that it returned, a backward one on the first. An operation
    /// that fails leaves the cursor where it was.
    pub open spec fn cursor_get(self, c: CursorView, op: MDBX_cursor_op, k: Seq<u8>, v: Seq<u8>) -> Result<
        (CursorView, FoundView),
        MdbxError,
    > {
        match self.sees(c.txn) {
            None => Err(MdbxError::BadTxn),
            Some(dbs) => if !self.dbi_ok(dbs, c.dbi) {
                Err(MdbxError::BadDbi)
            } else {
                let db = dbs[c.dbi as int].db;
                if op_kind(op) == OpKind::Multiple {
                    match db.seek_many(c.at, op, k) {
                        Err(e) => Err(e),
                        Ok((i, from, to)) => {
                            let e = db.entries[i];
                            let stop = if op == MDBX_cursor_op::MDBX_PREV_MULTIPLE {
                                from
                            } else {
                                to - 1
                            };
                            Ok(
                                (
                                    CursorView { at: Some((e.key, e.vals[stop])), ..c },
                                    FoundView {
                                        key: e.key,
                                        data: joined(e.vals.subrange(from, to)),
                                        exact: true,
                                    },
                                ),
                            )
                        },
                    }
                } else {
                    match db.seek(c.at, op, k, v) {
                        Err(e) => Err(e),
                        Ok(s) => Ok(
                            (
                                CursorView { at: Some(db.pair_at(s)), ..c },
                                FoundView {
                                    key: db.pair_at(s).0,
                                    data: db.pair_at(s).1,
                                    exact: db.seek_exact(op, k, v, s),
                                },
                            ),
                        ),
                    }
                }
            },
        }
    }

    /// Whether a put through the cursor `c` replaces the value at the
    /// position in its place: the put carries the flag for the current
    /// position and not the flag for several values, and the sub-database has
    /// sorted duplicates.
    pub open spec fn replaces_in_place(self, c: CursorView, flags: u32) -> bool {
        &&& self.is_top(c.txn)
        &&& self.dbi_ok(self.writers.last().dbs, c.dbi)
        &&& PutFlags::spec_parse(flags) matches Ok(pf) && pf.current && !pf.multiple && pf.fits(
            self.writers.last().dbs[c.dbi as int].db.flags,
        )
        &&& self.writers.last().dbs[c.dbi as int].db.flags.dup_sort
    }

    /// A put through a cursor. It does what `put` does and leaves the
    /// cursor on the pair. With the flag for the current position in a
    /// sub-database with sorted duplicates it replaces the value that the
    /// cursor stands on in its place, as `DbView::swap` says: the cursor must
    /// have a position, else there is no data, and the key must be the key
    /// of the position, else it is a key mismatch.
    pub open spec fn cursor_put(
        self,
        c: CursorView,
        k: Seq<u8>,
        v: Seq<u8>,
        flags: u32,
        out: Outcome,
    ) -> Result<(EnvView, CursorView), MdbxError> {
        let moved = CursorView { at: Some((k, v)), ..c };
        if self.replaces_in_place(c, flags) {
            let w = self.writers.last();
            match c.at {
                None => Err(MdbxError::NoData),
                Some((ck, cv)) => if ck != k {
                    Err(MdbxError::KeyMismatch)
                } else {
                    match w.dbs[c.dbi as int].db.swap(k, cv, v) {
                        Err(e) => Err(e),
                        Ok(d) => match w.change(
                            c.dbi as int,
                            d,
                            self.oldest(),
                            (self.txnid + 1) as u64,
                            out,
                        ) {
                            Err(e) => Err(e),
                            Ok(w2) => Ok((self.with_top(w2), moved)),
                        },
                    }
                },
            }
        } else {
            match self.put(c.txn, c.dbi, k, v, flags, out) {
                Err(e) => Err(e),
                Ok(env) => Ok((env, moved)),
            }
        }
    }

    /// A delete through a cursor: the pair that the cursor stands on goes,
    /// or with a flag for all duplicates its key with all values. The cursor
    /// keeps its position. Without a position there is no data; a pair that
    /// is gone already is not found.
    pub open spec fn cursor_del(self, c: CursorView, flags: u32, out: Outcome) -> Result<
        EnvView,
        MdbxError,
    > {
        if self.is_reader(c.txn) {
            Err(MdbxError::AccessDenied)
        } else if !self.is_top(c.txn) {
            Err(MdbxError::BadTxn)
        } else if !self.dbi_ok(self.writers.last().dbs, c.dbi) {
            Err(MdbxError::BadDbi)
        } else if flags & !((MDBX_ALLDUPS as u32) | (MDBX_NODUPDATA as u32)) != 0 {
            Err(MdbxError::InvalidArgument)
        } else {
            match c.at {
                None => Err(MdbxError::NoData),
                Some((ck, cv)) => if self.writers.last().dbs[c.dbi as int].db.exactly(ck, cv) is None {
                    Err(MdbxError::NotFound)
                } else {
                    self.del(
                        c.txn,
                        c.dbi,
                        ck,
                        if flags != 0 {
                            None
                        } else {
                            Some(cv)
                        },
                        out,
                    )
                },
            }
        }
    }

    /// The number of values of the key that the cursor stands on.
    pub open spec fn cursor_count(self, c: CursorView) -> Result<nat, MdbxError> {
        match self.sees(c.txn) {
            None => Err(MdbxError::BadTxn),
            Some(dbs) => if !self.dbi_ok(dbs, c.dbi) {
                Err(MdbxError::BadDbi)
            } else {
                match c.at {
                    None => Err(MdbxError::NoData),
                    Some((ck, cv)) => if dbs[c.dbi as int].db.count(ck) == 0 {
                        Err(MdbxError::NotFound)
                    } else {
                        Ok(dbs[c.dbi as int].db.count(ck))
                    },
                }
            },
        }
    }

    /// The sign of comparing the keys `a` and `b` in the order of
    /// sub-database `dbi`: -1, 0 or 1.
    pub open spec fn compare_keys(self, t: TxnView, dbi: u32, a: Seq<u8>, b: Seq<u8>) -> Result<
        int,
        MdbxError,
    > {
        match self.sees(t) {
            None => Err(MdbxError::BadTxn),
            Some(dbs) => if !self.dbi_ok(dbs, dbi) {
                Err(MdbxError::BadDbi)
            } else {
                Ok(crate::order::bytes_sign(dbs[dbi as int].db.flags.key_order(), a, b))
            },
        }
    }

    /// The sign of comparing the values `a` and `b` in the order of
    /// sub-database `dbi`: -1, 0 or 1.
    pub open spec fn compare_vals(self, t: TxnView, dbi: u32, a: Seq<u8>, b: Seq<u8>) -> Result<
        int,
        MdbxError,
    > {
        match self.sees(t) {
            None => Err(MdbxError::BadTxn),
            Some(dbs) => if !self.dbi_ok(dbs, dbi) {
                Err(MdbxError::BadDbi)
            } else {
                Ok(crate::order::bytes_sign(dbs[dbi as int].db.flags.dup_order(), a, b))
            },
        }
    }
}

} // verus!
