//! The environment: the pages, the committed version, the reader table and
//! the running write transaction, behind opaque handles.
use crate::constants::{
    MDBX_ACCEDE, MDBX_COALESCE, MDBX_EXCLUSIVE, MDBX_LIFORECLAIM, MDBX_MAX_DBI, MDBX_NOMEMINIT,
    MDBX_NOMETASYNC, MDBX_NORDAHEAD, MDBX_NOSTICKYTHREADS, MDBX_NOSUBDIR, MDBX_PAGEPERTURB,
    MDBX_RDONLY, MDBX_SAFE_NOSYNC, MDBX_VALIDATION, MDBX_WRITEMAP,
};
use crate::error::MdbxError;
use crate::flags::{has, DbFlags};
use crate::space::{Space, SpaceView};
use crate::state::{
    default_geometry, page_limit, page_size_ok, spec_env_flag_mask, spec_env_runtime_mask, EnvView,
    Geometry, ReaderState, TxnView, DEFAULT_MAX_READERS,
};
use crate::btree::{lemma_low, Tree};
use crate::pager::{arena_map, Pager};
use crate::store::{reader_ok, uses, version_ok, version_view, DbRecord, Level, ReaderSlot};
use crate::tree::Page;
use crate::write::{level_view, Ground};
use vstd::prelude::*;


pub mod compare;
pub mod cursor;
pub mod data;
pub mod dbi;
pub mod txn;

verus! {

/// An environment. It owns every page and every transaction's state; the
/// handles that callers hold only name what is in here.
pub struct MDBX_env {
    open: bool,
    flags: u32,
    max_dbs: u32,
    max_readers: u32,
    geo: Geometry,
    made_with: Option<u64>,
    txnid: u64,
    dbs: Vec<DbRecord>,
    space: Space,
    arena: Vec<Page>,
    readers: Vec<ReaderSlot>,
    writers: Vec<Level>,
    handles: Vec<bool>,
    next_handle: u64,
    unsynced: bool,
    /// The number of items that a page holds at most.
    cap: usize,
    /// A pager without pages, through which the committed pages are read.
    idle: Pager,
}

/// The number of items that a page of `page_size` bytes holds at most.
pub open spec fn fan_out(page_size: u64) -> nat {
    (page_size / 32) as nat
}

/// A transaction handle. It names a transaction of an environment and stays
/// a plain value: once the transaction is finished, every call that is
/// given the handle reports a bad transaction.
#[derive(Debug, Copy, Clone)]
pub struct MDBX_txn {
    handle: u64,
    write: bool,
    slot: usize,
}

impl View for MDBX_txn {
    type V = TxnView;

    closed spec fn view(&self) -> TxnView {
        TxnView { handle: self.handle, write: self.write, slot: self.slot as nat }
    }
}

/// What a slot of the reader table stands for.
pub open spec fn reader_view(r: ReaderSlot, arena: Seq<Page>) -> Option<ReaderState> {
    if r.used {
        Some(
            ReaderState {
                handle: r.handle,
                live: r.live,
                txnid: r.txnid,
                dbs: if r.live {
                    version_view(r.dbs@, arena_map(arena))
                } else {
                    Seq::empty()
                },
            },
        )
    } else {
        None
    }
}

impl MDBX_env {
    /// What stands still while a write transaction works.
    pub closed spec fn ground(&self) -> Ground {
        Ground {
            arena: self.arena@,
            dbs: self.dbs@,
            space: self.space@,
            txnid: self.txnid,
            readers: self.readers@,
            cap: self.cap as nat,
        }
    }

    /// The environment as a mathematical value.
    pub closed spec fn view(&self) -> EnvView {
        EnvView {
            open: self.open,
            flags: self.flags,
            max_dbs: self.max_dbs,
            max_readers: self.max_readers,
            geometry: self.geo,
            made_with: self.made_with,
            txnid: self.txnid,
            dbs: version_view(self.dbs@, arena_map(self.arena@)),
            space: self.space@,
            readers: Seq::new(self.readers@.len(), |i: int| reader_view(self.readers@[i], self.arena@)),
            writers: Seq::new(self.writers@.len(), |i: int| level_view(self.writers@[i], self.arena@)),
            handles: self.handles@,
            next_handle: self.next_handle,
            unsynced: self.unsynced,
        }
    }

    /// The invariant of the environment. Every call keeps it.
    pub closed spec fn wf(&self) -> bool {
        &&& self.ground().ok()
        &&& forall|l: int|
            0 <= l < self.writers@.len() ==> self.ground().bears(#[trigger] self.writers@[l])
        &&& self.space.limit == page_limit(self.geo)
        &&& page_size_ok(self.geo.page_size as int)
        &&& self.geo.size_lower <= self.geo.size_now <= self.geo.size_upper
        &&& self.geo.size_upper <= isize::MAX
        &&& 1 <= self.max_readers
        &&& self.max_dbs <= MDBX_MAX_DBI
        &&& self.readers@.len() <= self.max_readers
        &&& !self.open ==> self.writers@.len() == 0 && self.readers@.len() == 0
        &&& self.open ==> self.made_with == Some(self.geo.page_size)
        &&& self.handles@.len() >= 2
        &&& self.handles@[1]
        &&& self.writers@.len() > 0 ==> self.txnid < u64::MAX
        &&& forall|i: int|
            0 <= i < self.readers@.len() && (#[trigger] self.readers@[i]).used
                ==> self.readers@[i].handle < self.next_handle
        &&& forall|i: int|
            0 <= i < self.readers@.len() && !(#[trigger] self.readers@[i]).used
                ==> !self.readers@[i].live
        &&& forall|l: int|
            0 <= l < self.writers@.len() ==> (#[trigger] self.writers@[l]).handle
                < self.next_handle
        &&& 4 <= self.cap
        &&& self.cap % 2 == 0
        &&& 2 * self.cap <= usize::MAX
        &&& self.made_with matches Some(ps) ==> self.cap == fan_out(ps)
        &&& self.made_with is None ==> forall|i: int|
            0 <= i < self.dbs@.len() ==> (#[trigger] self.dbs@[i]).tree.count == 0
        &&& self.idle.wf()
        &&& self.idle.over@.len() == 0
    }
}

impl MDBX_env {
    /// Whether a committed sub-database uses page `p`: the page belongs to
    /// its tree.
    pub closed spec fn uses_page(&self, p: u64) -> bool {
        uses(self.dbs@, arena_map(self.arena@), p)
    }

    /// Whether a sub-database of the innermost write transaction uses page
    /// `p`.
    pub closed spec fn writer_uses_page(&self, p: u64) -> bool {
        self.writers@.len() > 0 && uses(
            self.writers@.last().dbs@,
            self.writers@.last().pager.map(self.arena@),
            p,
        )
    }
}

/// No page of the file is lost, and none is counted twice: every page of
/// the committed file is used by a committed sub-database or is on the free
/// list, and never both.
pub proof fn law_no_page_is_lost(env: MDBX_env, p: u64)
    requires
        env.wf(),
        p < env@.space.next,
    ensures
        env.uses_page(p) != env@.space.lists(p),
{
    let g = env.ground();
    assert(crate::store::stands(g.dbs, arena_map(g.arena), g.space, p));
}

/// A write transaction loses no page: every page of the file as the
/// transaction has it is used by a sub-database of its version, or is on
/// its free list, or was given up by it, and only one of the three.
pub proof fn law_writer_loses_no_page(env: MDBX_env, p: u64)
    requires
        env.wf(),
        env@.writers.len() > 0,
        p < env@.writers.last().space.next,
    ensures
        env.writer_uses_page(p) || env@.writers.last().space.lists(p) || env@.writers.last().freed.contains(p),
        !(env.writer_uses_page(p) && env@.writers.last().space.lists(p)),
        !(env.writer_uses_page(p) && env@.writers.last().freed.contains(p)),
        !(env@.writers.last().space.lists(p) && env@.writers.last().freed.contains(p)),
{
    let g = env.ground();
    let l = env.writers@.last();
    let m = l.pager.map(env.arena@);
    assert(g.bears(l));
    assert(crate::store::accounted(l.dbs@, l.pager, m, p));
    if uses(l.dbs@, m, p) {
        let i = choose|i: int| 0 <= i < l.dbs@.len() && (#[trigger] l.dbs@[i]).tree.has(m, p);
        assert(l.dbs@[i].tree.in_use(l.pager, m));
        reveal(crate::grow::live);
    }
    if l.pager.freed@.contains(p) {
        let j = choose|j: int| 0 <= j < l.pager.freed@.len() && l.pager.freed@[j] == p;
        assert(!l.pager.space@.lists(l.pager.freed@[j]));
    }
}

/// Every environment is valid: whatever was done to an environment through
/// this library, its value is one of which `EnvView::valid` holds.
pub proof fn law_environment_is_valid(env: MDBX_env)
    requires
        env.wf(),
    ensures
        env@.valid(),
{
    let g = env.ground();
    let v = env@;
    let am = arena_map(env.arena@);
    lemma_version_valid(env.dbs@, am, g.cap);
    crate::count::lemma_pages_add_up(g.arena, g.dbs, g.space, g.txnid, g.cap);
    assert forall|s: int| 0 <= s < v.readers.len() implies ((#[trigger] v.readers[s]) matches Some(r)
        ==> r.handle < v.next_handle && (r.live ==> crate::state::version_valid(r.dbs) && r.txnid
        <= v.txnid)) by {
        let r = env.readers@[s];
        assert(reader_ok(g.arena, g.space, g.txnid, g.readers[s], g.cap));
        if r.pins() {
            lemma_version_valid(r.dbs@, am, g.cap);
        }
    }
    assert forall|l: int| 0 <= l < v.writers.len() implies crate::state::version_valid(
        (#[trigger] v.writers[l]).dbs,
    ) && v.writers[l].space.wf() && v.writers[l].handle < v.next_handle && v.writers[l].space.next
        == crate::state::pages_sum(v.writers[l].dbs) + crate::space::free_count(
        v.writers[l].space.free,
    ) + v.writers[l].freed.len() by {
        assert(g.bears(env.writers@[l]));
        lemma_version_valid(env.writers@[l].dbs@, env.writers@[l].pager.map(env.arena@), g.cap);
        crate::count::lemma_level_pages_add_up(g.arena, g.dbs, g.space, g.readers, env.writers@[l], g.cap);
    }
}

/// A version that is in order is valid as callers see it.
pub proof fn lemma_version_valid(dbs: Seq<DbRecord>, m: crate::tree::Pages, cap: nat)
    requires
        version_ok(dbs, m, cap),
    ensures
        crate::state::version_valid(version_view(dbs, m)),
{
    let v = version_view(dbs, m);
    assert forall|i: int| 0 <= i < v.len() implies crate::state::db_state_ok(#[trigger] v[i]) by {
        assert(dbs[i].ok(m, cap));
        let t = dbs[i].tree;
        if t.count > 0 {
            lemma_low(m, t, cap);
            crate::btree::lemma_height(m, t.root, t.height as nat, t.count as nat, cap);
            crate::tree::lemma_census(m, t.root, t.height as nat, t.count as nat, cap);
        }
    }
    assert(dbs[0].ok(m, cap) && dbs[1].ok(m, cap));
}

/// The pager without pages shows the committed pages.
pub proof fn lemma_idle(idle: Pager, arena: Seq<Page>)
    requires
        idle.over@.len() == 0,
    ensures
        idle.map(arena) == arena_map(arena),
{
    assert(idle.map(arena) =~= arena_map(arena));
}

/// The record of a sub-database without entries.
fn empty_record(alive: bool) -> (r: DbRecord)
    ensures
        r.name@.len() == 0,
        r.flags == DbFlags::plain(),
        r.alive == alive,
        r.tree.count == 0,
        r.mod_txnid == 0,
{
    DbRecord {
        name: Vec::new(),
        flags: DbFlags {
            reverse_key: false,
            dup_sort: false,
            integer_key: false,
            dup_fixed: false,
            integer_dup: false,
            reverse_dup: false,
        },
        alive,
        tree: Tree { root: 0, height: 0, count: 0 },
        mod_txnid: 0,
    }
}

/// Creates an environment: closed, empty, with the default settings.
pub fn mdbx_env_create() -> (env: MDBX_env)
    ensures
        env.wf(),
        env@ == EnvView::fresh(),
{
    let geo = Geometry {
        size_lower: 0,
        size_now: 0,
        size_upper: 0x4000_0000,
        growth_step: 0x100_0000,
        shrink_threshold: 0x200_0000,
        page_size: 4096,
    };
    let mut dbs: Vec<DbRecord> = Vec::new();
    dbs.push(empty_record(false));
    dbs.push(empty_record(true));
    let mut handles: Vec<bool> = Vec::new();
    handles.push(false);
    handles.push(true);
    let env = MDBX_env {
        open: false,
        flags: 0,
        max_dbs: 0,
        max_readers: DEFAULT_MAX_READERS,
        geo,
        made_with: None,
        txnid: 0,
        dbs,
        space: Space::new(0x4000_0000 / 4096),
        arena: Vec::new(),
        readers: Vec::new(),
        writers: Vec::new(),
        handles,
        next_handle: 1,
        unsynced: false,
        cap: 128,
        idle: Pager { over: Vec::new(), space: Space::new(0), freed: Vec::new() },
    };
    proof {
        let v = env@;
        let f = EnvView::fresh();
        let am = arena_map(env.arena@);
        assert(geo == default_geometry());
        assert(v.dbs =~= f.dbs) by {
            assert(v.dbs.len() == 2);
            assert(env.dbs@[0].name@ =~= Seq::empty());
            assert(env.dbs@[1].name@ =~= Seq::empty());
        }
        assert(v.readers =~= f.readers);
        assert(v.writers =~= f.writers);
        assert(v.handles =~= f.handles);
        assert(v.space == f.space);
        assert forall|i: int| 0 <= i < env.dbs@.len() implies (#[trigger] env.dbs@[i]).ok(am, 128) by {}
        assert forall|p: u64| !uses(env.dbs@, am, p) by {
            if uses(env.dbs@, am, p) {
                let i = choose|i: int| 0 <= i < env.dbs@.len() && (#[trigger] env.dbs@[i]).tree.has(am, p);
            }
        }
    }
    env
}

/// Turns a size that a caller gave into the size to store: -1 keeps
/// `current`, a negative size is refused.
fn pick_size(given: isize, current: u64) -> (r: Option<u64>)
    ensures
        given < -1 ==> r is None,
        given == -1 ==> r == Some(current),
        given >= 0 ==> r == Some(given as u64),
{
    if given < -1 {
        None
    } else if given == -1 {
        Some(current)
    } else {
        Some(given as u64)
    }
}

/// Whether `n` can be the size of a page.
pub fn is_page_size(n: u64) -> (b: bool)
    ensures
        b == page_size_ok(n as int),
{
    n == 256 || n == 512 || n == 1024 || n == 2048 || n == 4096 || n == 8192 || n == 16384 || n
        == 32768 || n == 65536
}

/// Sets the sizes of the file; -1 keeps what is set.
pub fn mdbx_env_set_geometry(
    env: &mut MDBX_env,
    size_lower: isize,
    size_now: isize,
    size_upper: isize,
    growth_step: isize,
    shrink_threshold: isize,
    pagesize: isize,
) -> (r: Result<(), MdbxError>)
    requires
        old(env).wf(),
    ensures
        final(env).wf(),
        match old(env)@.set_geometry(
            size_lower as int,
            size_now as int,
            size_upper as int,
            growth_step as int,
            shrink_threshold as int,
            pagesize as int,
        ) {
            Ok(v) => r is Ok && final(env)@ == v,
            Err(e) => r == Err::<(), MdbxError>(e) && final(env)@ == old(env)@,
        },
{
    if env.open {
        return Err(MdbxError::NotPermitted);
    }
    let lower = pick_size(size_lower, env.geo.size_lower);
    let now = pick_size(size_now, env.geo.size_now);
    let upper = pick_size(size_upper, env.geo.size_upper);
    let growth = pick_size(growth_step, env.geo.growth_step);
    let shrink = pick_size(shrink_threshold, env.geo.shrink_threshold);
    let page = pick_size(pagesize, env.geo.page_size);
    match (lower, now, upper, growth, shrink, page) {
        (Some(lower), Some(now), Some(upper), Some(growth), Some(shrink), Some(page)) => {
            if !is_page_size(page) || lower > now || now > upper {
                return Err(MdbxError::InvalidArgument);
            }
            let g = Geometry {
                size_lower: lower,
                size_now: now,
                size_upper: upper,
                growth_step: growth,
                shrink_threshold: shrink,
                page_size: page,
            };
            let limit = upper / page;
            if limit < env.space.next {
                return Err(MdbxError::TooLarge);
            }
            env.geo = g;
            env.space.limit = limit;
            proof {
                lemma_limit_change(*old(env), *env);
            }
            Ok(())
        },
        _ => Err(MdbxError::InvalidArgument),
    }
}

/// Changing how far the file may grow, above what it has grown to, keeps
/// the invariant of what is committed.
proof fn lemma_limit_change(a: MDBX_env, b: MDBX_env)
    requires
        a.wf(),
        !a.open,
        b.space@ == (SpaceView { limit: b.space.limit, ..a.space@ }),
        b.space.limit >= a.space.next,
        b.space.limit == page_limit(b.geo),
        page_size_ok(b.geo.page_size as int),
        b.geo.size_lower <= b.geo.size_now <= b.geo.size_upper,
        b.geo.size_upper <= isize::MAX,
        b.arena == a.arena,
        b.dbs == a.dbs,
        b.txnid == a.txnid,
        b.readers == a.readers,
        b.writers == a.writers,
        b.handles == a.handles,
        b.next_handle == a.next_handle,
        b.max_readers == a.max_readers,
        b.max_dbs == a.max_dbs,
        b.open == a.open,
        b.made_with == a.made_with,
        b.cap == a.cap,
        b.idle == a.idle,
    ensures
        b.wf(),
{
    let sa = a.space@;
    let sb = b.space@;
    assert(sb.free == sa.free);
    assert forall|p: u64| sb.lists(p) implies sa.lists(p) by {
        let (r, j) = choose|r: int, j: int|
            0 <= r < sb.free.len() && 0 <= j < sb.free[r].pages.len()
                && #[trigger] sb.free[r].pages[j] == p;
        assert(sa.free[r].pages[j] == p);
    }
    assert forall|p: u64| sa.lists(p) implies sb.lists(p) by {
        let (r, j) = choose|r: int, j: int|
            0 <= r < sa.free.len() && 0 <= j < sa.free[r].pages.len()
                && #[trigger] sa.free[r].pages[j] == p;
        assert(sb.free[r].pages[j] == p);
    }
    assert forall|p: u64| p < sb.next implies #[trigger] crate::store::stands(
        b.dbs@,
        arena_map(b.arena@),
        sb,
        p,
    ) by {
        assert(crate::store::stands(a.dbs@, arena_map(a.arena@), sa, p));
    }
}

/// Sets how many named sub-databases the environment admits.
pub fn mdbx_env_set_maxdbs(env: &mut MDBX_env, dbs: u32) -> (r: Result<(), MdbxError>)
    requires
        old(env).wf(),
    ensures
        final(env).wf(),
        match old(env)@.set_maxdbs(dbs) {
            Ok(v) => r is Ok && final(env)@ == v,
            Err(e) => r == Err::<(), MdbxError>(e) && final(env)@ == old(env)@,
        },
{
    if env.open {
        Err(MdbxError::NotPermitted)
    } else if dbs > MDBX_MAX_DBI {
        Err(MdbxError::InvalidArgument)
    } else {
        env.max_dbs = dbs;
        Ok(())
    }
}

/// Sets how many readers the environment admits.
pub fn mdbx_env_set_maxreaders(env: &mut MDBX_env, readers: u32) -> (r: Result<(), MdbxError>)
    requires
        old(env).wf(),
    ensures
        final(env).wf(),
        match old(env)@.set_maxreaders(readers) {
            Ok(v) => r is Ok && final(env)@ == v,
            Err(e) => r == Err::<(), MdbxError>(e) && final(env)@ == old(env)@,
        },
{
    if env.open {
        Err(MdbxError::NotPermitted)
    } else if readers == 0 {
        Err(MdbxError::InvalidArgument)
    } else {
        env.max_readers = readers;
        Ok(())
    }
}

/// How many readers the environment admits.
pub fn mdbx_env_get_maxreaders(env: &MDBX_env) -> (n: u32)
    ensures
        n == env@.max_readers,
{
    env.max_readers
}

/// How many named sub-databases the environment admits.
pub fn mdbx_env_get_maxdbs(env: &MDBX_env) -> (n: u32)
    ensures
        n == env@.max_dbs,
{
    env.max_dbs
}

/// The flags of the environment.
pub fn mdbx_env_get_flags(env: &MDBX_env) -> (f: u32)
    ensures
        f == env@.flags,
{
    env.flags
}

/// The flags that an environment can have.
fn env_flag_mask() -> (m: u32)
    ensures
        m == spec_env_flag_mask(),
{
    (MDBX_VALIDATION as u32) | (MDBX_NOSUBDIR as u32) | (MDBX_RDONLY as u32) | (MDBX_EXCLUSIVE as u32)
        | (MDBX_ACCEDE as u32) | (MDBX_WRITEMAP as u32) | (MDBX_NOSTICKYTHREADS as u32) | (
    MDBX_NORDAHEAD as u32) | (MDBX_NOMEMINIT as u32) | (MDBX_COALESCE as u32) | (
    MDBX_LIFORECLAIM as u32) | (MDBX_PAGEPERTURB as u32) | (MDBX_NOMETASYNC as u32) | (
    MDBX_SAFE_NOSYNC as u32)
}

/// The flags of an environment that can be changed while it is open.
fn env_runtime_mask() -> (m: u32)
    ensures
        m == spec_env_runtime_mask(),
{
    (MDBX_NOMEMINIT as u32) | (MDBX_COALESCE as u32) | (MDBX_LIFORECLAIM as u32) | (
    MDBX_PAGEPERTURB as u32) | (MDBX_NOMETASYNC as u32) | (MDBX_SAFE_NOSYNC as u32)
}

/// Opens the environment.
pub fn mdbx_env_open(env: &mut MDBX_env, flags: u32) -> (r: Result<(), MdbxError>)
    requires
        old(env).wf(),
    ensures
        final(env).wf(),
        match old(env)@.open(flags) {
            Ok(v) => r is Ok && final(env)@ == v,
            Err(e) => r == Err::<(), MdbxError>(e) && final(env)@ == old(env)@,
        },
{
    if env.open {
        return Err(MdbxError::NotPermitted);
    }
    if flags & !env_flag_mask() != 0 {
        return Err(MdbxError::InvalidArgument);
    }
    match env.made_with {
        Some(p) => {
            if p != env.geo.page_size {
                return Err(MdbxError::Incompatible);
            }
        },
        None => {},
    }
    let mut handles: Vec<bool> = Vec::new();
    handles.push(false);
    handles.push(true);
    env.open = true;
    env.flags = flags;
    if env.made_with.is_none() {
        proof {
            lemma_empty_any_cap(
                env.dbs@,
                arena_map(env.arena@),
                env.cap as nat,
                fan_out(env.geo.page_size),
            );
        }
        env.cap = (env.geo.page_size / 32) as usize;
    }
    env.made_with = Some(env.geo.page_size);
    env.handles = handles;
    assert(env@.handles =~= seq![false, true]);
    Ok(())
}

/// A version without entries is in order whatever a page can hold.
proof fn lemma_empty_any_cap(dbs: Seq<DbRecord>, m: crate::tree::Pages, c0: nat, c1: nat)
    requires
        version_ok(dbs, m, c0),
        forall|i: int| 0 <= i < dbs.len() ==> (#[trigger] dbs[i]).tree.count == 0,
    ensures
        version_ok(dbs, m, c1),
{
    assert forall|i: int| 0 <= i < dbs.len() implies (#[trigger] dbs[i]).ok(m, c1) by {
        assert(dbs[i].ok(m, c0));
    }
}

/// Whether any transaction runs.
fn is_busy(env: &MDBX_env) -> (b: bool)
    requires
        env.wf(),
    ensures
        b == env@.busy(),
{
    if env.writers.len() > 0 {
        return true;
    }
    let mut i: usize = 0;
    while i < env.readers.len()
        invariant
            i <= env.readers.len(),
            forall|j: int| 0 <= j < i ==> !(#[trigger] env.readers@[j]).used,
        decreases env.readers.len() - i,
    {
        if env.readers[i].used {
            assert(env@.readers[i as int] is Some);
            return true;
        }
        i += 1;
    }
    assert forall|j: int| 0 <= j < env@.readers.len() implies (#[trigger] env@.readers[j]) is None by {
        assert(!env.readers@[j].used);
    }
    false
}

/// Closes the environment, unless a transaction runs.
pub fn mdbx_env_close_ex(env: &mut MDBX_env, dont_sync: bool) -> (r: Result<(), MdbxError>)
    requires
        old(env).wf(),
    ensures
        final(env).wf(),
        match old(env)@.close(dont_sync) {
            Ok(v) => r is Ok && final(env)@ == v,
            Err(e) => r == Err::<(), MdbxError>(e) && final(env)@ == old(env)@,
        },
{
    if !env.open {
        return Err(MdbxError::NotPermitted);
    }
    if is_busy(env) {
        return Err(MdbxError::Busy);
    }
    env.open = false;
    env.unsynced = env.unsynced && dont_sync;
    env.readers = Vec::new();
    assert(env@.readers =~= Seq::empty());
    assert(env@.writers =~= old(env)@.writers);
    Ok(())
}

/// Closes the environment and syncs what is unsynced, unless a transaction
/// runs.
pub fn mdbx_env_close(env: &mut MDBX_env) -> (r: Result<(), MdbxError>)
    requires
        old(env).wf(),
    ensures
        final(env).wf(),
        match old(env)@.close(false) {
            Ok(v) => r is Ok && final(env)@ == v,
            Err(e) => r == Err::<(), MdbxError>(e) && final(env)@ == old(env)@,
        },
{
    mdbx_env_close_ex(env, false)
}

/// Closes the environment whatever runs; every transaction is aborted.
pub fn mdbx_env_close_forced(env: &mut MDBX_env, dont_sync: bool) -> (r: Result<(), MdbxError>)
    requires
        old(env).wf(),
    ensures
        final(env).wf(),
        match old(env)@.close_forced(dont_sync) {
            Ok(v) => r is Ok && final(env)@ == v,
            Err(e) => r == Err::<(), MdbxError>(e) && final(env)@ == old(env)@,
        },
{
    if !env.open {
        return Err(MdbxError::NotPermitted);
    }
    env.open = false;
    env.unsynced = env.unsynced && dont_sync;
    env.readers = Vec::new();
    env.writers = Vec::new();
    assert(env@.readers =~= Seq::empty());
    assert(env@.writers =~= Seq::empty());
    Ok(())
}

/// Syncs committed data; returns whether anything was written.
pub fn mdbx_env_sync_ex(env: &mut MDBX_env, force: bool, nonblock: bool) -> (r: Result<
    bool,
    MdbxError,
>)
    requires
        old(env).wf(),
    ensures
        final(env).wf(),
        match old(env)@.sync(force) {
            Ok((v, b)) => r == Ok::<bool, MdbxError>(b) && final(env)@ == v,
            Err(e) => r == Err::<bool, MdbxError>(e) && final(env)@ == old(env)@,
        },
{
    if !env.open {
        return Err(MdbxError::NotPermitted);
    }
    if has(env.flags, MDBX_RDONLY) {
        return Err(MdbxError::AccessDenied);
    }
    let wrote = env.unsynced || force;
    env.unsynced = false;
    Ok(wrote)
}

/// Switches the given flags on or off.
pub fn mdbx_env_set_flags(env: &mut MDBX_env, flags: u32, onoff: bool) -> (r: Result<
    (),
    MdbxError,
>)
    requires
        old(env).wf(),
    ensures
        final(env).wf(),
        match old(env)@.set_flags(flags, onoff) {
            Ok(v) => r is Ok && final(env)@ == v,
            Err(e) => r == Err::<(), MdbxError>(e) && final(env)@ == old(env)@,
        },
{
    if flags & !env_flag_mask() != 0 {
        return Err(MdbxError::InvalidArgument);
    }
    if env.open && flags & !env_runtime_mask() != 0 {
        return Err(MdbxError::NotPermitted);
    }
    if onoff {
        env.flags = env.flags | flags;
    } else {
        env.flags = env.flags & !flags;
    }
    Ok(())
}

} // verus!
