//! Beginning and ending transactions.
use super::{lemma_idle, MDBX_env, MDBX_txn};
use crate::constants::{
    MDBX_NOMEMINIT, MDBX_NOMETASYNC, MDBX_RDONLY, MDBX_SAFE_NOSYNC, MDBX_TXN_DIRTY,
    MDBX_TXN_HAS_CHILD, MDBX_TXN_RDONLY, MDBX_TXN_TRY,
};
use crate::error::MdbxError;
use crate::flags::has;
use crate::grow::live;
use crate::pager::{
    arena_map, holds, index_of, lemma_same_pager, over_map, same_pager, Dirty, Pager,
};
use crate::space::lemma_give_wf;
use crate::state::{
    defers_sync, first_free, spec_txn_flag_mask, BeginView, EnvView, ReaderState, TxnView,
};
use crate::store::{
    accounted, all_in_use, copy_pager, copy_version, lemma_frame, lemma_same_version, reader_ok,
    same_version, stands, uses, version_ok, version_view, Level, ReaderSlot,
};
use crate::tree::{lemma_has_page, page, sub_has, Page};
use crate::write::{level_view, Ground};
use vstd::prelude::*;

verus! {

/// How a begin ended.
#[derive(Debug, Copy, Clone)]
pub enum TxnBegin {
    /// The transaction runs; this is its handle.
    Started(MDBX_txn),
    /// Another write transaction runs. The caller waits until it is
    /// finished and begins again.
    MustWait,
    /// The transaction cannot begin.
    Failed(MdbxError),
}

impl View for TxnBegin {
    type V = BeginView;

    open spec fn view(&self) -> BeginView {
        match self {
            TxnBegin::Started(t) => BeginView::Started(t@),
            TxnBegin::MustWait => BeginView::MustWait,
            TxnBegin::Failed(e) => BeginView::Failed(*e),
        }
    }
}

/// The handle that a caller gave, if it gave one.
pub open spec fn opt_view(t: Option<MDBX_txn>) -> Option<TxnView> {
    match t {
        Some(x) => Some(x@),
        None => None,
    }
}

/// The first free slot is the first slot that stands for no reader.
proof fn lemma_first_free(readers: Seq<Option<ReaderState>>, i: int)
    requires
        0 <= i <= readers.len(),
        forall|j: int| 0 <= j < i ==> (#[trigger] readers[j]) is Some,
        i < readers.len() ==> readers[i] is None,
    ensures
        first_free(readers) == i,
    decreases readers.len(),
{
    if readers.len() > 0 && i > 0 {
        assert(readers[0] is Some);
        let rest = readers.skip(1);
        assert forall|j: int| 0 <= j < i - 1 implies (#[trigger] rest[j]) is Some by {
            assert(readers[j + 1] is Some);
        }
        lemma_first_free(rest, i - 1);
    }
}

/// A working state stays in order when the reader table changes, as long
/// as every snapshot that is pinned afterwards uses only pages that a
/// snapshot pinned before, or the committed version, uses.
proof fn lemma_readers_change(g: Ground, readers: Seq<ReaderSlot>, l: Level)
    requires
        g.bears(l),
        forall|s: int|
            0 <= s < readers.len() && (#[trigger] readers[s]).pins() ==> (forall|p: u64|
                uses(readers[s].dbs@, arena_map(g.arena), p) ==> uses(g.dbs, arena_map(g.arena), p))
                || (exists|s0: int|
                0 <= s0 < g.readers.len() && (#[trigger] g.readers[s0]).pins() && forall|p: u64|
                    uses(readers[s].dbs@, arena_map(g.arena), p) ==> uses(
                        g.readers[s0].dbs@,
                        arena_map(g.arena),
                        p,
                    )),
    ensures
        (Ground { readers, ..g }).bears(l),
{
    let am = arena_map(g.arena);
    assert forall|p: u64| #[trigger] holds(l.pager.over@, p) implies forall|s: int|
        0 <= s < readers.len() && (#[trigger] readers[s]).pins() ==> !uses(readers[s].dbs@, am, p) by {
        assert forall|s: int| 0 <= s < readers.len() && (#[trigger] readers[s]).pins() implies !uses(
            readers[s].dbs@,
            am,
            p,
        ) by {
            if uses(readers[s].dbs@, am, p) {
                if !(forall|q: u64| uses(readers[s].dbs@, am, q) ==> uses(g.dbs, am, q)) {
                    let s0 = choose|s0: int|
                        0 <= s0 < g.readers.len() && (#[trigger] g.readers[s0]).pins() && forall|q: u64|
                            uses(readers[s].dbs@, am, q) ==> uses(g.readers[s0].dbs@, am, q);
                    assert(uses(g.readers[s0].dbs@, am, p));
                }
            }
        }
    }
}

/// A copy of a working state is in order where the state itself is.
proof fn lemma_same_level_ok(g: Ground, a: Level, b: Level)
    requires
        g.bears(a),
        same_version(b.dbs@, a.dbs@),
        same_pager(a.pager, b.pager),
    ensures
        g.bears(b),
        level_view(b, g.arena).dbs == level_view(a, g.arena).dbs,
        level_view(b, g.arena).space == level_view(a, g.arena).space,
        level_view(b, g.arena).freed == level_view(a, g.arena).freed,
{
    let m = a.pager.map(g.arena);
    lemma_same_pager(a.pager, b.pager, g.arena);
    lemma_same_version(b.dbs@, a.dbs@, m, g.cap);
    assert(all_in_use(b.dbs@, b.pager, m)) by {
        reveal(live);
        assert forall|i: int| 0 <= i < b.dbs@.len() implies (#[trigger] b.dbs@[i]).tree.in_use(b.pager, m) by {
            assert(a.dbs@[i].tree.in_use(a.pager, m));
            assert(a.dbs@[i].tree == b.dbs@[i].tree);
        }
    }
    assert forall|p: u64| p < b.pager.space@.next implies #[trigger] accounted(b.dbs@, b.pager, m, p) by {
        assert(accounted(a.dbs@, a.pager, m, p));
    }
}

/// A copy of a working state under another handle.
fn copy_level(l: &Level, handle: u64, flags: u32) -> (c: Level)
    ensures
        c.handle == handle,
        c.flags == flags,
        same_version(c.dbs@, l.dbs@),
        same_pager(l.pager, c.pager),
{
    Level { handle, flags, dbs: copy_version(&l.dbs), pager: copy_pager(&l.pager) }
}

/// The flags that a transaction can begin with.
fn txn_flag_mask() -> (m: u32)
    ensures
        m == spec_txn_flag_mask(),
{
    (MDBX_TXN_RDONLY as u32) | (MDBX_TXN_TRY as u32) | (MDBX_NOMETASYNC as u32) | (
    MDBX_SAFE_NOSYNC as u32) | (MDBX_NOMEMINIT as u32)
}

/// Whether `txn` is a read transaction of the reader table.
pub(super) fn is_reader(env: &MDBX_env, txn: &MDBX_txn) -> (b: bool)
    ensures
        b == env@.is_reader(txn@),
{
    !txn.write && txn.slot < env.readers.len() && env.readers[txn.slot].used
        && env.readers[txn.slot].handle == txn.handle
}

/// Whether `txn` is the running write transaction or one of its children.
pub(super) fn is_writer(env: &MDBX_env, txn: &MDBX_txn) -> (b: bool)
    ensures
        b == env@.is_writer(txn@),
{
    txn.write && txn.slot < env.writers.len() && env.writers[txn.slot].handle == txn.handle
}

/// Whether `txn` is the innermost write transaction.
pub(super) fn is_top(env: &MDBX_env, txn: &MDBX_txn) -> (b: bool)
    ensures
        b == env@.is_top(txn@),
{
    if is_writer(env, txn) {
        txn.slot == env.writers.len() - 1
    } else {
        false
    }
}

/// Begins a transaction.
pub fn mdbx_txn_begin(env: &mut MDBX_env, parent: Option<MDBX_txn>, flags: u32) -> (r: TxnBegin)
    requires
        old(env).wf(),
    ensures
        final(env).wf(),
        (final(env)@, r@) == old(env)@.begin(opt_view(parent), flags),
{
    let ghost g = env.ground();
    if !env.open {
        return TxnBegin::Failed(MdbxError::NotPermitted);
    }
    if flags & !txn_flag_mask() != 0 {
        return TxnBegin::Failed(MdbxError::InvalidArgument);
    }
    if env.next_handle == u64::MAX {
        return TxnBegin::Failed(MdbxError::TxnFull);
    }
    let handle = env.next_handle;
    if has(flags, MDBX_TXN_RDONLY) {
        if parent.is_some() {
            return TxnBegin::Failed(MdbxError::BadTxn);
        }
        let mut slot: usize = 0;
        while slot < env.readers.len() && env.readers[slot].used
            invariant
                slot <= env.readers.len(),
                forall|j: int| 0 <= j < slot ==> (#[trigger] env.readers@[j]).used,
            decreases env.readers.len() - slot,
        {
            slot += 1;
        }
        proof {
            lemma_first_free(env@.readers, slot as int);
        }
        if slot >= env.max_readers as usize {
            return TxnBegin::Failed(MdbxError::ReadersFull);
        }
        let r = ReaderSlot {
            used: true,
            live: true,
            handle,
            txnid: env.txnid,
            dbs: copy_version(&env.dbs),
        };
        proof {
            lemma_same_version(r.dbs@, env.dbs@, arena_map(env.arena@), env.cap as nat);
        }
        if slot < env.readers.len() {
            env.readers[slot] = r;
        } else {
            env.readers.push(r);
        }
        env.next_handle = handle + 1;
        proof {
            let readers = env.readers@;
            assert forall|s: int| 0 <= s < readers.len() && s != slot implies #[trigger] readers[s]
                == g.readers[s] by {}
            assert forall|l: int| 0 <= l < env.writers@.len() implies env.ground().bears(
                #[trigger] env.writers@[l],
            ) by {
                assert(g.bears(env.writers@[l]));
                lemma_readers_change(g, readers, env.writers@[l]);
            }
            assert forall|s: int| 0 <= s < readers.len() implies reader_ok(
                env.arena@,
                env.space@,
                env.txnid,
                #[trigger] readers[s],
                env.cap as nat,
            ) by {
                if s != slot {
                    assert(reader_ok(g.arena, g.space, g.txnid, g.readers[s], g.cap));
                } else {
                    assert forall|p: u64, x: u64|
                        env.space@.lists_under(p, x) && x <= readers[s].txnid implies !uses(
                        readers[s].dbs@,
                        arena_map(env.arena@),
                        p,
                    ) by {
                        crate::pager::lemma_lists(env.space@, p, x);
                    }
                }
            }
            let v = old(env)@.begin(None, flags).0;
            assert(env@.readers =~= v.readers);
            assert(env@.writers =~= v.writers);
        }
        return TxnBegin::Started(MDBX_txn { handle, write: false, slot });
    }
    if has(env.flags, MDBX_RDONLY) {
        return TxnBegin::Failed(MdbxError::AccessDenied);
    }
    match parent {
        None => {
            if env.writers.len() > 0 {
                if has(flags, MDBX_TXN_TRY) {
                    return TxnBegin::Failed(MdbxError::Busy);
                } else {
                    return TxnBegin::MustWait;
                }
            }
            if env.txnid == u64::MAX {
                return TxnBegin::Failed(MdbxError::TxnFull);
            }
            let l = Level {
                handle,
                flags,
                dbs: copy_version(&env.dbs),
                pager: Pager { over: Vec::new(), space: env.space.copy(), freed: Vec::new() },
            };
            proof {
                lemma_new_level(g, l);
            }
            env.writers.push(l);
            env.next_handle = handle + 1;
            proof {
                let v = old(env)@.begin(None, flags).0;
                assert(env@.writers =~= v.writers);
                assert(env@.readers =~= v.readers);
            }
            TxnBegin::Started(MDBX_txn { handle, write: true, slot: 0 })
        },
        Some(p) => {
            if !is_top(env, &p) {
                return TxnBegin::Failed(MdbxError::BadTxn);
            }
            let depth = env.writers.len();
            let l = copy_level(&env.writers[depth - 1], handle, flags);
            proof {
                assert(g.bears(env.writers@[depth - 1]));
                lemma_same_level_ok(g, env.writers@[depth - 1], l);
            }
            env.writers.push(l);
            env.next_handle = handle + 1;
            proof {
                let v = old(env)@.begin(Some(p@), flags).0;
                assert(env@.writers =~= v.writers);
                assert(env@.readers =~= v.readers);
            }
            TxnBegin::Started(MDBX_txn { handle, write: true, slot: depth })
        },
    }
}

/// Gives the slot of a read transaction back.
fn release_reader(env: &mut MDBX_env, slot: usize)
    requires
        old(env).wf(),
        slot < old(env).readers@.len(),
    ensures
        final(env).wf(),
        final(env)@ == (EnvView { readers: old(env)@.readers.update(slot as int, None), ..old(env)@ }),
{
    let ghost g = env.ground();
    env.readers[slot].used = false;
    env.readers[slot].live = false;
    env.readers[slot].dbs = Vec::new();
    proof {
        let readers = env.readers@;
        assert forall|s: int| 0 <= s < readers.len() && s != slot implies #[trigger] readers[s]
            == g.readers[s] by {}
        assert forall|l: int| 0 <= l < env.writers@.len() implies env.ground().bears(
            #[trigger] env.writers@[l],
        ) by {
            assert(g.bears(env.writers@[l]));
            lemma_readers_change(g, readers, env.writers@[l]);
        }
        assert forall|s: int| 0 <= s < readers.len() implies reader_ok(
            env.arena@,
            env.space@,
            env.txnid,
            #[trigger] readers[s],
            env.cap as nat,
        ) by {
            if s != slot {
                assert(reader_ok(g.arena, g.space, g.txnid, g.readers[s], g.cap));
            }
        }
        assert(env@.readers =~= old(env)@.readers.update(slot as int, None));
        assert(env@.writers =~= old(env)@.writers);
    }
}

/// The working state of a write transaction that begins is in order: it
/// has the committed version, the committed page numbers, and no page of
/// its own.
proof fn lemma_new_level(g: Ground, l: Level)
    requires
        g.ok(),
        same_version(l.dbs@, g.dbs),
        l.pager.over@.len() == 0,
        l.pager.freed@.len() == 0,
        l.pager.space@ == g.space,
    ensures
        g.bears(l),
        version_view(l.dbs@, l.pager.map(g.arena)) == version_view(g.dbs, arena_map(g.arena)),
{
    let am = arena_map(g.arena);
    lemma_idle(l.pager, g.arena);
    lemma_same_version(l.dbs@, g.dbs, am, g.cap);
    assert(all_in_use(l.dbs@, l.pager, am)) by {
        reveal(live);
        assert forall|i: int| 0 <= i < l.dbs@.len() implies (#[trigger] l.dbs@[i]).tree.in_use(l.pager, am) by {
            let t = l.dbs@[i].tree;
            assert(g.dbs[i].tree == t);
            assert(g.dbs[i].ok(am, g.cap));
            if t.count > 0 {
                assert forall|q: u64| #[trigger] sub_has(am, t.root, t.height as nat, q) implies !l.pager.freed@.contains(
                    q,
                ) && !l.pager.space@.lists(q) && q < l.pager.space@.next by {
                    lemma_has_page(am, t.root, t.height as nat, t.count as nat, g.cap, q);
                    assert(g.dbs[i].tree.has(am, q));
                    assert(uses(g.dbs, am, q));
                }
            }
        }
    }
    assert forall|p: u64| p < l.pager.space@.next implies #[trigger] accounted(l.dbs@, l.pager, am, p) by {
        assert(stands(g.dbs, am, g.space, p));
    }
}

/// Writes every page that the transaction holds into the arena, which
/// grows to `next` pages.
fn flush(arena: &mut Vec<Page>, over: Vec<Dirty>, next: u64, Ghost(pg): Ghost<Pager>)
    requires
        pg.wf(),
        over@ == pg.over@,
        next == pg.space@.next,
        old(arena)@.len() <= next <= usize::MAX,
    ensures
        final(arena)@.len() == next,
        forall|p: u64| #[trigger]
            page(arena_map(final(arena)@), p) == page(over_map(old(arena)@, pg.over@), p),
{
    let ghost a0 = arena@;
    let ghost o0 = over@;
    let target: usize = next as usize;
    while arena.len() < target
        invariant
            arena@.len() <= target,
            a0.len() <= arena@.len(),
            forall|p: int| 0 <= p < a0.len() ==> #[trigger] arena@[p] == a0[p],
            forall|p: int| a0.len() <= p < arena@.len() ==> #[trigger] arena@[p] == Page::Free,
        decreases target - arena.len(),
    {
        arena.push(Page::Free);
    }
    let mut over = over;
    while over.len() > 0
        invariant
            pg.wf(),
            o0 == pg.over@,
            next == pg.space@.next,
            target == next,
            arena@.len() == target,
            a0.len() <= arena@.len(),
            over@.len() <= o0.len(),
            over@ == o0.take(over@.len() as int),
            forall|j: int|
                over@.len() <= j < o0.len() ==> (#[trigger] arena@[o0[j].pgno as int])@ == o0[j].page@,
            forall|p: int|
                0 <= p < arena@.len() && (forall|j: int|
                    over@.len() <= j < o0.len() ==> (#[trigger] o0[j]).pgno != p) ==> #[trigger] arena@[p]
                    == (if p < a0.len() {
                    a0[p]
                } else {
                    Page::Free
                }),
        decreases over.len(),
    {
        let ghost k = over@.len() - 1;
        let ghost before = arena@;
        let d = over.pop().unwrap();
        assert(d == o0[k]);
        assert(d.pgno < pg.space@.next);
        let at: usize = d.pgno as usize;
        arena[at] = d.page;
        proof {
            assert(over@ =~= o0.take(k));
            assert forall|j: int| k <= j < o0.len() implies (#[trigger] arena@[o0[j].pgno as int])@
                == o0[j].page@ by {
                if j != k {
                    assert(o0[j].pgno != o0[k].pgno);
                    assert(before[o0[j].pgno as int]@ == o0[j].page@);
                }
            }
            assert forall|p: int|
                0 <= p < arena@.len() && (forall|j: int| k <= j < o0.len() ==> (#[trigger] o0[j]).pgno != p) implies #[trigger] arena@[p]
                == (if p < a0.len() {
                a0[p]
            } else {
                Page::Free
            }) by {
                assert(o0[k].pgno != p);
                assert(before[p] == arena@[p]);
            }
        }
    }
    proof {
        let a1 = arena@;
        assert forall|p: u64| #[trigger] page(arena_map(a1), p) == page(over_map(a0, o0), p) by {
            if holds(o0, p) {
                let j = index_of(o0, p);
                assert(o0[j].pgno == p);
                assert(o0[j].pgno < pg.space@.next);
                assert(a1[o0[j].pgno as int]@ == o0[j].page@);
            } else if p < a1.len() {
                assert forall|j: int| 0 <= j < o0.len() implies (#[trigger] o0[j]).pgno != p by {}
                assert(a1[p as int] == (if p < a0.len() {
                    a0[p as int]
                } else {
                    Page::Free
                }));
            }
        }
    }
}

/// What the commit of the outermost write transaction leaves is in order,
/// and is what the model says.
proof fn lemma_commit(a: MDBX_env, b: MDBX_env, t: TxnView)
    requires
        a.wf(),
        a.writers@.len() == 1,
        a@.is_top(t),
        a.open,
        b.arena@.len() == a.writers@[0].pager.space@.next,
        forall|p: u64| #[trigger]
            page(arena_map(b.arena@), p) == page(a.writers@[0].pager.map(a.arena@), p),
        b.dbs == a.writers@[0].dbs,
        b.space@ == a.writers@[0].pager.space@.give(
            (a.txnid + 1) as u64,
            a.writers@[0].pager.freed@,
        ),
        b.txnid == a.txnid + 1,
        b.readers == a.readers,
        b.writers@.len() == 0,
        b.open == a.open,
        b.flags == a.flags,
        b.max_dbs == a.max_dbs,
        b.max_readers == a.max_readers,
        b.geo == a.geo,
        b.made_with == a.made_with,
        b.handles == a.handles,
        b.next_handle == a.next_handle,
        b.unsynced == (a.unsynced || defers_sync(a.flags) || defers_sync(a.writers@[0].flags)),
        b.space.limit == a.space.limit,
        b.cap == a.cap,
        b.idle == a.idle,
    ensures
        b.wf(),
        a@.commit(t) == Ok::<EnvView, MdbxError>(b@),
{
    let g = a.ground();
    let l = a.writers@[0];
    let id = (a.txnid + 1) as u64;
    let d0 = l.dbs@;
    let a0 = a.arena@;
    let a1 = b.arena@;
    let am0 = arena_map(a0);
    let am1 = arena_map(a1);
    let lm = l.pager.map(a0);
    let sp = l.pager.space@;
    let cap = g.cap;
    assert(g.bears(l));
    // The free list.
    assert forall|r: int| 0 <= r < sp.free.len() implies (#[trigger] sp.free[r]).txnid < id by {
        let p = sp.free[r].pages[0];
        assert(sp.lists_under(p, sp.free[r].txnid));
        assert(g.space.lists_under(p, sp.free[r].txnid));
        let (r2, j2) = choose|r2: int, j2: int|
            0 <= r2 < g.space.free.len() && 0 <= j2 < g.space.free[r2].pages.len()
                && g.space.free[r2].txnid == sp.free[r].txnid
                && #[trigger] g.space.free[r2].pages[j2] == p;
        assert(g.space.free[r2].txnid <= a.txnid);
    }
    assert forall|p: u64| l.pager.freed@.contains(p) implies !sp.lists(p) by {
        let j = choose|j: int| 0 <= j < l.pager.freed@.len() && l.pager.freed@[j] == p;
        assert(!sp.lists(l.pager.freed@[j]));
    }
    lemma_give_wf(sp, id, l.pager.freed@);
    // The committed version.
    assert forall|p: u64| uses(d0, lm, p) implies page(am1, p) == page(lm, p) by {}
    lemma_frame(d0, lm, am1, cap);
    assert forall|p: u64| b.space@.lists(p) implies !uses(b.dbs@, am1, p) by {
        assert(sp.lists(p) || l.pager.freed@.contains(p));
        if uses(d0, lm, p) {
            let i = choose|i: int| 0 <= i < d0.len() && (#[trigger] d0[i]).tree.has(lm, p);
            assert(d0[i].tree.in_use(l.pager, lm));
            reveal(live);
        }
    }
    assert forall|p: u64| p < b.space@.next implies #[trigger] stands(b.dbs@, am1, b.space@, p) by {
        assert(accounted(d0, l.pager, lm, p));
    }
    // The readers.
    assert forall|s: int| 0 <= s < b.readers@.len() implies reader_ok(
        a1,
        b.space@,
        b.txnid,
        #[trigger] b.readers@[s],
        cap,
    ) by {
        let r = b.readers@[s];
        assert(reader_ok(a0, g.space, g.txnid, g.readers[s], cap));
        if r.pins() {
            lemma_reader_frame(a, b, s);
            assert forall|p: u64, x: u64| b.space@.lists_under(p, x) && x <= r.txnid implies !uses(
                r.dbs@,
                am1,
                p,
            ) by {
                assert(sp.lists_under(p, x));
                assert(g.space.lists_under(p, x));
            }
        }
    }
    // The view.
    let v = a@.commit(t)->Ok_0;
    assert(a@.writers[0] == level_view(l, a0));
    assert(b@.dbs =~= v.dbs);
    assert(b@.readers =~= v.readers) by {
        assert forall|s: int| 0 <= s < b.readers@.len() implies b@.readers[s] == v.readers[s] by {
            assert(reader_ok(a0, g.space, g.txnid, g.readers[s], cap));
            if b.readers@[s].pins() {
                lemma_reader_frame(a, b, s);
            }
        }
    }
    assert(b@.writers =~= v.writers);
}

/// A commit leaves the pages of every pinned snapshot as they are.
proof fn lemma_reader_frame(a: MDBX_env, b: MDBX_env, s: int)
    requires
        a.wf(),
        a.writers@.len() == 1,
        forall|p: u64| #[trigger]
            page(arena_map(b.arena@), p) == page(a.writers@[0].pager.map(a.arena@), p),
        b.readers == a.readers,
        0 <= s < a.readers@.len(),
        a.readers@[s].pins(),
    ensures
        version_ok(a.readers@[s].dbs@, arena_map(b.arena@), a.cap as nat),
        version_view(a.readers@[s].dbs@, arena_map(b.arena@)) == version_view(
            a.readers@[s].dbs@,
            arena_map(a.arena@),
        ),
        forall|p: u64|
            uses(a.readers@[s].dbs@, arena_map(b.arena@), p) == uses(
                a.readers@[s].dbs@,
                arena_map(a.arena@),
                p,
            ),
{
    let g = a.ground();
    let l = a.writers@[0];
    let r = a.readers@[s];
    let am0 = arena_map(a.arena@);
    let am1 = arena_map(b.arena@);
    assert(g.bears(l));
    assert(reader_ok(g.arena, g.space, g.txnid, g.readers[s], g.cap));
    assert forall|p: u64| uses(r.dbs@, am0, p) implies page(am1, p) == page(am0, p) by {
        if holds(l.pager.over@, p) {
            assert(!uses(g.readers[s].dbs@, am0, p));
        }
        assert(page(am1, p) == page(l.pager.map(a.arena@), p));
    }
    lemma_frame(r.dbs@, am0, am1, g.cap);
}

/// Commits a transaction.
pub fn mdbx_txn_commit(env: &mut MDBX_env, txn: &MDBX_txn) -> (r: Result<(), MdbxError>)
    requires
        old(env).wf(),
    ensures
        final(env).wf(),
        match old(env)@.commit(txn@) {
            Ok(v) => r is Ok && final(env)@ == v,
            Err(e) => r == Err::<(), MdbxError>(e) && final(env)@ == old(env)@,
        },
{
    let ghost g = env.ground();
    if is_reader(env, txn) {
        release_reader(env, txn.slot);
        return Ok(());
    }
    if !is_top(env, txn) {
        return Err(MdbxError::BadTxn);
    }
    let depth = env.writers.len();
    if depth >= 2 {
        let child = env.writers.pop().unwrap();
        let parent = env.writers.pop().unwrap();
        let merged = Level {
            handle: parent.handle,
            flags: parent.flags,
            dbs: child.dbs,
            pager: child.pager,
        };
        proof {
            assert(g.bears(old(env).writers@[depth - 1]));
            assert(g.bears(merged));
        }
        env.writers.push(merged);
        proof {
            let v = old(env)@.commit(txn@)->Ok_0;
            assert forall|l: int| 0 <= l < env.writers@.len() implies env.ground().bears(
                #[trigger] env.writers@[l],
            ) by {
                if l < depth - 2 {
                    assert(env.writers@[l] == old(env).writers@[l]);
                    assert(g.bears(old(env).writers@[l]));
                }
            }
            assert forall|l: int| 0 <= l < env.writers@.len() implies (#[trigger] env.writers@[l]).handle
                < env.next_handle by {
                if l < depth - 2 {
                    assert(env.writers@[l] == old(env).writers@[l]);
                } else {
                    assert(old(env).writers@[depth - 2].handle < env.next_handle);
                }
            }
            assert(env@.writers =~= v.writers) by {
                assert forall|l: int| 0 <= l < env.writers@.len() implies env@.writers[l]
                    == v.writers[l] by {
                    if l < depth - 2 {
                        assert(env.writers@[l] == old(env).writers@[l]);
                    }
                }
            }
            assert(env@.readers =~= v.readers);
        }
        return Ok(());
    }
    let lvl = env.writers.pop().unwrap();
    let ghost l0 = lvl;
    let id = env.txnid + 1;
    let Level { handle: _, flags: wflags, dbs, pager } = lvl;
    let Pager { over, space, freed } = pager;
    proof {
        assert(g.bears(l0));
        assert(l0.pager.space@.next <= l0.pager.space@.limit);
    }
    flush(&mut env.arena, over, space.next, Ghost(l0.pager));
    env.dbs = dbs;
    env.space = space;
    env.space.give(id, freed);
    env.txnid = id;
    env.unsynced = env.unsynced || has(env.flags, MDBX_SAFE_NOSYNC) || has(env.flags, MDBX_NOMETASYNC)
        || has(wflags, MDBX_SAFE_NOSYNC) || has(wflags, MDBX_NOMETASYNC);
    proof {
        lemma_commit(*old(env), *env, txn@);
    }
    Ok(())
}

/// Aborts a transaction.
pub fn mdbx_txn_abort(env: &mut MDBX_env, txn: &MDBX_txn) -> (r: Result<(), MdbxError>)
    requires
        old(env).wf(),
    ensures
        final(env).wf(),
        match old(env)@.abort(txn@) {
            Ok(v) => r is Ok && final(env)@ == v,
            Err(e) => r == Err::<(), MdbxError>(e) && final(env)@ == old(env)@,
        },
{
    if is_reader(env, txn) {
        release_reader(env, txn.slot);
        Ok(())
    } else if is_writer(env, txn) {
        env.writers.truncate(txn.slot);
        proof {
            let v = old(env)@.abort(txn@)->Ok_0;
            assert forall|l: int| 0 <= l < env.writers@.len() implies env.ground().bears(
                #[trigger] env.writers@[l],
            ) && env.writers@[l].handle < env.next_handle by {
                assert(env.writers@[l] == old(env).writers@[l]);
                assert(old(env).ground().bears(old(env).writers@[l]));
            }
            assert(env@.writers =~= v.writers);
            assert(env@.readers =~= v.readers);
        }
        Ok(())
    } else {
        Err(MdbxError::BadTxn)
    }
}

/// Lets a read transaction give up its snapshot and keep its slot.
pub fn mdbx_txn_reset(env: &mut MDBX_env, txn: &MDBX_txn) -> (r: Result<(), MdbxError>)
    requires
        old(env).wf(),
    ensures
        final(env).wf(),
        match old(env)@.reset(txn@) {
            Ok(v) => r is Ok && final(env)@ == v,
            Err(e) => r == Err::<(), MdbxError>(e) && final(env)@ == old(env)@,
        },
{
    let ghost g = env.ground();
    if !is_reader(env, txn) || !env.readers[txn.slot].live {
        return Err(MdbxError::BadTxn);
    }
    let slot = txn.slot;
    env.readers[slot].live = false;
    env.readers[slot].dbs = Vec::new();
    proof {
        let readers = env.readers@;
        let v = old(env)@.reset(txn@)->Ok_0;
        assert forall|s: int| 0 <= s < readers.len() && s != slot implies #[trigger] readers[s]
            == g.readers[s] by {}
        assert forall|l: int| 0 <= l < env.writers@.len() implies env.ground().bears(
            #[trigger] env.writers@[l],
        ) by {
            assert(g.bears(env.writers@[l]));
            lemma_readers_change(g, readers, env.writers@[l]);
        }
        assert forall|s: int| 0 <= s < readers.len() implies reader_ok(
            env.arena@,
            env.space@,
            env.txnid,
            #[trigger] readers[s],
            env.cap as nat,
        ) by {
            if s != slot {
                assert(reader_ok(g.arena, g.space, g.txnid, g.readers[s], g.cap));
            } else if readers[s].pins() {
                assert forall|p: u64, x: u64|
                    env.space@.lists_under(p, x) && x <= readers[s].txnid implies !uses(
                    readers[s].dbs@,
                    arena_map(env.arena@),
                    p,
                ) by {
                    crate::pager::lemma_lists(env.space@, p, x);
                }
            }
        }
        assert(env@.readers =~= v.readers);
        assert(env@.writers =~= v.writers);
    }
    Ok(())
}

/// Gives a read transaction that was reset a snapshot of the committed
/// version.
pub fn mdbx_txn_renew(env: &mut MDBX_env, txn: &MDBX_txn) -> (r: Result<(), MdbxError>)
    requires
        old(env).wf(),
    ensures
        final(env).wf(),
        match old(env)@.renew(txn@) {
            Ok(v) => r is Ok && final(env)@ == v,
            Err(e) => r == Err::<(), MdbxError>(e) && final(env)@ == old(env)@,
        },
{
    let ghost g = env.ground();
    if !is_reader(env, txn) || env.readers[txn.slot].live {
        return Err(MdbxError::BadTxn);
    }
    let slot = txn.slot;
    let dbs = copy_version(&env.dbs);
    proof {
        lemma_same_version(dbs@, env.dbs@, arena_map(env.arena@), env.cap as nat);
    }
    env.readers[slot].live = true;
    env.readers[slot].txnid = env.txnid;
    env.readers[slot].dbs = dbs;
    proof {
        let readers = env.readers@;
        let v = old(env)@.renew(txn@)->Ok_0;
        assert forall|s: int| 0 <= s < readers.len() && s != slot implies #[trigger] readers[s]
            == g.readers[s] by {}
        assert forall|l: int| 0 <= l < env.writers@.len() implies env.ground().bears(
            #[trigger] env.writers@[l],
        ) by {
            assert(g.bears(env.writers@[l]));
            lemma_readers_change(g, readers, env.writers@[l]);
        }
        assert forall|s: int| 0 <= s < readers.len() implies reader_ok(
            env.arena@,
            env.space@,
            env.txnid,
            #[trigger] readers[s],
            env.cap as nat,
        ) by {
            if s != slot {
                assert(reader_ok(g.arena, g.space, g.txnid, g.readers[s], g.cap));
            } else if readers[s].pins() {
                assert forall|p: u64, x: u64|
                    env.space@.lists_under(p, x) && x <= readers[s].txnid implies !uses(
                    readers[s].dbs@,
                    arena_map(env.arena@),
                    p,
                ) by {
                    crate::pager::lemma_lists(env.space@, p, x);
                }
            }
        }
        assert(env@.readers =~= v.readers);
        assert(env@.writers =~= v.writers);
    }
    Ok(())
}

/// The number of the version that `txn` works on.
pub fn mdbx_txn_id(env: &MDBX_env, txn: &MDBX_txn) -> (r: Result<u64, MdbxError>)
    requires
        env.wf(),
    ensures
        r == env@.txn_id(txn@),
{
    if is_reader(env, txn) && env.readers[txn.slot].live {
        Ok(env.readers[txn.slot].txnid)
    } else if is_writer(env, txn) {
        Ok(env.txnid + 1)
    } else {
        Err(MdbxError::BadTxn)
    }
}

/// The flags of `txn`.
pub fn mdbx_txn_flags(env: &MDBX_env, txn: &MDBX_txn) -> (r: Result<u32, MdbxError>)
    requires
        env.wf(),
    ensures
        r == env@.txn_flags(txn@),
{
    if is_reader(env, txn) {
        Ok(MDBX_TXN_RDONLY as u32)
    } else if is_writer(env, txn) {
        let l = &env.writers[txn.slot];
        let mut dirty = false;
        let mut i: usize = 0;
        while i < l.dbs.len()
            invariant
                i <= l.dbs.len(),
                dirty == exists|k: int| 0 <= k < i && (#[trigger] l.dbs@[k]).mod_txnid > env.txnid,
            decreases l.dbs.len() - i,
        {
            if l.dbs[i].mod_txnid > env.txnid {
                dirty = true;
            }
            i += 1;
        }
        proof {
            let w = env@.writers[txn.slot as int];
            assert(w == level_view(*l, env.arena@));
            if dirty {
                let k = choose|k: int| 0 <= k < l.dbs@.len() && (#[trigger] l.dbs@[k]).mod_txnid > env.txnid;
                assert(w.dbs[k].mod_txnid > env.txnid);
            }
            if exists|k: int| 0 <= k < w.dbs.len() && (#[trigger] w.dbs[k]).mod_txnid > env@.txnid {
                let k = choose|k: int| 0 <= k < w.dbs.len() && (#[trigger] w.dbs[k]).mod_txnid > env@.txnid;
                assert(l.dbs@[k].mod_txnid > env.txnid);
            }
        }
        let child: u32 = if txn.slot < env.writers.len() - 1 {
            MDBX_TXN_HAS_CHILD as u32
        } else {
            0
        };
        let changed: u32 = if dirty { MDBX_TXN_DIRTY as u32 } else { 0 };
        Ok(l.flags | child | changed)
    } else {
        Err(MdbxError::BadTxn)
    }
}

} // verus!
