//! The changes that a write transaction makes to its version.
//!
//! Every change goes to pages that the transaction owns. A committed page
//! that must change is written anew under a page number that the
//! transaction takes; the page it replaces is noted as given up. What is
//! committed, and what readers pin, is never touched.
use crate::btree::{clear, insert, lemma_low, remove, replace, stepped};
use crate::error::MdbxError;
use crate::grow::{lemma_took_unused, live, spent};
use crate::leaf::{DelPlan, Entry, PutPlan};
use crate::model::{
    depth_near, most_room, room_to_add, room_to_change, room_to_cut, DbView, EntryView, WriterState,
};
use crate::pager::{arena_map, has_room_for, holds, lemma_lists, Pager};
use crate::rows::{cut_entry, new_entry, put_entry, Rows};
use crate::shrink::lemma_spent_less;
use crate::space::{reclaimable, SpaceView};
use crate::store::{
    accounted, all_in_use, committed_ok, lemma_oldest_reader, lemma_record_frame, level_ok,
    oldest_reader, reader_ok, uses, version_ok, version_view, DbRecord, Level, ReaderSlot,
};
use crate::tree::{lemma_has_page, page, Page};
use vstd::prelude::*;

verus! {

/// What a write transaction has in hand, as callers see it.
pub open spec fn level_view(l: Level, arena: Seq<Page>) -> WriterState {
    WriterState {
        handle: l.handle,
        flags: l.flags,
        dbs: version_view(l.dbs@, l.pager.map(arena)),
        space: l.pager.space@,
        freed: l.pager.freed@,
    }
}

/// What stands still while a write transaction works: the committed pages
/// and version, the readers' snapshots, and the number of items that a page
/// holds at most.
pub struct Ground {
    pub arena: Seq<Page>,
    pub dbs: Seq<DbRecord>,
    pub space: SpaceView,
    pub txnid: u64,
    pub readers: Seq<ReaderSlot>,
    pub cap: nat,
}

impl Ground {
    /// The invariant of what is committed and pinned.
    pub open spec fn ok(self) -> bool {
        &&& committed_ok(self.arena, self.dbs, self.space, self.txnid, self.cap)
        &&& forall|s: int|
            0 <= s < self.readers.len() ==> reader_ok(
                self.arena,
                self.space,
                self.txnid,
                #[trigger] self.readers[s],
                self.cap,
            )
    }

    /// The invariant of a write transaction's working state on this ground.
    pub open spec fn bears(self, l: Level) -> bool {
        level_ok(self.arena, self.dbs, self.space, self.readers, l, self.cap)
    }
}

/// A change of the entries of a sub-database.
#[derive(Debug, Copy, Clone, PartialEq, Eq, Structural)]
pub enum Change {
    /// A put, as planned.
    Put(PutPlan),
    /// A delete, as planned.
    Del(DelPlan),
    /// All entries go.
    Clear,
}

impl Change {
    /// Whether the indices of the change lie within the entries.
    pub open spec fn fits(self, entries: Seq<EntryView>) -> bool {
        match self {
            Change::Put(p) => p.fits(entries),
            Change::Del(d) => d.fits(entries),
            Change::Clear => true,
        }
    }

    /// The entries after the change, for a put of the pair `k`, `v`.
    pub open spec fn result(self, entries: Seq<EntryView>, k: Seq<u8>, v: Seq<u8>) -> Seq<
        EntryView,
    > {
        match self {
            Change::Put(p) => p.result(entries, k, v),
            Change::Del(d) => d.result(entries),
            Change::Clear => Seq::empty(),
        }
    }
}

/// A page that a write transaction took is used by nobody: not by what is
/// committed, not by a reader.
pub proof fn lemma_taken_page_unused(g: Ground, a: Pager, b: Pager, oldest: Option<u64>, q: u64)
    requires
        g.ok(),
        oldest == oldest_reader(g.readers),
        a.space@.next >= g.space.next,
        forall|p: u64, x: u64| a.space@.lists_under(p, x) ==> g.space.lists_under(p, x),
        b.grown(a, oldest),
        b.took(a, q),
    ensures
        !uses(g.dbs, arena_map(g.arena), q),
        forall|s: int|
            0 <= s < g.readers.len() && (#[trigger] g.readers[s]).pins() ==> !uses(
                g.readers[s].dbs@,
                arena_map(g.arena),
                q,
            ),
{
    let am = arena_map(g.arena);
    lemma_oldest_reader(g.readers);
    if q >= a.space@.next {
        assert(!am.contains_key(q));
        if uses(g.dbs, am, q) {
            let i = choose|i: int| 0 <= i < g.dbs.len() && (#[trigger] g.dbs[i]).tree.has(am, q);
            assert(g.dbs[i].ok(am, g.cap));
            lemma_has_page(am, g.dbs[i].tree.root, g.dbs[i].tree.height as nat, g.dbs[i].tree.count as nat, g.cap, q);
        }
        assert forall|s: int| 0 <= s < g.readers.len() && (#[trigger] g.readers[s]).pins() implies !uses(
            g.readers[s].dbs@,
            am,
            q,
        ) by {
            let ds = g.readers[s].dbs@;
            assert(reader_ok(g.arena, g.space, g.txnid, g.readers[s], g.cap));
            if uses(ds, am, q) {
                let i = choose|i: int| 0 <= i < ds.len() && (#[trigger] ds[i]).tree.has(am, q);
                assert(ds[i].ok(am, g.cap));
                lemma_has_page(am, ds[i].tree.root, ds[i].tree.height as nat, ds[i].tree.count as nat, g.cap, q);
            }
        }
    } else {
        let x = choose|x: u64| reclaimable(x, oldest) && #[trigger] a.space@.lists_under(q, x);
        assert(g.space.lists_under(q, x));
        lemma_lists(g.space, q, x);
        assert forall|s: int| 0 <= s < g.readers.len() && (#[trigger] g.readers[s]).pins() implies !uses(
            g.readers[s].dbs@,
            am,
            q,
        ) by {
            assert(reader_ok(g.arena, g.space, g.txnid, g.readers[s], g.cap));
            assert(x <= g.readers[s].txnid);
        }
    }
}

/// A change of the tree of sub-database `dbi` leaves the working state in
/// order, and is the write that the model describes.
pub proof fn lemma_level_after(
    g: Ground,
    a: Level,
    b: Level,
    dbi: int,
    oldest: Option<u64>,
    entries: Seq<EntryView>,
    txnid: u64,
)
    requires
        g.ok(),
        g.bears(a),
        oldest == oldest_reader(g.readers),
        0 <= dbi < a.dbs@.len(),
        stepped(
            a.pager,
            b.pager,
            a.pager.map(g.arena),
            b.pager.map(g.arena),
            a.dbs@[dbi].tree,
            b.dbs@[dbi].tree,
            entries,
            g.cap,
            oldest,
        ),
        b.handle == a.handle,
        b.flags == a.flags,
        b.dbs@.len() == a.dbs@.len(),
        forall|i: int| 0 <= i < a.dbs@.len() && i != dbi ==> #[trigger] b.dbs@[i] == a.dbs@[i],
        b.dbs@[dbi].name == a.dbs@[dbi].name,
        b.dbs@[dbi].flags == a.dbs@[dbi].flags,
        b.dbs@[dbi].alive == a.dbs@[dbi].alive,
        b.dbs@[dbi].mod_txnid == txnid,
        (DbView { flags: a.dbs@[dbi].flags, entries }).wf(),
        a.dbs@[dbi].alive || entries.len() == 0,
        spent(a.pager, b.pager, oldest, most_room(a.dbs@[dbi].tree.depth())),
    ensures
        g.bears(b),
        level_view(b, g.arena) == level_view(a, g.arena).write(
            dbi,
            DbView { flags: a.dbs@[dbi].flags, entries },
            txnid,
            level_view(b, g.arena).outcome(dbi),
        ),
        level_view(a, g.arena).leads_to(
            level_view(b, g.arena),
            oldest,
            most_room(a.dbs@[dbi].tree.depth()),
        ),
{
    reveal(spent);
    let pa = a.pager;
    let pb = b.pager;
    let ma = pa.map(g.arena);
    let mb = pb.map(g.arena);
    let am = arena_map(g.arena);
    let t = a.dbs@[dbi].tree;
    let u = b.dbs@[dbi].tree;
    let cap = g.cap;
    assert(a.dbs@[dbi].ok(ma, cap));
    // A page that was taken belongs to no other tree.
    assert forall|j: int, q: u64|
        0 <= j < a.dbs@.len() && #[trigger] pb.took(pa, q) implies !(#[trigger] a.dbs@[j]).tree.has(ma, q) by {
        let tj = a.dbs@[j].tree;
        assert(tj.in_use(pa, ma));
        if tj.count > 0 {
            lemma_took_unused(pa, pb, oldest, ma, tj.root, tj.height as nat, q);
        }
    }
    // The other trees are as they were.
    assert forall|j: int| 0 <= j < a.dbs@.len() && j != dbi implies (#[trigger] b.dbs@[j]).state(mb)
        == a.dbs@[j].state(ma) && b.dbs@[j].ok(mb, cap) && b.dbs@[j].tree.in_use(pb, mb) && (forall|
        q: u64,
    |
        b.dbs@[j].tree.has(mb, q) == a.dbs@[j].tree.has(ma, q)) by {
        let r = a.dbs@[j];
        assert(b.dbs@[j] == r);
        assert(r.ok(ma, cap));
        assert(r.tree.in_use(pa, ma));
        assert forall|q: u64| r.tree.has(ma, q) implies page(mb, q) == page(ma, q) by {
            assert(!t.has(ma, q));
            assert(!pb.took(pa, q));
        }
        lemma_record_frame(r, ma, mb, cap);
        if r.tree.count > 0 {
            reveal(live);
            assert forall|q: u64| #[trigger]
                crate::tree::sub_has(mb, r.tree.root, r.tree.height as nat, q) implies !pb.freed@.contains(q)
                && !pb.space@.lists(q) && q < pb.space@.next by {
                assert(r.tree.has(mb, q));
                assert(r.tree.has(ma, q));
                if pb.space@.lists(q) {
                    assert(pa.space@.lists(q));
                }
                if pb.freed@.contains(q) {
                    let x = choose|x: int| 0 <= x < pb.freed@.len() && pb.freed@[x] == q;
                    if x < pa.freed@.len() {
                        assert(pb.freed@.take(pa.freed@.len() as int)[x] == pa.freed@[x]);
                        assert(pa.freed@.contains(q));
                    } else {
                        assert(t.has(ma, pb.freed@[x]) || pb.took(pa, pb.freed@[x]));
                    }
                }
            }
        }
    }
    assert(b.dbs@[dbi].ok(mb, cap));
    assert(version_ok(b.dbs@, mb, cap)) by {
        assert forall|i: int| 0 <= i < b.dbs@.len() implies (#[trigger] b.dbs@[i]).ok(mb, cap) by {}
        assert(b.dbs@[0].alive == a.dbs@[0].alive);
        assert(b.dbs@[1].alive == a.dbs@[1].alive);
        assert(b.dbs@[1].name@ == a.dbs@[1].name@);
        assert forall|i: int, j: int, q: u64|
            0 <= i < b.dbs@.len() && 0 <= j < b.dbs@.len() && i != j && #[trigger] b.dbs@[i].tree.has(
                mb,
                q,
            ) implies !#[trigger] b.dbs@[j].tree.has(mb, q) by {
            if i == dbi {
                assert(u.has(mb, q));
                assert(t.has(ma, q) || pb.took(pa, q));
                assert(a.dbs@[i].tree.has(ma, q) || pb.took(pa, q));
                if b.dbs@[j].tree.has(mb, q) {
                    assert(a.dbs@[j].tree.has(ma, q));
                }
            } else if j == dbi {
                assert(a.dbs@[i].tree.has(ma, q));
                if u.has(mb, q) {
                    assert(t.has(ma, q) || pb.took(pa, q));
                    assert(a.dbs@[j].tree.has(ma, q) || pb.took(pa, q));
                }
            } else {
                assert(a.dbs@[i].tree.has(ma, q));
                if b.dbs@[j].tree.has(mb, q) {
                    assert(a.dbs@[j].tree.has(ma, q));
                }
            }
        }
    }
    assert(all_in_use(b.dbs@, pb, mb)) by {
        assert forall|i: int| 0 <= i < b.dbs@.len() implies (#[trigger] b.dbs@[i]).tree.in_use(pb, mb) by {}
    }
    assert forall|p: u64| #[trigger] holds(pb.over@, p) implies !uses(g.dbs, am, p) && (forall|s: int|
        0 <= s < g.readers.len() && (#[trigger] g.readers[s]).pins() ==> !uses(
            g.readers[s].dbs@,
            am,
            p,
        )) by {
        if !holds(pa.over@, p) {
            assert(pb.took(pa, p));
            lemma_taken_page_unused(g, pa, pb, oldest, p);
        }
    }
    // No page is lost.
    assert forall|p: u64| p < pb.space@.next implies #[trigger] accounted(b.dbs@, pb, mb, p) by {
        if holds(pb.over@, p) && !holds(pa.over@, p) {
            assert(pb.took(pa, p));
            assert(u.places(pb, mb, p));
            if u.has(mb, p) {
                assert(b.dbs@[dbi].tree.has(mb, p));
            }
        } else if p >= pa.space@.next {
            assert(holds(pb.over@, p));
            let k = choose|k: int| 0 <= k < pa.over@.len() && (#[trigger] pa.over@[k]).pgno == p;
            assert(pa.over@[k].pgno < pa.space@.next);
        } else {
            assert(accounted(a.dbs@, pa, ma, p));
            if uses(a.dbs@, ma, p) {
                let j = choose|j: int| 0 <= j < a.dbs@.len() && (#[trigger] a.dbs@[j]).tree.has(ma, p);
                if j == dbi {
                    assert(u.places(pb, mb, p));
                    if u.has(mb, p) {
                        assert(b.dbs@[dbi].tree.has(mb, p));
                    }
                } else {
                    assert(b.dbs@[j].tree.has(mb, p));
                }
            } else if pa.space@.lists(p) {
                if !pb.space@.lists(p) {
                    assert(holds(pb.over@, p));
                    if holds(pa.over@, p) {
                        let k = choose|k: int| 0 <= k < pa.over@.len() && (#[trigger] pa.over@[k]).pgno == p;
                        assert(!pa.space@.lists(pa.over@[k].pgno));
                    }
                }
            } else {
                let j = choose|j: int| 0 <= j < pa.freed@.len() && pa.freed@[j] == p;
                assert(pb.freed@.take(pa.freed@.len() as int)[j] == pa.freed@[j]);
                assert(pb.freed@[j] == p);
            }
        }
    }
    assert(g.bears(b));
    let d = DbView { flags: a.dbs@[dbi].flags, entries };
    let wa = level_view(a, g.arena);
    let wb = level_view(b, g.arena);
    assert(wb.dbs =~= wa.write(dbi, d, txnid, wb.outcome(dbi)).dbs) by {
        assert(b.dbs@[dbi].state(mb).db == d);
    }
}

/// Changes the entries of sub-database `dbi` as `change` says, on pages
/// that the transaction owns.
pub fn level_apply(
    l: &mut Level,
    arena: &Vec<Page>,
    dbi: usize,
    change: Change,
    k: &[u8],
    v: &[u8],
    oldest: Option<u64>,
    txnid: u64,
    cap: usize,
    Ghost(g): Ghost<Ground>,
) -> (r: Result<(), MdbxError>)
    requires
        g.ok(),
        g.arena == arena@,
        g.cap == cap,
        4 <= cap,
        2 * cap <= usize::MAX,
        cap % 2 == 0,
        g.bears(*old(l)),
        oldest == oldest_reader(g.readers),
        dbi < old(l).dbs.len(),
        old(l).dbs[dbi as int].alive,
        change.fits(old(l).dbs[dbi as int].entries(old(l).pager.map(arena@))),
        change != Change::Put(PutPlan::Keep),
        (DbView {
            flags: old(l).dbs[dbi as int].flags,
            entries: change.result(old(l).dbs[dbi as int].entries(old(l).pager.map(arena@)), k@, v@),
        }).wf(),
    ensures
        g.bears(*final(l)),
        ({
            let d = DbView {
                flags: old(l).dbs[dbi as int].flags,
                entries: change.result(
                    old(l).dbs[dbi as int].entries(old(l).pager.map(arena@)),
                    k@,
                    v@,
                ),
            };
            let wa = level_view(*old(l), arena@);
            let wb = level_view(*final(l), arena@);
            if change == Change::Clear {
                r is Ok && wb == wa.write(dbi as int, d, txnid, wb.outcome(dbi as int))
            } else {
                match wa.change(dbi as int, d, oldest, txnid, wb.outcome(dbi as int)) {
                    Ok(w) => r is Ok && wb == w,
                    Err(e) => r == Err::<(), MdbxError>(e) && *final(l) == *old(l),
                }
            }
        }),
        r is Ok ==> level_view(*old(l), arena@).leads_to(
            level_view(*final(l), arena@),
            oldest,
            most_room(old(l).dbs[dbi as int].tree.depth()),
        ),
        r is Ok && change != Change::Clear ==> depth_near(
            old(l).dbs[dbi as int].tree.depth(),
            final(l).dbs[dbi as int].tree.depth(),
        ),
{
    let ghost before = *l;
    let ghost ma = l.pager.map(arena@);
    let ghost old_entries = l.dbs[dbi as int].entries(ma);
    let ghost new_entries = change.result(old_entries, k@, v@);
    let t = l.dbs[dbi].tree;
    proof {
        assert(before.dbs@[dbi as int].ok(ma, cap as nat));
        assert(t.in_use(before.pager, ma));
        if t.count > 0 {
            lemma_low(ma, t, cap as nat);
        }
    }
    let depth: usize = if t.count == 0 {
        0
    } else {
        t.height + 1
    };
    assert(depth == t.depth());
    let u = match change {
        Change::Clear => clear(t, &mut l.pager, arena, Ghost(cap as nat), Ghost(oldest)),
        Change::Put(PutPlan::Insert { at }) => {
            if t.count == usize::MAX || !has_room_for(&l.pager.space, oldest, 2 * depth + 1) {
                return Err(MdbxError::MapFull);
            }
            let e = new_entry(k, v);
            insert(t, &mut l.pager, arena, at, e, cap, oldest)
        },
        Change::Put(PutPlan::Keep) => {
            return Ok(());
        },
        Change::Put(plan) => {
            if !has_room_for(&l.pager.space, oldest, 2 * depth) {
                return Err(MdbxError::MapFull);
            }
            let at = match plan {
                PutPlan::Replace { at } => at,
                PutPlan::Join { at, val_at } => at,
                PutPlan::Swap { at, val_at } => at,
                _ => 0,
            };
            let rows = Rows { pg: &l.pager, arena, tree: t, cap: Ghost(cap as nat) };
            let e = put_entry(rows.at(at), plan, v);
            replace(t, &mut l.pager, arena, at, e, cap, oldest)
        },
        Change::Del(DelPlan::Entry { at }) => {
            let need: usize = if depth <= 1 {
                2
            } else {
                6 * depth + 4
            };
            if !has_room_for(&l.pager.space, oldest, need) {
                return Err(MdbxError::MapFull);
            }
            remove(t, &mut l.pager, arena, at, cap, oldest)
        },
        Change::Del(DelPlan::Value { at, val_at }) => {
            if !has_room_for(&l.pager.space, oldest, 2 * depth) {
                return Err(MdbxError::MapFull);
            }
            let rows = Rows { pg: &l.pager, arena, tree: t, cap: Ghost(cap as nat) };
            let e = cut_entry(rows.at(at), val_at);
            replace(t, &mut l.pager, arena, at, e, cap, oldest)
        },
    };
    proof {
        match change {
            Change::Clear => {
                crate::grow::lemma_spent_none(before.pager, l.pager, oldest);
                lemma_spent_less(before.pager, l.pager, oldest, 0, most_room(t.depth()));
            },
            Change::Put(PutPlan::Insert { at }) => {
                lemma_spent_less(before.pager, l.pager, oldest, room_to_add(t.depth()), most_room(t.depth()));
            },
            Change::Del(DelPlan::Entry { at }) => {
                lemma_spent_less(before.pager, l.pager, oldest, room_to_cut(t.depth()), most_room(t.depth()));
            },
            _ => {
                lemma_spent_less(
                    before.pager,
                    l.pager,
                    oldest,
                    room_to_change(t.depth()),
                    most_room(t.depth()),
                );
            },
        }
    }
    l.dbs[dbi].tree = u;
    l.dbs[dbi].mod_txnid = txnid;
    proof {
        lemma_level_after(g, before, *l, dbi as int, oldest, new_entries, txnid);
    }
    Ok(())
}

} // verus!
