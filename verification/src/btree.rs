//! The tree of a sub-database as a whole: its root page, its height, and
//! the number of its entries.
//!
//! A tree without entries has no page. The first entry makes a leaf, which
//! is the root. A root that splits gets a branch above it, and the tree
//! grows by a level; a branch root whose two pages fit on one page gives way
//! to that page, and the tree shrinks by a level.
use crate::grow::{
    built, descend, ins, kept, lemma_leaf_alone, lemma_took_unused, live, placed, rep, spent, whole,
};
use crate::leaf::{entries_view, Entry};
use crate::model::{room_to_add, room_to_change, room_to_cut, EntryView};
use crate::pager::{can_take, holds, lemma_can_take_less, lemma_grown_trans, Pager};
use crate::shrink::{
    balance, balanced, count_items, cut_at, glue, joined, left_behind, lemma_budget,
    lemma_spent_less, lemma_total_mono, links_of, mass, pair_of, pair_pre, part, rem, rem_leaf,
    rich_at, roomy,
};
use crate::tree::{
    apart, below, entry_at, flat, items, lemma_sub_frame, page, sub_has, sub_ok, sub_view, total,
    Link, Page, PageView, Pages,
};
use vstd::arithmetic::power2::{
    lemma2_to64, lemma2_to64_rest, lemma_pow2_strictly_increases, lemma_pow2_unfold, pow2,
};
use vstd::prelude::*;

verus! {

/// The tree of a sub-database.
#[derive(Clone, Copy)]
pub struct Tree {
    /// The number of the root page; it means nothing while the tree is
    /// empty.
    pub root: u64,
    /// How many levels the root stands above the leaves.
    pub height: usize,
    /// The number of entries.
    pub count: usize,
}

impl Tree {
    /// Whether page `q` belongs to the tree.
    pub open spec fn has(self, m: Pages, q: u64) -> bool {
        self.count > 0 && sub_has(m, self.root, self.height as nat, q)
    }

    /// The entries of the tree, in their order.
    pub open spec fn entries(self, m: Pages) -> Seq<EntryView> {
        if self.count > 0 {
            sub_view(m, self.root, self.height as nat)
        } else {
            Seq::empty()
        }
    }

    /// The invariant: a tree with entries is in order beneath its root.
    pub open spec fn ok(self, m: Pages, cap: nat) -> bool {
        self.count > 0 ==> sub_ok(m, self.root, self.height as nat, self.count as nat, cap)
    }

    /// Whether every page of the tree is in use.
    pub open spec fn in_use(self, pg: Pager, m: Pages) -> bool {
        self.count > 0 ==> live(pg, m, self.root, self.height as nat)
    }

    /// Whether page `q` has a place: it belongs to the tree, or it was given
    /// up.
    pub open spec fn places(self, pg: Pager, m: Pages, q: u64) -> bool {
        self.has(m, q) || pg.freed@.contains(q)
    }

    /// The number of levels: none for an empty tree, one for a single leaf.
    pub open spec fn depth(self) -> nat {
        if self.count > 0 {
            self.height as nat + 1
        } else {
            0
        }
    }
}

/// What a change of the tree `t` into the tree `u` keeps and builds: the
/// pager is in order and has grown; the new tree is in order, in use, and
/// holds `view`; its pages are pages of the old tree or pages that were
/// taken; every other page is as it was; nothing was given up but pages of
/// the old tree and pages that were taken; and no page was lost: every page
/// of the old tree, and every page that was taken, belongs to the new tree
/// or was given up.
pub open spec fn stepped(
    a: Pager,
    b: Pager,
    ma: Pages,
    mb: Pages,
    t: Tree,
    u: Tree,
    view: Seq<EntryView>,
    cap: nat,
    oldest: Option<u64>,
) -> bool {
    &&& b.wf()
    &&& b.grown(a, oldest)
    &&& u.ok(mb, cap)
    &&& u.in_use(b, mb)
    &&& u.entries(mb) == view
    &&& u.count == view.len()
    &&& forall|q: u64| #[trigger] u.has(mb, q) ==> t.has(ma, q) || b.took(a, q)
    &&& forall|q: u64| !t.has(ma, q) && !b.took(a, q) ==> #[trigger] page(mb, q) == page(ma, q)
    &&& forall|j: int|
        a.freed@.len() <= j < b.freed@.len() ==> t.has(ma, #[trigger] b.freed@[j]) || b.took(
            a,
            b.freed@[j],
        )
    &&& forall|q: u64| t.has(ma, q) || b.took(a, q) ==> #[trigger] u.places(b, mb, q)
}

/// A tree of height `h` holds at least two to the `h` entries.
pub proof fn lemma_height(m: Pages, p: u64, h: nat, n: nat, cap: nat)
    requires
        sub_ok(m, p, h, n, cap),
    ensures
        pow2(h) <= n,
    decreases h,
{
    lemma2_to64();
    match page(m, p) {
        PageView::Branch(ls) => {
            let k = (h - 1) as nat;
            lemma_height(m, ls[0].pgno, k, ls[0].count as nat, cap);
            lemma_height(m, ls[1].pgno, k, ls[1].count as nat, cap);
            lemma_pow2_unfold(h);
            lemma_total_mono(ls, 2, ls.len() as int);
            assert(ls.take(ls.len() as int) =~= ls);
            let two = ls.take(2);
            assert(two.drop_last() =~= ls.take(1));
            assert(ls.take(1).drop_last() =~= Seq::<Link>::empty());
            assert(total(ls.take(1)) == ls[0].count) by {
                assert(total(ls.take(1).drop_last()) == 0);
                assert(ls.take(1).last() == ls[0]);
            }
            assert(total(two) == ls[0].count + ls[1].count) by {
                assert(two.last() == ls[1]);
            }
        },
        _ => {},
    }
}

/// A tree whose entries can be counted has fewer than 64 levels.
pub proof fn lemma_low(m: Pages, t: Tree, cap: nat)
    requires
        t.ok(m, cap),
        t.count > 0,
    ensures
        t.height < 64,
{
    lemma_height(m, t.root, t.height as nat, t.count as nat, cap);
    lemma2_to64();
    lemma2_to64_rest();
    if t.height >= 64 {
        if t.height > 64 {
            lemma_pow2_strictly_increases(64, t.height as nat);
        }
        assert(pow2(64) == 0x10000000000000000);
    }
}

/// A change beneath the root that built one tree is a change of the tree.
pub proof fn lemma_step(
    a: Pager,
    b: Pager,
    ma: Pages,
    mb: Pages,
    t: Tree,
    view: Seq<EntryView>,
    r: Link,
    cap: nat,
    oldest: Option<u64>,
)
    requires
        t.count > 0,
        kept(a, b, ma, mb, t.root, t.height as nat, oldest),
        built(a, b, ma, mb, t.root, t.height as nat, view, (r, None), cap),
        whole(a, b, ma, mb, t.root, t.height as nat, (r, None)),
    ensures
        stepped(
            a,
            b,
            ma,
            mb,
            t,
            Tree { root: r.pgno, height: t.height, count: r.count },
            view,
            cap,
            oldest,
        ),
        r.count > 0,
{
    reveal(kept);
    reveal(built);
    crate::tree::lemma_sub_len(mb, r.pgno, t.height as nat, r.count as nat, cap);
    crate::shrink::lemma_items(mb, r.pgno, t.height as nat, r.count as nat, cap);
    lemma_height(mb, r.pgno, t.height as nat, r.count as nat, cap);
    vstd::arithmetic::power2::lemma_pow2_pos(t.height as nat);
    let u = Tree { root: r.pgno, height: t.height, count: r.count };
    assert forall|q: u64| t.has(ma, q) || b.took(a, q) implies #[trigger] u.places(b, mb, q) by {
        reveal(whole);
        assert(placed(b, mb, (r, None), t.height as nat, q));
    }
}

/// Entry `i` of the tree.
pub fn get<'a>(t: &Tree, pg: &'a Pager, arena: &'a Vec<Page>, i: usize, Ghost(cap): Ghost<nat>) -> (e:
    &'a Entry)
    requires
        pg.wf(),
        t.ok(pg.map(arena@), cap),
        i < t.count,
    ensures
        e@ == t.entries(pg.map(arena@))[i as int],
{
    entry_at(pg, arena, t.root, t.height, i, Ghost(t.count as nat), Ghost(cap))
}

/// A leaf that was taken for the first entry of a tree is the tree.
proof fn lemma_first(a: Pager, b: Pager, ma: Pages, mb: Pages, t: Tree, p: u64, e: EntryView, cap: nat, oldest: Option<u64>)
    requires
        a.wf(),
        b.wf(),
        b.grown(a, oldest),
        t.count == 0,
        4 <= cap,
        mb == ma.insert(p, PageView::Leaf(seq![e])),
        b.took(a, p),
        b.freed == a.freed,
        !a.freed@.contains(p),
        forall|q: u64| holds(b.over@, q) == (holds(a.over@, q) || q == p),
    ensures
        stepped(a, b, ma, mb, t, Tree { root: p, height: 0, count: 1 }, seq![e], cap, oldest),
{
    reveal(live);
    lemma_leaf_alone(mb, p);
    let k = choose|k: int| 0 <= k < b.over@.len() && (#[trigger] b.over@[k]).pgno == p;
    assert(b.over@[k].pgno < b.space@.next && !b.space@.lists(b.over@[k].pgno));
    assert(Seq::<EntryView>::empty().insert(0, e) =~= seq![e]);
}

/// A branch that was taken as the root above the two halves of the old
/// root is the tree.
proof fn lemma_root(
    a: Pager,
    b: Pager,
    c: Pager,
    ma: Pages,
    mb: Pages,
    mc: Pages,
    t: Tree,
    view: Seq<EntryView>,
    l: Link,
    s: Link,
    p: u64,
    cap: nat,
    oldest: Option<u64>,
)
    requires
        a.wf(),
        t.count > 0,
        t.count < usize::MAX,
        t.height < usize::MAX,
        4 <= cap,
        l.count + s.count == t.count + 1,
        view.len() == t.count + 1,
        kept(a, b, ma, mb, t.root, t.height as nat, oldest),
        built(a, b, ma, mb, t.root, t.height as nat, view, (l, Some(s)), cap),
        whole(a, b, ma, mb, t.root, t.height as nat, (l, Some(s))),
        c.wf(),
        c.grown(b, oldest),
        mc == mb.insert(p, PageView::Branch(seq![l, s])),
        c.took(b, p),
        c.freed == b.freed,
        !b.freed@.contains(p),
        forall|q: u64| holds(c.over@, q) == (holds(b.over@, q) || q == p),
    ensures
        stepped(
            a,
            c,
            ma,
            mc,
            t,
            Tree { root: p, height: (t.height + 1) as usize, count: (t.count + 1) as usize },
            view,
            cap,
            oldest,
        ),
{
    reveal(kept);
    reveal(built);
    reveal(live);
    let h = t.height as nat;
    let ls = seq![l, s];
    lemma_grown_trans(a, b, c, oldest);
    lemma_took_unused(b, c, oldest, mb, l.pgno, h, p);
    lemma_took_unused(b, c, oldest, mb, s.pgno, h, p);
    lemma_sub_frame(mb, mc, l.pgno, h, l.count as nat, cap);
    lemma_sub_frame(mb, mc, s.pgno, h, s.count as nat, cap);
    assert(page(mc, l.pgno) == page(mb, l.pgno)) by {
        assert(sub_has(mb, l.pgno, h, l.pgno));
    }
    assert(page(mc, s.pgno) == page(mb, s.pgno)) by {
        assert(sub_has(mb, s.pgno, h, s.pgno));
    }
    assert(crate::grow::fit(mc, ls, h, cap)) by {
        assert forall|i: int, j: int| 0 <= i < ls.len() && 0 <= j < ls.len() && i != j implies apart(
            mc,
            (#[trigger] ls[i]).pgno,
            (#[trigger] ls[j]).pgno,
            h,
        ) by {
            assert(apart(mb, l.pgno, s.pgno, h));
        }
    }
    assert(!crate::grow::links_have(mc, ls, h, p)) by {
        if crate::grow::links_have(mc, ls, h, p) {
            let i = choose|i: int| 0 <= i < ls.len() && sub_has(mc, (#[trigger] ls[i]).pgno, h, p);
            assert(sub_has(mc, ls[i].pgno, h, p));
        }
    }
    crate::grow::lemma_branch(mc, p, ls, h + 1, cap);
    assert(total(ls) == l.count + s.count) by {
        assert(ls.drop_last() =~= seq![l]);
        assert(seq![l].drop_last() =~= Seq::<Link>::empty());
        assert(total(seq![l].drop_last()) == 0);
        assert(total(seq![l]) == l.count);
    }
    assert(flat(below(mc, ls, h)) == view) by {
        let vs = below(mc, ls, h);
        assert(vs.drop_last() =~= seq![sub_view(mc, l.pgno, h)]);
        crate::tree::lemma_flat_one(sub_view(mc, l.pgno, h));
        assert(vs.last() == sub_view(mc, s.pgno, h));
    }
    let u = Tree { root: p, height: (t.height + 1) as usize, count: (t.count + 1) as usize };
    let k = choose|k: int| 0 <= k < c.over@.len() && (#[trigger] c.over@[k]).pgno == p;
    assert(c.over@[k].pgno < c.space@.next && !c.space@.lists(c.over@[k].pgno));
    assert forall|q: u64| #[trigger] sub_has(mc, p, h + 1, q) implies (t.has(ma, q) || c.took(a, q))
        && !c.freed@.contains(q) && !c.space@.lists(q) && q < c.space@.next by {
        if q != p {
            let i = choose|i: int| 0 <= i < ls.len() && sub_has(mc, (#[trigger] ls[i]).pgno, h, q);
            assert(sub_has(mb, ls[i].pgno, h, q));
            if c.space@.lists(q) {
                assert(b.space@.lists(q));
            }
            if b.took(a, q) {
                assert(holds(c.over@, q));
            }
        }
    }
    assert(u.ok(mc, cap));
    assert(u.in_use(c, mc));
    assert(u.entries(mc) == view);
    assert forall|q: u64| #[trigger] u.has(mc, q) implies t.has(ma, q) || c.took(a, q) by {
        assert(sub_has(mc, p, h + 1, q));
    }
    assert forall|q: u64| !t.has(ma, q) && !c.took(a, q) implies #[trigger] page(mc, q) == page(ma, q) by {
        if b.took(a, q) {
            assert(holds(c.over@, q));
        }
        assert(page(mb, q) == page(ma, q));
    }
    assert forall|j: int| a.freed@.len() <= j < c.freed@.len() implies t.has(ma, #[trigger] c.freed@[j])
        || c.took(a, c.freed@[j]) by {
        if b.took(a, b.freed@[j]) {
            assert(holds(c.over@, b.freed@[j]));
        }
    }
    assert forall|q: u64| t.has(ma, q) || c.took(a, q) implies #[trigger] u.places(c, mc, q) by {
        reveal(whole);
        assert(sub_has(mc, p, h + 1, p));
        if q != p {
            assert(t.has(ma, q) || b.took(a, q));
            assert(placed(b, mb, (l, Some(s)), h, q));
            if sub_has(mb, l.pgno, h, q) {
                assert(ls[0] == l);
                assert(sub_has(mc, ls[0].pgno, h, q));
                assert(crate::grow::links_have(mc, ls, h, q));
            } else if sub_has(mb, s.pgno, h, q) {
                assert(ls[1] == s);
                assert(sub_has(mc, ls[1].pgno, h, q));
                assert(crate::grow::links_have(mc, ls, h, q));
            }
        }
    }
}

/// Puts the entry `e` into the tree at index `i`; the entries from `i` on
/// move up by one.
pub fn insert(t: Tree, pg: &mut Pager, arena: &Vec<Page>, i: usize, e: Entry, cap: usize, oldest: Option<u64>) -> (u:
    Tree)
    requires
        old(pg).wf(),
        t.ok(old(pg).map(arena@), cap as nat),
        t.in_use(*old(pg), old(pg).map(arena@)),
        i <= t.count,
        t.count < usize::MAX,
        4 <= cap < usize::MAX,
        can_take(old(pg).space@, oldest, room_to_add(t.depth())),
    ensures
        stepped(
            *old(pg),
            *final(pg),
            old(pg).map(arena@),
            final(pg).map(arena@),
            t,
            u,
            t.entries(old(pg).map(arena@)).insert(i as int, e@),
            cap as nat,
            oldest,
        ),
        u.count == t.count + 1,
        spent(*old(pg), *final(pg), oldest, room_to_add(t.depth())),
        u.depth() == t.depth() || u.depth() == t.depth() + 1,
{
    let ghost a = *pg;
    let ghost ma = pg.map(arena@);
    let ghost view = t.entries(ma).insert(i as int, e@);
    if t.count == 0 {
        let ghost ev = e@;
        let mut es: Vec<Entry> = Vec::new();
        es.push(e);
        assert(entries_view(es@) =~= seq![ev]);
        let p = pg.fresh(Page::Leaf(es), oldest, Ghost(arena@));
        proof {
            lemma_first(a, *pg, ma, pg.map(arena@), t, p, ev, cap as nat, oldest);
            assert(view =~= seq![ev]);
            crate::grow::lemma_spent_one(a, *pg, oldest, p);
        }
        return Tree { root: p, height: 0, count: 1 };
    }
    proof {
        lemma_low(ma, t, cap as nat);
        lemma_can_take_less(a.space@, oldest, room_to_add(t.depth()), 2 * (t.height as nat + 1));
        crate::tree::lemma_sub_len(ma, t.root, t.height as nat, t.count as nat, cap as nat);
    }
    let r = ins(pg, arena, t.root, t.height, i, e, cap, oldest, Ghost(t.count as nat));
    let ghost b = *pg;
    let ghost mb = pg.map(arena@);
    match r.1 {
        None => {
            proof {
                lemma_step(a, b, ma, mb, t, view, r.0, cap as nat, oldest);
                lemma_spent_less(a, b, oldest, 2 * (t.height as nat + 1), room_to_add(t.depth()));
            }
            Tree { root: r.0.pgno, height: t.height, count: r.0.count }
        },
        Some(s) => {
            let mut ls: Vec<Link> = Vec::new();
            ls.push(r.0);
            ls.push(s);
            proof {
                reveal(kept);
                lemma_budget(a, b, oldest, 2 * (t.height as nat + 1), 1);
                assert(ls@ =~= seq![r.0, s]);
            }
            let p = pg.fresh(Page::Branch(ls), oldest, Ghost(arena@));
            proof {
                lemma_root(a, b, *pg, ma, mb, pg.map(arena@), t, view, r.0, s, p, cap as nat, oldest);
                crate::grow::lemma_spent_one(b, *pg, oldest, p);
                crate::grow::lemma_spent_add(a, b, *pg, oldest, 2 * (t.height as nat + 1), 1);
            }
            Tree { root: p, height: t.height + 1, count: t.count + 1 }
        },
    }
}

/// Puts the entry `e` in the place of entry `i` of the tree.
pub fn replace(t: Tree, pg: &mut Pager, arena: &Vec<Page>, i: usize, e: Entry, cap: usize, oldest: Option<u64>) -> (u:
    Tree)
    requires
        old(pg).wf(),
        t.ok(old(pg).map(arena@), cap as nat),
        t.in_use(*old(pg), old(pg).map(arena@)),
        i < t.count,
        4 <= cap < usize::MAX,
        can_take(old(pg).space@, oldest, room_to_change(t.depth())),
    ensures
        stepped(
            *old(pg),
            *final(pg),
            old(pg).map(arena@),
            final(pg).map(arena@),
            t,
            u,
            t.entries(old(pg).map(arena@)).update(i as int, e@),
            cap as nat,
            oldest,
        ),
        u.count == t.count,
        u.height == t.height,
        spent(*old(pg), *final(pg), oldest, room_to_change(t.depth())),
{
    let ghost a = *pg;
    let ghost ma = pg.map(arena@);
    let ghost view = t.entries(ma).update(i as int, e@);
    let r = rep(pg, arena, t.root, t.height, i, e, cap, oldest, Ghost(t.count as nat));
    proof {
        lemma_step(a, *pg, ma, pg.map(arena@), t, view, r, cap as nat, oldest);
    }
    Tree { root: r.pgno, height: t.height, count: r.count }
}

/// Gives up every page of the tree beneath page `p`.
pub fn wipe(pg: &mut Pager, arena: &Vec<Page>, p: u64, h: usize, Ghost(n): Ghost<nat>, Ghost(cap): Ghost<nat>)
    requires
        old(pg).wf(),
        sub_ok(old(pg).map(arena@), p, h as nat, n, cap),
        live(*old(pg), old(pg).map(arena@), p, h as nat),
    ensures
        final(pg).wf(),
        final(pg).over == old(pg).over,
        final(pg).space == old(pg).space,
        final(pg).freed@.len() >= old(pg).freed@.len(),
        final(pg).freed@.take(old(pg).freed@.len() as int) == old(pg).freed@,
        forall|q: u64| #[trigger]
            final(pg).freed@.contains(q) ==> old(pg).freed@.contains(q) || sub_has(
                old(pg).map(arena@),
                p,
                h as nat,
                q,
            ),
        forall|q: u64| #[trigger] old(pg).freed@.contains(q) ==> final(pg).freed@.contains(q),
        forall|q: u64| #[trigger]
            sub_has(old(pg).map(arena@), p, h as nat, q) ==> final(pg).freed@.contains(q),
    decreases h,
{
    let ghost a = *pg;
    let ghost m = pg.map(arena@);
    proof {
        reveal(live);
        crate::shrink::lemma_items(m, p, h as nat, n, cap);
        assert(sub_has(m, p, h as nat, p));
    }
    let ls: Vec<Link> = match pg.read(arena, p) {
        Page::Branch(ls) => crate::grow::copy_links(ls),
        _ => Vec::new(),
    };
    let mut k: usize = 0;
    while k < ls.len()
        invariant
            pg.wf(),
            a.wf(),
            pg.over == a.over,
            pg.space == a.space,
            m == a.map(arena@),
            sub_ok(m, p, h as nat, n, cap),
            live(a, m, p, h as nat),
            page(m, p) is Branch ==> page(m, p) == PageView::Branch(ls@) && h > 0,
            !(page(m, p) is Branch) ==> ls@.len() == 0,
            k <= ls@.len(),
            pg.freed@.len() >= a.freed@.len(),
            pg.freed@.take(a.freed@.len() as int) == a.freed@,
            forall|q: u64| #[trigger]
                pg.freed@.contains(q) ==> a.freed@.contains(q) || crate::grow::links_have(
                    m,
                    ls@.take(k as int),
                    (h - 1) as nat,
                    q,
                ),
            forall|q: u64| #[trigger] a.freed@.contains(q) ==> pg.freed@.contains(q),
            forall|q: u64| #[trigger]
                crate::grow::links_have(m, ls@.take(k as int), (h - 1) as nat, q)
                    ==> pg.freed@.contains(q),
        decreases ls@.len() - k,
    {
        let ghost b = *pg;
        let ghost g = (h - 1) as nat;
        let c = ls[k];
        proof {
            reveal(live);
            assert(b.map(arena@) == m);
            assert(sub_ok(m, ls@[k as int].pgno, g, ls@[k as int].count as nat, cap));
            assert(live(b, m, c.pgno, g)) by {
                assert forall|q: u64| #[trigger] sub_has(m, c.pgno, g, q) implies !b.freed@.contains(q)
                    && !b.space@.lists(q) && q < b.space@.next by {
                    crate::grow::lemma_has_up(m, p, h as nat, ls@, k as int, q);
                    assert(sub_has(m, p, h as nat, q));
                    assert(!a.freed@.contains(q));
                    if b.freed@.contains(q) {
                        assert(crate::grow::links_have(m, ls@.take(k as int), g, q));
                    }
                    if crate::grow::links_have(m, ls@.take(k as int), g, q) {
                        let j = choose|j: int|
                            0 <= j < ls@.take(k as int).len() && sub_has(
                                m,
                                (#[trigger] ls@.take(k as int)[j]).pgno,
                                g,
                                q,
                            );
                        assert(ls@.take(k as int)[j] == ls@[j]);
                        assert(apart(m, ls@[j].pgno, ls@[k as int].pgno, g));
                    }
                }
            }
        }
        wipe(pg, arena, c.pgno, h - 1, Ghost(c.count as nat), Ghost(cap));
        proof {
            let d = *pg;
            assert(d.freed@.take(a.freed@.len() as int) =~= a.freed@) by {
                assert forall|j: int| 0 <= j < a.freed@.len() implies d.freed@[j] == a.freed@[j] by {
                    assert(d.freed@.take(b.freed@.len() as int)[j] == b.freed@[j]);
                    assert(b.freed@.take(a.freed@.len() as int)[j] == a.freed@[j]);
                }
            }
            let before = ls@.take(k as int);
            let after = ls@.take(k + 1);
            assert forall|q: u64|
                d.freed@.contains(q) <==> a.freed@.contains(q) || crate::grow::links_have(
                    m,
                    after,
                    g,
                    q,
                ) by {
                if d.freed@.contains(q) && !sub_has(m, c.pgno, g, q) {
                    assert(b.freed@.contains(q));
                }
                if a.freed@.contains(q) {
                    assert(b.freed@.contains(q));
                }
                if crate::grow::links_have(m, after, g, q) {
                    let j = choose|j: int|
                        0 <= j < after.len() && sub_has(m, (#[trigger] after[j]).pgno, g, q);
                    if j < k {
                        assert(before[j] == after[j]);
                        assert(sub_has(m, before[j].pgno, g, q));
                        assert(crate::grow::links_have(m, before, g, q));
                    } else {
                        assert(after[j] == ls@[k as int]);
                    }
                }
                if crate::grow::links_have(m, before, g, q) {
                    let j = choose|j: int|
                        0 <= j < before.len() && sub_has(m, (#[trigger] before[j]).pgno, g, q);
                    assert(after[j] == before[j]);
                    assert(sub_has(m, after[j].pgno, g, q));
                    assert(crate::grow::links_have(m, after, g, q));
                }
                if sub_has(m, c.pgno, g, q) {
                    assert(after[k as int] == ls@[k as int]);
                    assert(sub_has(m, after[k as int].pgno, g, q));
                    assert(crate::grow::links_have(m, after, g, q));
                }
                if crate::grow::links_have(m, before, g, q) {
                    assert(crate::grow::links_have(m, after, g, q));
                }
            }
        }
        k = k + 1;
    }
    proof {
        assert(ls@.take(k as int) =~= ls@);
        if crate::grow::links_have(m, ls@, (h - 1) as nat, p) {
            let j = choose|j: int|
                0 <= j < ls@.len() && sub_has(m, (#[trigger] ls@[j]).pgno, (h - 1) as nat, p);
            assert(sub_has(m, ls@[j].pgno, (h - 1) as nat, p));
        }
    }
    let ghost b = *pg;
    pg.retire(p);
    proof {
        let d = *pg;
        assert(d.freed@.take(a.freed@.len() as int) =~= a.freed@) by {
            assert forall|j: int| 0 <= j < a.freed@.len() implies d.freed@[j] == a.freed@[j] by {
                assert(b.freed@.take(a.freed@.len() as int)[j] == a.freed@[j]);
            }
        }
        assert forall|q: u64|
            (d.freed@.contains(q) ==> a.freed@.contains(q) || sub_has(m, p, h as nat, q)) && (
            a.freed@.contains(q) ==> d.freed@.contains(q)) && (sub_has(m, p, h as nat, q)
                ==> d.freed@.contains(q)) by {
            if d.freed@.contains(q) {
                let j = choose|j: int| 0 <= j < d.freed@.len() && d.freed@[j] == q;
                if j < b.freed@.len() {
                    assert(b.freed@[j] == q);
                    assert(b.freed@.contains(q));
                    if crate::grow::links_have(m, ls@, (h - 1) as nat, q) {
                        let i = choose|i: int|
                            0 <= i < ls@.len() && sub_has(m, (#[trigger] ls@[i]).pgno, (h - 1) as nat, q);
                        crate::grow::lemma_has_up(m, p, h as nat, ls@, i, q);
                    }
                }
            }
            if a.freed@.contains(q) {
                assert(b.freed@.contains(q));
                let j = choose|j: int| 0 <= j < b.freed@.len() && b.freed@[j] == q;
                assert(d.freed@[j] == q);
            }
            if sub_has(m, p, h as nat, q) {
                if q == p {
                    assert(d.freed@[b.freed@.len() as int] == p);
                } else {
                    let i = choose|i: int|
                        0 <= i < ls@.len() && sub_has(m, (#[trigger] ls@[i]).pgno, (h - 1) as nat, q);
                    assert(sub_has(m, ls@[i].pgno, (h - 1) as nat, q));
                    assert(crate::grow::links_have(m, ls@, (h - 1) as nat, q));
                    assert(b.freed@.contains(q));
                    let j = choose|j: int| 0 <= j < b.freed@.len() && b.freed@[j] == q;
                    assert(d.freed@[j] == q);
                }
            }
        }
    }
}

/// Takes every entry out of the tree and gives its pages up.
pub fn clear(t: Tree, pg: &mut Pager, arena: &Vec<Page>, Ghost(cap): Ghost<nat>, Ghost(oldest): Ghost<Option<u64>>) -> (u: Tree)
    requires
        old(pg).wf(),
        t.ok(old(pg).map(arena@), cap),
        t.in_use(*old(pg), old(pg).map(arena@)),
    ensures
        stepped(
            *old(pg),
            *final(pg),
            old(pg).map(arena@),
            final(pg).map(arena@),
            t,
            u,
            Seq::empty(),
            cap,
            oldest,
        ),
        u.count == 0,
        final(pg).space == old(pg).space,
{
    let ghost a = *pg;
    if t.count > 0 {
        wipe(pg, arena, t.root, t.height, Ghost(t.count as nat), Ghost(cap));
        proof {
            let b = *pg;
            assert forall|q: u64| t.has(a.map(arena@), q) || b.took(a, q) implies #[trigger] (Tree {
                root: 0,
                height: 0,
                count: 0,
            }).places(b, b.map(arena@), q) by {}
            assert forall|j: int| a.freed@.len() <= j < b.freed@.len() implies t.has(
                a.map(arena@),
                #[trigger] b.freed@[j],
            ) by {
                assert(b.freed@.contains(b.freed@[j]));
                if a.freed@.contains(b.freed@[j]) {
                    let i = choose|i: int| 0 <= i < a.freed@.len() && a.freed@[i] == b.freed@[j];
                    assert(b.freed@.take(a.freed@.len() as int)[i] == a.freed@[i]);
                    assert(b.freed@[i] == b.freed@[j]);
                }
            }
        }
    } else {
        assert(pg.freed@.take(a.freed@.len() as int) =~= a.freed@);
    }
    Tree { root: 0, height: 0, count: 0 }
}

/// A change of a tree after a change of a tree is a change of the tree.
pub proof fn lemma_two_steps(
    a: Pager,
    b: Pager,
    c: Pager,
    ma: Pages,
    mb: Pages,
    mc: Pages,
    t: Tree,
    u: Tree,
    w: Tree,
    v1: Seq<EntryView>,
    v2: Seq<EntryView>,
    cap: nat,
    oldest: Option<u64>,
)
    requires
        stepped(a, b, ma, mb, t, u, v1, cap, oldest),
        stepped(b, c, mb, mc, u, w, v2, cap, oldest),
    ensures
        stepped(a, c, ma, mc, t, w, v2, cap, oldest),
{
    lemma_grown_trans(a, b, c, oldest);
    assert forall|q: u64| #[trigger] c.took(b, q) implies c.took(a, q) by {}
    assert forall|q: u64| #[trigger] b.took(a, q) implies c.took(a, q) by {
        assert(holds(c.over@, q));
    }
    assert forall|q: u64| #[trigger] w.has(mc, q) implies t.has(ma, q) || c.took(a, q) by {
        if u.has(mb, q) {
            if b.took(a, q) {
                assert(c.took(a, q));
            }
        } else {
            assert(c.took(b, q));
        }
    }
    assert forall|q: u64| !t.has(ma, q) && !c.took(a, q) implies #[trigger] page(mc, q) == page(ma, q) by {
        if b.took(a, q) {
            assert(c.took(a, q));
        }
        assert(page(mb, q) == page(ma, q));
        if u.has(mb, q) {
            assert(t.has(ma, q) || b.took(a, q));
        }
        if c.took(b, q) {
            assert(c.took(a, q));
        }
    }
    assert forall|q: u64| t.has(ma, q) || c.took(a, q) implies #[trigger] w.places(c, mc, q) by {
        if t.has(ma, q) || b.took(a, q) {
            assert(u.places(b, mb, q));
            if u.has(mb, q) {
                assert(w.places(c, mc, q));
            } else {
                let j = choose|j: int| 0 <= j < b.freed@.len() && b.freed@[j] == q;
                assert(c.freed@.take(b.freed@.len() as int)[j] == b.freed@[j]);
                assert(c.freed@[j] == q);
            }
        } else {
            assert(c.took(b, q));
            assert(w.places(c, mc, q));
        }
    }
    assert forall|j: int| a.freed@.len() <= j < c.freed@.len() implies t.has(ma, #[trigger] c.freed@[j])
        || c.took(a, c.freed@[j]) by {
        let q = c.freed@[j];
        if j < b.freed@.len() {
            assert(c.freed@.take(b.freed@.len() as int)[j] == b.freed@[j]);
            if b.took(a, q) {
                assert(c.took(a, q));
            }
        } else {
            if u.has(mb, q) {
                if b.took(a, q) {
                    assert(c.took(a, q));
                }
            } else {
                assert(c.took(b, q));
            }
        }
    }
}

/// A tree that stays as it is has changed into itself.
pub proof fn lemma_still(a: Pager, ma: Pages, t: Tree, cap: nat, oldest: Option<u64>)
    requires
        a.wf(),
        t.ok(ma, cap),
        t.in_use(a, ma),
    ensures
        stepped(a, a, ma, ma, t, t, t.entries(ma), cap, oldest),
{
    if t.count > 0 {
        crate::tree::lemma_sub_len(ma, t.root, t.height as nat, t.count as nat, cap);
    }
    assert(a.freed@.take(a.freed@.len() as int) =~= a.freed@);
}

/// Whether entry `i` can be taken out beneath the root of the tree without
/// the root coming to hold a single link.
pub open spec fn cut_ready(m: Pages, u: Tree, i: int, cap: nat) -> bool {
    u.height > 0 ==> items(page(m, u.root)) >= 3 || rich_at(m, u.root, i, cap) || roomy(
        m,
        u.root,
        cap,
    )
}

/// The two pages beneath a root of two links, joined into one page, are
/// the tree, a level lower; the old root is given up.
proof fn lemma_collapse(
    a: Pager,
    b: Pager,
    c: Pager,
    ma: Pages,
    mb: Pages,
    t: Tree,
    ls: Seq<Link>,
    res: (Link, Option<Link>),
    cap: nat,
    oldest: Option<u64>,
)
    requires
        a.wf(),
        t.count > 0,
        t.height > 0,
        4 <= cap,
        cap % 2 == 0,
        sub_ok(ma, t.root, t.height as nat, t.count as nat, cap),
        live(a, ma, t.root, t.height as nat),
        page(ma, t.root) == PageView::Branch(ls),
        ls.len() == 2,
        items(page(ma, ls[0].pgno)) + items(page(ma, ls[1].pgno)) <= cap,
        b.wf(),
        b.grown(a, oldest),
        balanced(a, b, ma, mb, ls[0], ls[1], true, cap, res),
        left_behind(b, ls[0].pgno, ls[1].pgno, pair_of(res)),
        c.wf(),
        c.over == b.over,
        c.space == b.space,
        c.freed@ == b.freed@.push(t.root),
    ensures
        res.1 is None,
        res.0.count == t.count,
        stepped(
            a,
            c,
            ma,
            mb,
            t,
            Tree { root: res.0.pgno, height: (t.height - 1) as usize, count: t.count },
            t.entries(ma),
            cap,
            oldest,
        ),
        items(page(mb, res.0.pgno)) >= 4,
{
    reveal(balanced);
    let p = t.root;
    let h = t.height as nat;
    let k = (h - 1) as nat;
    let n = t.count as nat;
    let pl = page(ma, ls[0].pgno);
    let pr = page(ma, ls[1].pgno);
    let tt = (items(pl) + items(pr)) as int;
    let left = part(glue(pl, pr), 0, tt);
    let m = res.0.pgno;
    crate::shrink::lemma_balance_sizes(ma, p, h, n, cap, ls, 0, true);
    assert(cut_at(pl, pr, true, cap) == tt);
    assert(pair_pre(a, b, ma, mb, p, h, n, cap, ls, 0, left, None, pair_of(res), oldest));
    assert(page(mb, m) == left) by {
        reveal(joined);
    }
    crate::shrink::lemma_pair_child(
        a,
        b,
        ma,
        mb,
        p,
        h,
        n,
        cap,
        ls,
        0,
        left,
        None,
        pair_of(res),
        oldest,
        m,
        0,
        tt,
    );
    crate::shrink::lemma_spread(ma, pl, pr, k, tt, ls[0], ls[1], p, h, n, cap, ls, 0);
    assert(crate::tree::links_ok(ma, ls, k, cap));
    crate::shrink::lemma_two_index(ma, ls, k, cap, 0);
    assert(ls.take(0) =~= Seq::<Link>::empty());
    assert(ls.skip(2) =~= Seq::<Link>::empty());
    assert(below(ma, Seq::<Link>::empty(), k) =~= Seq::<Seq<EntryView>>::empty());
    assert(flat(Seq::<Seq<EntryView>>::empty()) =~= Seq::<EntryView>::empty());
    assert(total(Seq::<Link>::empty()) == 0);
    let both = sub_view(ma, ls[0].pgno, k) + sub_view(ma, ls[1].pgno, k);
    assert(sub_view(ma, p, h) =~= both);
    assert(mass(page(mb, m)) == n);
    assert(res.0.count == n);
    let u = Tree { root: m, height: (t.height - 1) as usize, count: t.count };
    crate::tree::lemma_sub_len(ma, p, h, n, cap);
    let reg = ls.subrange(0, 2);
    assert(reg =~= ls);
    assert forall|q: u64| #[trigger] sub_has(mb, m, k, q) implies (t.has(ma, q) || c.took(a, q)) && q
        != p by {
        if crate::grow::links_have(ma, reg, k, q) {
            let j = choose|j: int| 0 <= j < reg.len() && sub_has(ma, (#[trigger] reg[j]).pgno, k, q);
            crate::grow::lemma_has_up(ma, p, h, ls, j, q);
            assert(!sub_has(ma, ls[j].pgno, k, p));
        } else {
            assert(b.took(a, q));
            lemma_took_unused(a, b, oldest, ma, p, h, q);
            assert(sub_has(ma, p, h, p));
        }
    }
    assert(u.in_use(c, mb)) by {
        reveal(live);
        assert forall|q: u64| #[trigger] sub_has(mb, m, k, q) implies !c.freed@.contains(q)
            && !c.space@.lists(q) && q < c.space@.next by {
            assert(!b.freed@.contains(q));
            if c.freed@.contains(q) {
                let j = choose|j: int| 0 <= j < c.freed@.len() && c.freed@[j] == q;
                if j < b.freed@.len() {
                    assert(b.freed@[j] == q);
                }
            }
        }
    }
    assert(c.grown(a, oldest)) by {
        assert(c.freed@.take(a.freed@.len() as int) =~= a.freed@) by {
            assert forall|j: int| 0 <= j < a.freed@.len() implies c.freed@[j] == a.freed@[j] by {
                assert(b.freed@.take(a.freed@.len() as int)[j] == a.freed@[j]);
            }
        }
        assert forall|q: u64| #[trigger] c.took(a, q) implies q >= a.space@.next || exists|x: u64|
            crate::space::reclaimable(x, oldest) && #[trigger] a.space@.lists_under(q, x) by {
            assert(b.took(a, q));
        }
    }
    assert forall|q: u64| !t.has(ma, q) && !c.took(a, q) implies #[trigger] page(mb, q) == page(ma, q) by {
        reveal(joined);
        assert(sub_has(ma, ls[0].pgno, k, ls[0].pgno));
        crate::grow::lemma_has_up(ma, p, h, ls, 0, ls[0].pgno);
        if q == m {
            assert(m == ls[0].pgno || b.took(a, m));
        }
    }
    assert forall|j: int| a.freed@.len() <= j < c.freed@.len() implies t.has(ma, #[trigger] c.freed@[j])
        || c.took(a, c.freed@[j]) by {
        reveal(joined);
        assert(sub_has(ma, p, h, p));
        assert(sub_has(ma, ls[0].pgno, k, ls[0].pgno));
        assert(sub_has(ma, ls[1].pgno, k, ls[1].pgno));
        crate::grow::lemma_has_up(ma, p, h, ls, 0, ls[0].pgno);
        crate::grow::lemma_has_up(ma, p, h, ls, 1, ls[1].pgno);
        if j < b.freed@.len() {
            assert(c.freed@[j] == b.freed@[j]);
        }
    }
    assert(u.entries(mb) == t.entries(ma));
    crate::shrink::lemma_pair_all(a, b, ma, mb, p, h, n, cap, ls, 0, pair_of(res), oldest, true, res.0.count, 0);
    assert forall|q: u64| t.has(ma, q) || c.took(a, q) implies #[trigger] u.places(c, mb, q) by {
        reveal(crate::grow::all_placed);
        let mid = crate::shrink::pair_mid(pair_of(res), res.0.count, 0);
        let l2 = crate::shrink::relinked(ls, 0, 2, mid);
        assert(c.freed@[b.freed@.len() as int] == p);
        if q != p {
            assert(t.has(ma, q) && q != p || b.took(a, q));
            assert(crate::grow::among(b, mb, l2, k, q));
            if b.freed@.contains(q) {
                let j = choose|j: int| 0 <= j < b.freed@.len() && b.freed@[j] == q;
                assert(c.freed@[j] == q);
            } else {
                let j = choose|j: int| 0 <= j < l2.len() && sub_has(mb, (#[trigger] l2[j]).pgno, k, q);
                assert(l2.len() == 1);
                assert(l2[0].pgno == m);
            }
        }
    }
}

/// Takes entry `i` out of the tree; the entries after it move down by one.
pub fn remove(t: Tree, pg: &mut Pager, arena: &Vec<Page>, i: usize, cap: usize, oldest: Option<u64>) -> (u:
    Tree)
    requires
        old(pg).wf(),
        t.ok(old(pg).map(arena@), cap as nat),
        t.in_use(*old(pg), old(pg).map(arena@)),
        i < t.count,
        4 <= cap,
        2 * cap <= usize::MAX,
        cap % 2 == 0,
        can_take(old(pg).space@, oldest, room_to_cut(t.depth())),
    ensures
        stepped(
            *old(pg),
            *final(pg),
            old(pg).map(arena@),
            final(pg).map(arena@),
            t,
            u,
            t.entries(old(pg).map(arena@)).remove(i as int),
            cap as nat,
            oldest,
        ),
        u.count + 1 == t.count,
        spent(*old(pg), *final(pg), oldest, room_to_cut(t.depth())),
        u.depth() == t.depth() || u.depth() + 1 == t.depth(),
{
    let ghost a = *pg;
    let ghost ma = pg.map(arena@);
    let ghost view = t.entries(ma);
    proof {
        crate::tree::lemma_sub_len(ma, t.root, t.height as nat, t.count as nat, cap as nat);
    }
    if t.count == 1 {
        let u = clear(t, pg, arena, Ghost(cap as nat), Ghost(oldest));
        assert(view.remove(i as int) =~= Seq::<EntryView>::empty());
        proof {
            crate::grow::lemma_spent_none(a, *pg, oldest);
            lemma_spent_less(a, *pg, oldest, 0, room_to_cut(t.depth()));
            lemma_height(ma, t.root, t.height as nat, t.count as nat, cap as nat);
            lemma2_to64();
            if t.height > 0 {
                lemma_pow2_strictly_increases(0, t.height as nat);
            }
        }
        return u;
    }
    if t.height == 0 {
        proof {
            crate::shrink::lemma_items(ma, t.root, 0, t.count as nat, cap as nat);
        }
        let r = rem_leaf(pg, arena, t.root, i, cap, oldest);
        proof {
            lemma_step(a, *pg, ma, pg.map(arena@), t, view.remove(i as int), r, cap as nat, oldest);
        }
        return Tree { root: r.pgno, height: 0, count: r.count };
    }
    let mut cur = t;
    proof {
        lemma_low(ma, t, cap as nat);
        lemma_still(a, ma, t, cap as nat, oldest);
        assert(spent(a, a, oldest, 4)) by {
            reveal(spent);
            assert forall|k: nat| can_take(a.space@, oldest, k + 4) implies #[trigger] can_take(
                a.space@,
                oldest,
                k,
            ) by {
                lemma_can_take_less(a.space@, oldest, k + 4, k);
            }
        }
    }
    let (ls, c, off) = descend(
        pg,
        arena,
        t.root,
        i,
        false,
        Ghost(t.height as nat),
        Ghost(t.count as nat),
        Ghost(cap as nat),
    );
    proof {
        assert(links_of(page(ma, t.root)) == ls@);
        crate::shrink::lemma_items(ma, t.root, t.height as nat, t.count as nat, cap as nat);
    }
    if ls.len() == 2 {
        proof {
            crate::shrink::lemma_pair_live(a, ma, t.root, t.height as nat, t.count as nat, cap as nat, ls@, 0);
            crate::shrink::lemma_items(ma, ls@[0].pgno, (t.height - 1) as nat, ls@[0].count as nat, cap as nat);
            crate::shrink::lemma_items(ma, ls@[1].pgno, (t.height - 1) as nat, ls@[1].count as nat, cap as nat);
        }
        let n0 = count_items(pg.read(arena, ls[0].pgno));
        let n1 = count_items(pg.read(arena, ls[1].pgno));
        if n0 + n1 <= cap {
            proof {
                crate::shrink::lemma_balance_sizes(
                    ma,
                    t.root,
                    t.height as nat,
                    t.count as nat,
                    cap as nat,
                    ls@,
                    0,
                    true,
                );
                assert(crate::tree::links_ok(ma, ls@, (t.height - 1) as nat, cap as nat));
                crate::shrink::lemma_two_index(ma, ls@, (t.height - 1) as nat, cap as nat, 0);
                lemma_can_take_less(a.space@, oldest, room_to_cut(t.depth()), 2);
                reveal(live);
                assert(sub_has(ma, t.root, t.height as nat, t.root));
            }
            let res = balance(pg, arena, ls[0], ls[1], true, cap, oldest);
            let ghost b = *pg;
            let ghost mb = pg.map(arena@);
            proof {
                reveal(balanced);
                reveal(joined);
                if b.space@.lists(t.root) {
                    assert(a.space@.lists(t.root));
                }
            }
            pg.retire(t.root);
            proof {
                assert(pg.map(arena@) == mb);
                lemma_collapse(a, b, *pg, ma, mb, t, ls@, res, cap as nat, oldest);
                assert(spent(a, *pg, oldest, 2)) by {
                    reveal(spent);
                    assert forall|k: nat| can_take(a.space@, oldest, k + 2) implies #[trigger] can_take(
                        pg.space@,
                        oldest,
                        k,
                    ) by {
                        assert(can_take(b.space@, oldest, k));
                    }
                }
                lemma_spent_less(a, *pg, oldest, 2, 4);
            }
            cur = Tree { root: res.0.pgno, height: t.height - 1, count: t.count };
        } else {
            assert(roomy(ma, t.root, cap as nat));
        }
    }
    let ghost b = *pg;
    let ghost mb = pg.map(arena@);
    assert(stepped(a, b, ma, mb, t, cur, view, cap as nat, oldest));
    assert(cut_ready(mb, cur, i as int, cap as nat));
    assert(spent(a, b, oldest, 4));
    assert(cur.count == t.count && cur.height <= t.height);
    proof {
        lemma_can_take_less(a.space@, oldest, room_to_cut(t.depth()), 4 + 6 * (cur.height as nat + 1));
        lemma_budget(a, b, oldest, 4, 6 * (cur.height as nat + 1));
    }
    let r = rem(pg, arena, cur.root, cur.height, i, cur.count, cap, oldest);
    proof {
        let c = *pg;
        let mc = pg.map(arena@);
        crate::grow::lemma_spent_add(a, b, c, oldest, 4, 6 * (cur.height as nat + 1));
        lemma_spent_less(a, c, oldest, 4 + 6 * (cur.height as nat + 1), room_to_cut(t.depth()));
        lemma_step(b, c, mb, mc, cur, view.remove(i as int), r, cap as nat, oldest);
        lemma_two_steps(
            a,
            b,
            c,
            ma,
            mb,
            mc,
            t,
            cur,
            Tree { root: r.pgno, height: cur.height, count: r.count },
            view,
            view.remove(i as int),
            cap as nat,
            oldest,
        );
    }
    Tree { root: r.pgno, height: cur.height, count: r.count }
}

} // verus!
