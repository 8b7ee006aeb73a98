//! Counting pages: the pages of a tree, of a version and of the free list
//! are as many as their figures say, and together they are the file.
use crate::grow::{lemma_leaf_alone, links_have};
use crate::pager::arena_map;
use crate::space::{free_count, FreeView, SpaceView};
use crate::state::pages_sum;
use crate::store::{
    accounted, committed_ok, level_ok, stands, uses, version_view, DbRecord, Level, ReaderSlot,
};
use crate::tree::{
    apart, census, lemma_has_page, links_ok, page, sub_has, sub_ok, tally, Link, Page, PageView,
    Pages,
};
use vstd::prelude::*;
use vstd::set_lib::lemma_set_disjoint_lens;

verus! {

/// The pages of the tree beneath page `p`.
pub open spec fn tree_set(m: Pages, p: u64, h: nat) -> Set<u64> {
    Set::new(|q: u64| sub_has(m, p, h, q))
}

/// The pages of the trees beneath the links.
pub open spec fn links_set(m: Pages, ls: Seq<Link>, k: nat) -> Set<u64> {
    Set::new(|q: u64| links_have(m, ls, k, q))
}

/// The trees beneath links that are in order, and share no page, have as
/// many pages as leaves and branches are counted beneath them.
pub proof fn lemma_links_set(m: Pages, ls: Seq<Link>, k: nat, cap: nat)
    requires
        links_ok(m, ls, k, cap),
        forall|i: int, j: int|
            0 <= i < ls.len() && 0 <= j < ls.len() && i != j ==> apart(
                m,
                (#[trigger] ls[i]).pgno,
                (#[trigger] ls[j]).pgno,
                k,
            ),
    ensures
        links_set(m, ls, k).finite(),
        links_set(m, ls, k).len() == tally(m, ls, k).0 + tally(m, ls, k).1,
    decreases k, 1nat, ls.len(),
{
    if ls.len() == 0 {
        assert(links_set(m, ls, k) =~= Set::<u64>::empty());
    } else {
        let front = ls.drop_last();
        let last = ls.last();
        assert(last == ls[ls.len() - 1]);
        assert forall|i: int| 0 <= i < front.len() implies sub_ok(
            m,
            (#[trigger] front[i]).pgno,
            k,
            front[i].count as nat,
            cap,
        ) by {
            assert(front[i] == ls[i]);
        }
        assert forall|i: int, j: int| 0 <= i < front.len() && 0 <= j < front.len() && i != j implies apart(
            m,
            (#[trigger] front[i]).pgno,
            (#[trigger] front[j]).pgno,
            k,
        ) by {
            assert(front[i] == ls[i] && front[j] == ls[j]);
        }
        lemma_links_set(m, front, k, cap);
        lemma_tree_set(m, last.pgno, k, last.count as nat, cap);
        let a = links_set(m, front, k);
        let b = tree_set(m, last.pgno, k);
        assert(links_set(m, ls, k) =~= a + b) by {
            assert forall|q: u64| links_set(m, ls, k).contains(q) == (a + b).contains(q) by {
                if links_have(m, ls, k, q) {
                    let i = choose|i: int| 0 <= i < ls.len() && sub_has(m, (#[trigger] ls[i]).pgno, k, q);
                    if i < front.len() {
                        assert(front[i] == ls[i]);
                        assert(sub_has(m, front[i].pgno, k, q));
                        assert(links_have(m, front, k, q));
                    }
                }
                if links_have(m, front, k, q) {
                    let i = choose|i: int|
                        0 <= i < front.len() && sub_has(m, (#[trigger] front[i]).pgno, k, q);
                    assert(front[i] == ls[i]);
                    assert(sub_has(m, ls[i].pgno, k, q));
                }
                if sub_has(m, last.pgno, k, q) {
                    assert(sub_has(m, ls[ls.len() - 1].pgno, k, q));
                }
            }
        }
        assert(a.disjoint(b)) by {
            assert forall|q: u64| a.contains(q) implies !b.contains(q) by {
                let i = choose|i: int| 0 <= i < front.len() && sub_has(m, (#[trigger] front[i]).pgno, k, q);
                assert(front[i] == ls[i]);
                assert(apart(m, ls[i].pgno, ls[ls.len() - 1].pgno, k));
            }
        }
        lemma_set_disjoint_lens(a, b);
    }
}

/// A tree that is in order has as many pages as leaves and branches are
/// counted in it.
pub proof fn lemma_tree_set(m: Pages, p: u64, h: nat, n: nat, cap: nat)
    requires
        sub_ok(m, p, h, n, cap),
    ensures
        tree_set(m, p, h).finite(),
        tree_set(m, p, h).len() == census(m, p, h).0 + census(m, p, h).1,
    decreases h, 0nat, 0nat,
{
    match page(m, p) {
        PageView::Branch(ls) => {
            let k = (h - 1) as nat;
            assert(links_ok(m, ls, k, cap));
            lemma_links_set(m, ls, k, cap);
            let a = links_set(m, ls, k);
            assert(tree_set(m, p, h) =~= a.insert(p)) by {
                assert forall|q: u64| tree_set(m, p, h).contains(q) == a.insert(p).contains(q) by {
                    if sub_has(m, p, h, q) && q != p {
                        let i = choose|i: int| 0 <= i < ls.len() && sub_has(m, (#[trigger] ls[i]).pgno, k, q);
                        assert(sub_has(m, ls[i].pgno, k, q));
                    }
                    if links_have(m, ls, k, q) {
                        let i = choose|i: int| 0 <= i < ls.len() && sub_has(m, (#[trigger] ls[i]).pgno, k, q);
                        crate::grow::lemma_has_up(m, p, h, ls, i, q);
                    }
                    if q == p {
                        assert(sub_has(m, p, h, p));
                    }
                }
            }
            assert(!a.contains(p)) by {
                if links_have(m, ls, k, p) {
                    let i = choose|i: int| 0 <= i < ls.len() && sub_has(m, (#[trigger] ls[i]).pgno, k, p);
                    assert(!sub_has(m, ls[i].pgno, k, p));
                }
            }
        },
        _ => {
            lemma_leaf_alone(m, p);
            assert(tree_set(m, p, h) =~= Set::<u64>::empty().insert(p));
        },
    }
}

/// The pages that a version uses.
pub open spec fn used_set(dbs: Seq<DbRecord>, m: Pages) -> Set<u64> {
    Set::new(|q: u64| uses(dbs, m, q))
}

/// The first sub-databases of a version use as many pages as their figures
/// say.
pub proof fn lemma_used_set(dbs: Seq<DbRecord>, m: Pages, cap: nat, n: int)
    requires
        0 <= n <= dbs.len(),
        forall|i: int| 0 <= i < dbs.len() ==> (#[trigger] dbs[i]).ok(m, cap),
        forall|i: int, j: int, q: u64|
            0 <= i < dbs.len() && 0 <= j < dbs.len() && i != j && #[trigger] dbs[i].tree.has(m, q)
                ==> !#[trigger] dbs[j].tree.has(m, q),
    ensures
        used_set(dbs.take(n), m).finite(),
        used_set(dbs.take(n), m).len() == pages_sum(version_view(dbs.take(n), m)),
    decreases n,
{
    let part = dbs.take(n);
    if n == 0 {
        assert(used_set(part, m) =~= Set::<u64>::empty());
    } else {
        let front = dbs.take(n - 1);
        let last = dbs[n - 1];
        lemma_used_set(dbs, m, cap, n - 1);
        assert(part.drop_last() =~= front);
        assert(version_view(part, m).drop_last() =~= version_view(front, m));
        assert(version_view(part, m).last() == last.state(m));
        let a = used_set(front, m);
        let t = last.tree;
        let b = if t.count > 0 {
            tree_set(m, t.root, t.height as nat)
        } else {
            Set::<u64>::empty()
        };
        assert(last.ok(m, cap));
        if t.count > 0 {
            lemma_tree_set(m, t.root, t.height as nat, t.count as nat, cap);
        }
        assert(used_set(part, m) =~= a + b) by {
            assert forall|q: u64| used_set(part, m).contains(q) == (a + b).contains(q) by {
                if uses(part, m, q) {
                    let i = choose|i: int| 0 <= i < part.len() && (#[trigger] part[i]).tree.has(m, q);
                    if i < n - 1 {
                        assert(front[i] == part[i]);
                        assert(front[i].tree.has(m, q));
                    } else {
                        assert(part[i] == last);
                    }
                }
                if uses(front, m, q) {
                    let i = choose|i: int| 0 <= i < front.len() && (#[trigger] front[i]).tree.has(m, q);
                    assert(part[i] == front[i]);
                    assert(part[i].tree.has(m, q));
                }
                if b.contains(q) {
                    assert(part[n - 1] == last);
                    assert(part[n - 1].tree.has(m, q));
                }
            }
        }
        assert(a.disjoint(b)) by {
            assert forall|q: u64| a.contains(q) implies !b.contains(q) by {
                let i = choose|i: int| 0 <= i < front.len() && (#[trigger] front[i]).tree.has(m, q);
                assert(front[i] == dbs[i]);
                assert(dbs[i].tree.has(m, q));
                if b.contains(q) {
                    assert(dbs[n - 1].tree.has(m, q));
                }
            }
        }
        lemma_set_disjoint_lens(a, b);
    }
}

/// The pages that the records list.
pub open spec fn listed_set(free: Seq<FreeView>) -> Set<u64> {
    Set::new(
        |q: u64|
            exists|r: int, j: int|
                0 <= r < free.len() && 0 <= j < free[r].pages.len() && #[trigger] free[r].pages[j]
                    == q,
    )
}

/// Records that list no page twice list as many pages as they hold.
pub proof fn lemma_listed_set(free: Seq<FreeView>)
    requires
        forall|r: int, j: int, s: int, k: int|
            0 <= r < free.len() && 0 <= j < free[r].pages.len() && 0 <= s < free.len() && 0 <= k
                < free[s].pages.len() && (r != s || j != k) ==> #[trigger] free[r].pages[j]
                != #[trigger] free[s].pages[k],
    ensures
        listed_set(free).finite(),
        listed_set(free).len() == free_count(free),
    decreases free.len(),
{
    if free.len() == 0 {
        assert(listed_set(free) =~= Set::<u64>::empty());
    } else {
        let front = free.drop_last();
        let n = free.len() - 1;
        let last = free[n];
        assert forall|r: int, j: int, s: int, k: int|
            0 <= r < front.len() && 0 <= j < front[r].pages.len() && 0 <= s < front.len() && 0 <= k
                < front[s].pages.len() && (r != s || j != k) implies #[trigger] front[r].pages[j]
            != #[trigger] front[s].pages[k] by {
            assert(free[r].pages[j] != free[s].pages[k]);
        }
        lemma_listed_set(front);
        let a = listed_set(front);
        let b = last.pages.to_set();
        assert(last.pages.no_duplicates()) by {
            assert forall|j: int, k: int|
                0 <= j < last.pages.len() && 0 <= k < last.pages.len() && j != k implies last.pages[j]
                != last.pages[k] by {
                assert(free[n].pages[j] != free[n].pages[k]);
            }
        }
        last.pages.unique_seq_to_set();
        vstd::seq_lib::seq_to_set_is_finite(last.pages);
        assert(listed_set(free) =~= a + b) by {
            assert forall|q: u64| listed_set(free).contains(q) == (a + b).contains(q) by {
                if listed_set(free).contains(q) {
                    let (r, j) = choose|r: int, j: int|
                        0 <= r < free.len() && 0 <= j < free[r].pages.len()
                            && #[trigger] free[r].pages[j] == q;
                    if r < n {
                        assert(front[r].pages[j] == q);
                    } else {
                        assert(last.pages[j] == q);
                        assert(last.pages.contains(q));
                    }
                }
                if a.contains(q) {
                    let (r, j) = choose|r: int, j: int|
                        0 <= r < front.len() && 0 <= j < front[r].pages.len()
                            && #[trigger] front[r].pages[j] == q;
                    assert(free[r].pages[j] == q);
                }
                if b.contains(q) {
                    let j = choose|j: int| 0 <= j < last.pages.len() && last.pages[j] == q;
                    assert(free[n].pages[j] == q);
                }
            }
        }
        assert(a.disjoint(b)) by {
            assert forall|q: u64| a.contains(q) implies !b.contains(q) by {
                let (r, j) = choose|r: int, j: int|
                    0 <= r < front.len() && 0 <= j < front[r].pages.len()
                        && #[trigger] front[r].pages[j] == q;
                if b.contains(q) {
                    let k = choose|k: int| 0 <= k < last.pages.len() && last.pages[k] == q;
                    assert(free[r].pages[j] != free[n].pages[k]);
                }
            }
        }
        lemma_set_disjoint_lens(a, b);
    }
}

/// The page numbers below `n`.
pub open spec fn below_set(n: u64) -> Set<u64> {
    Set::new(|q: u64| q < n)
}

/// There are `n` page numbers below `n`.
pub proof fn lemma_below_set(n: u64)
    ensures
        below_set(n).finite(),
        below_set(n).len() == n,
    decreases n,
{
    if n == 0 {
        assert(below_set(n) =~= Set::<u64>::empty());
    } else {
        let k = (n - 1) as u64;
        lemma_below_set(k);
        assert(below_set(n) =~= below_set(k).insert(k));
    }
}

/// The pages of the committed file are the pages that the committed
/// sub-databases use and the pages on the free list: as many as the figures
/// of the sub-databases and the free list say together.
pub proof fn lemma_pages_add_up(arena: Seq<Page>, dbs: Seq<DbRecord>, space: SpaceView, txnid: u64, cap: nat)
    requires
        committed_ok(arena, dbs, space, txnid, cap),
    ensures
        space.next == pages_sum(version_view(dbs, arena_map(arena))) + free_count(space.free),
{
    let m = arena_map(arena);
    lemma_below_set(space.next);
    lemma_used_set(dbs, m, cap, dbs.len() as int);
    assert(dbs.take(dbs.len() as int) =~= dbs);
    lemma_listed_set(space.free);
    let a = used_set(dbs, m);
    let b = listed_set(space.free);
    assert(below_set(space.next) =~= a + b) by {
        assert forall|q: u64| below_set(space.next).contains(q) == (a + b).contains(q) by {
            if q < space.next {
                assert(stands(dbs, m, space, q));
            }
            if uses(dbs, m, q) {
                let i = choose|i: int| 0 <= i < dbs.len() && (#[trigger] dbs[i]).tree.has(m, q);
                assert(dbs[i].ok(m, cap));
                lemma_has_page(m, dbs[i].tree.root, dbs[i].tree.height as nat, dbs[i].tree.count as nat, cap, q);
            }
            if b.contains(q) {
                let (r, j) = choose|r: int, j: int|
                    0 <= r < space.free.len() && 0 <= j < space.free[r].pages.len()
                        && #[trigger] space.free[r].pages[j] == q;
                assert(space.free[r].pages[j] < space.next);
            }
        }
    }
    assert(a.disjoint(b)) by {
        assert forall|q: u64| a.contains(q) implies !b.contains(q) by {
            if b.contains(q) {
                assert(space.lists(q));
            }
        }
    }
    lemma_set_disjoint_lens(a, b);
}

/// The pages of the file as a write transaction has it are the pages that
/// its sub-databases use, the pages on its free list and the pages that it
/// has given up: as many as the figures say together.
pub proof fn lemma_level_pages_add_up(
    arena: Seq<Page>,
    dbs: Seq<DbRecord>,
    space: SpaceView,
    readers: Seq<ReaderSlot>,
    l: Level,
    cap: nat,
)
    requires
        level_ok(arena, dbs, space, readers, l, cap),
    ensures
        l.pager.space@.next == pages_sum(version_view(l.dbs@, l.pager.map(arena))) + free_count(
            l.pager.space@.free,
        ) + l.pager.freed@.len(),
{
    let m = l.pager.map(arena);
    let sp = l.pager.space@;
    lemma_below_set(sp.next);
    lemma_used_set(l.dbs@, m, cap, l.dbs@.len() as int);
    assert(l.dbs@.take(l.dbs@.len() as int) =~= l.dbs@);
    lemma_listed_set(sp.free);
    let a = used_set(l.dbs@, m);
    let b = listed_set(sp.free);
    let f = l.pager.freed@.to_set();
    l.pager.freed@.unique_seq_to_set();
    vstd::seq_lib::seq_to_set_is_finite(l.pager.freed@);
    assert forall|q: u64| a.contains(q) implies q < sp.next && !b.contains(q) && !f.contains(q) by {
        let i = choose|i: int| 0 <= i < l.dbs@.len() && (#[trigger] l.dbs@[i]).tree.has(m, q);
        assert(l.dbs@[i].tree.in_use(l.pager, m));
        reveal(crate::grow::live);
        if b.contains(q) {
            assert(sp.lists(q));
        }
    }
    assert forall|q: u64| b.contains(q) implies q < sp.next && !f.contains(q) by {
        let (r, j) = choose|r: int, j: int|
            0 <= r < sp.free.len() && 0 <= j < sp.free[r].pages.len() && #[trigger] sp.free[r].pages[j]
                == q;
        assert(sp.free[r].pages[j] < sp.next);
        assert(sp.lists(q));
        if f.contains(q) {
            let x = choose|x: int| 0 <= x < l.pager.freed@.len() && l.pager.freed@[x] == q;
            assert(!sp.lists(l.pager.freed@[x]));
        }
    }
    assert forall|q: u64| f.contains(q) implies q < sp.next by {
        let x = choose|x: int| 0 <= x < l.pager.freed@.len() && l.pager.freed@[x] == q;
        assert(l.pager.freed@[x] < sp.next);
    }
    assert(below_set(sp.next) =~= (a + b) + f) by {
        assert forall|q: u64| below_set(sp.next).contains(q) == ((a + b) + f).contains(q) by {
            if q < sp.next {
                assert(accounted(l.dbs@, l.pager, m, q));
            }
        }
    }
    assert(a.disjoint(b));
    assert((a + b).disjoint(f));
    lemma_set_disjoint_lens(a, b);
    lemma_set_disjoint_lens(a + b, f);
}

} // verus!
