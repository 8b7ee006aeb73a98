//! Putting an entry into the tree.
//!
//! The entry goes into the leaf that holds its index. A page that is full
//! is split into two halves, and the branch above takes a link more, which
//! may split it in turn. Every page that changes is written as the
//! transaction's own page; the committed page that it replaces is given up.
use crate::leaf::{copy_entries, entries_view, Entry};
use crate::model::EntryView;
use crate::pager::{can_take, holds, lemma_grown_trans, lemma_lists, Pager};
use crate::space::reclaimable;
use crate::tree::{
    apart, below, flat, half_full, items, lemma_child_index, lemma_flat_add, lemma_sub_frame,
    lemma_total_split, links_ok, locate, page, sub_has, sub_ok, sub_view, total, Link, Page,
    PageView, Pages,
};
use vstd::prelude::*;

verus! {

/// Whether every page of the tree beneath `p` is in use: a page of the
/// file that is neither free nor given up.
#[verifier::opaque]
pub open spec fn live(pg: Pager, m: Pages, p: u64, h: nat) -> bool {
    forall|q: u64| #[trigger]
        sub_has(m, p, h, q) ==> !pg.freed@.contains(q) && !pg.space@.lists(q) && q
            < pg.space@.next
}

/// Whether every page of the tree beneath `r` in the state `b` was a page
/// of the tree beneath `p` in the state `a`, or was taken since.
pub open spec fn derived(a: Pager, b: Pager, ma: Pages, mb: Pages, p: u64, h: nat, r: u64) -> bool {
    forall|q: u64| #[trigger] sub_has(mb, r, h, q) ==> sub_has(ma, p, h, q) || b.took(a, q)
}

/// Whether every page outside the tree beneath `p` that was not taken since
/// the state `a` is as it was.
pub open spec fn framed(a: Pager, b: Pager, ma: Pages, mb: Pages, p: u64, h: nat) -> bool {
    forall|q: u64| !sub_has(ma, p, h, q) && !b.took(a, q) ==> #[trigger] page(mb, q) == page(ma, q)
}

/// Whether every page that was given up since the state `a` was a page of
/// the tree beneath `p`, or a page that was taken since.
pub open spec fn gave(a: Pager, b: Pager, ma: Pages, p: u64, h: nat) -> bool {
    forall|j: int|
        a.freed@.len() <= j < b.freed@.len() ==> sub_has(ma, p, h, #[trigger] b.freed@[j])
            || b.took(a, b.freed@[j])
}

/// Whether at most `n` pages were taken since the state `a`.
#[verifier::opaque]
pub open spec fn spent(a: Pager, b: Pager, oldest: Option<u64>, n: nat) -> bool {
    forall|k: nat| can_take(a.space@, oldest, k + n) ==> #[trigger] can_take(b.space@, oldest, k)
}

/// Whether page `q` has a place after a change: it belongs to a tree that
/// was built, or it was given up.
pub open spec fn placed(b: Pager, mb: Pages, r: (Link, Option<Link>), h: nat, q: u64) -> bool {
    sub_has(mb, r.0.pgno, h, q) || (r.1 matches Some(s) && sub_has(mb, s.pgno, h, q))
        || b.freed@.contains(q)
}

/// Whether no page was lost by a change of the tree beneath `p`: every
/// page of the tree, and every page that was taken since the state `a`,
/// belongs to what was built or was given up.
#[verifier::opaque]
pub open spec fn whole(a: Pager, b: Pager, ma: Pages, mb: Pages, p: u64, h: nat, r: (Link, Option<Link>)) -> bool {
    forall|q: u64| sub_has(ma, p, h, q) || b.took(a, q) ==> #[trigger] placed(b, mb, r, h, q)
}

/// No page is lost where nothing has changed.
pub proof fn lemma_whole_same(a: Pager, ma: Pages, p: u64, h: nat, l: Link)
    requires
        l.pgno == p,
    ensures
        whole(a, a, ma, ma, p, h, (l, None)),
{
    reveal(whole);
    assert forall|q: u64| sub_has(ma, p, h, q) || a.took(a, q) implies #[trigger] placed(
        a,
        ma,
        (l, None),
        h,
        q,
    ) by {}
}

/// No page is lost by a change after a change where none is lost by
/// either.
pub proof fn lemma_whole_chain(
    a: Pager,
    b: Pager,
    c: Pager,
    ma: Pages,
    mb: Pages,
    mc: Pages,
    p: u64,
    h: nat,
    r1: Link,
    r: (Link, Option<Link>),
    oldest: Option<u64>,
)
    requires
        whole(a, b, ma, mb, p, h, (r1, None)),
        whole(b, c, mb, mc, r1.pgno, h, r),
        b.grown(a, oldest),
        c.grown(b, oldest),
    ensures
        whole(a, c, ma, mc, p, h, r),
{
    reveal(whole);
    assert forall|q: u64| sub_has(ma, p, h, q) || c.took(a, q) implies #[trigger] placed(c, mc, r, h, q) by {
        if sub_has(ma, p, h, q) || b.took(a, q) {
            assert(placed(b, mb, (r1, None), h, q));
            if sub_has(mb, r1.pgno, h, q) {
                assert(placed(c, mc, r, h, q));
            } else {
                let j = choose|j: int| 0 <= j < b.freed@.len() && b.freed@[j] == q;
                assert(c.freed@.take(b.freed@.len() as int)[j] == b.freed@[j]);
                assert(c.freed@[j] == q);
            }
        } else {
            assert(c.took(b, q));
            assert(placed(c, mc, r, h, q));
        }
    }
}

/// No page is lost where a leaf was written anew as one leaf.
pub proof fn lemma_whole_stored(a: Pager, b: Pager, ma: Pages, mb: Pages, p: u64, l: Link)
    requires
        page(ma, p) is Leaf,
        forall|q: u64| #[trigger] b.took(a, q) ==> q == l.pgno,
        l.pgno != p ==> b.freed@.contains(p),
    ensures
        whole(a, b, ma, mb, p, 0, (l, None)),
{
    reveal(whole);
    assert forall|q: u64| sub_has(ma, p, 0, q) || b.took(a, q) implies #[trigger] placed(
        b,
        mb,
        (l, None),
        0,
        q,
    ) by {
        assert(sub_has(mb, l.pgno, 0, l.pgno));
    }
}

/// Taking one page is taking at most one page.
pub proof fn lemma_spent_one(a: Pager, b: Pager, oldest: Option<u64>, p: u64)
    requires
        a.space@.take(oldest) == Ok::<(crate::space::SpaceView, u64), crate::error::MdbxError>(
            (b.space@, p),
        ),
    ensures
        spent(a, b, oldest, 1),
{
    reveal(spent);
    assert forall|k: nat| can_take(a.space@, oldest, k + 1) implies #[trigger] can_take(
        b.space@,
        oldest,
        k,
    ) by {}
}

/// Taking no page is taking at most none.
pub proof fn lemma_spent_none(a: Pager, b: Pager, oldest: Option<u64>)
    requires
        b.space@ == a.space@,
    ensures
        spent(a, b, oldest, 0),
{
    reveal(spent);
    assert forall|k: nat| can_take(a.space@, oldest, k + 0) implies #[trigger] can_take(
        b.space@,
        oldest,
        k,
    ) by {
        assert(k + 0 == k);
    }
}

/// A page that was taken was not in use.
pub proof fn lemma_took_unused(a: Pager, b: Pager, oldest: Option<u64>, ma: Pages, p: u64, h: nat, q: u64)
    requires
        live(a, ma, p, h),
        b.grown(a, oldest),
        b.took(a, q),
    ensures
        !sub_has(ma, p, h, q),
{
    reveal(live);
    if sub_has(ma, p, h, q) {
        if q >= a.space@.next {
        } else {
            let x = choose|x: u64| reclaimable(x, oldest) && #[trigger] a.space@.lists_under(q, x);
            lemma_lists(a.space@, q, x);
        }
    }
}

/// Writes `pg_new` as the new content of page `p`: in place if the
/// transaction owns the page, else under a new number, and the old page is
/// given up. Returns the number of the page that holds the content.
pub fn store(
    pg: &mut Pager,
    p: u64,
    pg_new: Page,
    oldest: Option<u64>,
    Ghost(arena): Ghost<Seq<Page>>,
) -> (r: u64)
    requires
        old(pg).wf(),
        !old(pg).freed@.contains(p),
        p < old(pg).space@.next,
        !old(pg).space@.lists(p),
        can_take(old(pg).space@, oldest, 1),
    ensures
        final(pg).wf(),
        final(pg).grown(*old(pg), oldest),
        final(pg).map(arena) == old(pg).map(arena).insert(r, pg_new@),
        holds(old(pg).over@, p) ==> r == p && final(pg).freed == old(pg).freed && final(pg).space
            == old(pg).space,
        !holds(old(pg).over@, p) ==> r != p && final(pg).took(*old(pg), r) && final(pg).freed@
            == old(pg).freed@.push(p),
        forall|q: u64| holds(final(pg).over@, q) == (holds(old(pg).over@, q) || q == r),
        spent(*old(pg), *final(pg), oldest, 1),
{
    proof {
        reveal(spent);
    }
    let ghost a = *pg;
    match pg.find(p) {
        Some(k) => {
            pg.rewrite(k, pg_new, Ghost(arena));
            proof {
                assert(pg.freed@.take(a.freed@.len() as int) =~= a.freed@);
                assert forall|k: nat| can_take(a.space@, oldest, k + 1) implies #[trigger] can_take(
                    pg.space@,
                    oldest,
                    k,
                ) by {
                    crate::pager::lemma_can_take_less(a.space@, oldest, k + 1, k);
                }
            }
            p
        },
        None => {
            let r = pg.fresh(pg_new, oldest, Ghost(arena));
            let ghost b = *pg;
            proof {
                assert(!b.space@.lists(p)) by {
                    if b.space@.lists(p) {
                        assert(a.space@.lists(p));
                    }
                }
            }
            pg.retire(p);
            proof {
                assert(pg.freed@.take(a.freed@.len() as int) =~= a.freed@);
                assert(pg.took(a, r) == b.took(a, r));
                assert forall|q: u64| #[trigger] pg.took(a, q) implies q >= a.space@.next
                    || exists|x: u64|
                    reclaimable(x, oldest) && #[trigger] a.space@.lists_under(q, x) by {
                    assert(b.took(a, q));
                }
            }
            r
        },
    }
}

/// What a change of the tree beneath `p` has built: one page, or two
/// halves side by side, that hold the entries `view`. The pages are in
/// order, in use, apart from each other, and made of pages of the old tree
/// and of pages that were taken.
#[verifier::opaque]
pub open spec fn built(
    a: Pager,
    b: Pager,
    ma: Pages,
    mb: Pages,
    p: u64,
    h: nat,
    view: Seq<EntryView>,
    r: (Link, Option<Link>),
    cap: nat,
) -> bool {
    &&& sub_ok(mb, r.0.pgno, h, r.0.count as nat, cap)
    &&& live(b, mb, r.0.pgno, h)
    &&& derived(a, b, ma, mb, p, h, r.0.pgno)
    &&& match r.1 {
        None => sub_view(mb, r.0.pgno, h) == view,
        Some(s) => {
            &&& sub_ok(mb, s.pgno, h, s.count as nat, cap)
            &&& live(b, mb, s.pgno, h)
            &&& derived(a, b, ma, mb, p, h, s.pgno)
            &&& sub_view(mb, r.0.pgno, h) + sub_view(mb, s.pgno, h) == view
            &&& apart(mb, r.0.pgno, s.pgno, h)
            &&& half_full(page(mb, r.0.pgno), cap)
            &&& half_full(page(mb, s.pgno), cap)
        },
    }
}

/// What every change of the tree beneath `p` keeps: the pager in order and
/// grown, the pages outside the tree as they were, and nothing given up but
/// pages of the tree.
#[verifier::opaque]
pub open spec fn kept(a: Pager, b: Pager, ma: Pages, mb: Pages, p: u64, h: nat, oldest: Option<u64>) -> bool {
    &&& b.wf()
    &&& b.grown(a, oldest)
    &&& framed(a, b, ma, mb, p, h)
    &&& gave(a, b, ma, p, h)
}

/// Puts the entry `e` at index `i` into the leaf `p`.
pub fn ins_leaf(
    pg: &mut Pager,
    arena: &Vec<Page>,
    p: u64,
    i: usize,
    e: Entry,
    cap: usize,
    oldest: Option<u64>,
) -> (r: (Link, Option<Link>))
    requires
        old(pg).wf(),
        page(old(pg).map(arena@), p) is Leaf,
        sub_ok(old(pg).map(arena@), p, 0, items(page(old(pg).map(arena@), p)), cap as nat),
        live(*old(pg), old(pg).map(arena@), p, 0),
        i <= items(page(old(pg).map(arena@), p)),
        4 <= cap < usize::MAX,
        can_take(old(pg).space@, oldest, 2),
    ensures
        kept(*old(pg), *final(pg), old(pg).map(arena@), final(pg).map(arena@), p, 0, oldest),
        spent(*old(pg), *final(pg), oldest, 2),
        built(
            *old(pg),
            *final(pg),
            old(pg).map(arena@),
            final(pg).map(arena@),
            p,
            0,
            sub_view(old(pg).map(arena@), p, 0).insert(i as int, e@),
            r,
            cap as nat,
        ),
        r.1 is None ==> r.0.count == items(page(old(pg).map(arena@), p)) + 1 && items(
            page(final(pg).map(arena@), r.0.pgno),
        ) >= items(page(old(pg).map(arena@), p)),
        r.1 matches Some(s) ==> r.0.count + s.count == items(page(old(pg).map(arena@), p)) + 1,
        whole(*old(pg), *final(pg), old(pg).map(arena@), final(pg).map(arena@), p, 0, r),
{
    proof {
        reveal(live);
        reveal(spent);
    }
    let ghost a = *pg;
    let ghost ma = pg.map(arena@);
    let ghost old_view = sub_view(ma, p, 0);
    let ghost new_view = old_view.insert(i as int, e@);
    let mut es = match pg.read(arena, p) {
        Page::Leaf(es) => copy_entries(es),
        _ => Vec::new(),
    };
    assert(entries_view(es@) == old_view);
    es.insert(i, e);
    assert(entries_view(es@) =~= new_view);
    assert(sub_has(ma, p, 0, p));
    proof {
        crate::pager::lemma_can_take_less(a.space@, oldest, 2, 1);
    }
    if es.len() <= cap {
        let n = es.len();
        let r = store(pg, p, Page::Leaf(es), oldest, Ghost(arena@));
        proof {
            reveal(built);
            reveal(kept);
            let b = *pg;
            let mb = b.map(arena@);
            assert(page(mb, r) == PageView::Leaf(new_view));
            lemma_leaf_alone(mb, r);
            lemma_leaf_alone(ma, p);
            lemma_stored(a, b, ma, mb, p, r, oldest);
            assert forall|k: nat| can_take(a.space@, oldest, k + 2) implies #[trigger] can_take(
                b.space@,
                oldest,
                k,
            ) by {
                crate::pager::lemma_can_take_less(a.space@, oldest, k + 2, k + 1);
            }
            lemma_whole_stored(a, b, ma, mb, p, Link { pgno: r, count: n });
        }
        (Link { pgno: r, count: n }, None)
    } else {
        let mid = es.len() / 2;
        let right = es.split_off(mid);
        let nl = es.len();
        let nr = right.len();
        let ghost lv = entries_view(es@);
        let ghost rv = entries_view(right@);
        assert(lv + rv =~= new_view);
        let r = store(pg, p, Page::Leaf(es), oldest, Ghost(arena@));
        let ghost b = *pg;
        let ghost mb = b.map(arena@);
        proof {
            assert(can_take(b.space@, oldest, 1));
        }
        let q = pg.fresh(Page::Leaf(right), oldest, Ghost(arena@));
        proof {
            reveal(built);
            reveal(kept);
            let c = *pg;
            let mc = c.map(arena@);
            lemma_leaf_alone(ma, p);
            lemma_stored(a, b, ma, mb, p, r, oldest);
            lemma_grown_trans(a, b, c, oldest);
            assert(page(mc, q) == PageView::Leaf(rv));
            assert(q != r);
            assert(page(mc, r) == PageView::Leaf(lv));
            lemma_leaf_alone(mc, r);
            lemma_leaf_alone(mc, q);
            lemma_took_unused(a, c, oldest, ma, p, 0, q);
            assert(c.took(a, q));
            assert(b.took(a, r) ==> c.took(a, r));
            assert forall|k: nat| can_take(a.space@, oldest, k + 2) implies #[trigger] can_take(
                c.space@,
                oldest,
                k,
            ) by {
                assert(can_take(b.space@, oldest, k + 1));
            }
            assert forall|x: u64| !sub_has(ma, p, 0, x) && !c.took(a, x) implies #[trigger] page(
                mc,
                x,
            ) == page(ma, x) by {
                assert(x != q);
                assert(!b.took(a, x));
                assert(page(mb, x) == page(ma, x));
            }
            assert(c.freed@ == b.freed@);
            assert(whole(a, c, ma, mc, p, 0, (Link { pgno: r, count: nl }, Some(Link { pgno: q, count: nr })))) by {
                reveal(whole);
                let res = (Link { pgno: r, count: nl }, Some(Link { pgno: q, count: nr }));
                assert forall|x: u64| sub_has(ma, p, 0, x) || c.took(a, x) implies #[trigger] placed(
                    c,
                    mc,
                    res,
                    0,
                    x,
                ) by {
                    assert(sub_has(mc, r, 0, r));
                    assert(sub_has(mc, q, 0, q));
                    if c.took(a, x) && x != q {
                        assert(b.took(a, x));
                    }
                }
            }
        }
        (Link { pgno: r, count: nl }, Some(Link { pgno: q, count: nr }))
    }
}

/// The tree beneath a leaf is the leaf.
pub proof fn lemma_leaf_alone(m: Pages, p: u64)
    requires
        page(m, p) is Leaf,
    ensures
        forall|q: u64| sub_has(m, p, 0, q) == (q == p),
        sub_view(m, p, 0) == page(m, p)->Leaf_0,
{
}

/// What storing the new content of page `p` keeps and builds.
pub proof fn lemma_stored(a: Pager, b: Pager, ma: Pages, mb: Pages, p: u64, r: u64, oldest: Option<u64>)
    requires
        a.wf(),
        b.wf(),
        b.grown(a, oldest),
        !a.freed@.contains(p),
        p < a.space@.next,
        !a.space@.lists(p),
        mb == ma.insert(r, mb[r]),
        holds(a.over@, p) ==> r == p && b.freed == a.freed && b.space == a.space,
        !holds(a.over@, p) ==> r != p && b.took(a, r) && b.freed@ == a.freed@.push(p),
        forall|q: u64| holds(b.over@, q) == (holds(a.over@, q) || q == r),
    ensures
        forall|q: u64| q != r ==> #[trigger] page(mb, q) == page(ma, q),
        forall|q: u64| #[trigger] b.took(a, q) ==> q == r && q != p,
        forall|j: int| a.freed@.len() <= j < b.freed@.len() ==> #[trigger] b.freed@[j] == p,
        !b.freed@.contains(r),
        !b.space@.lists(r),
        r < b.space@.next,
        r != p ==> b.freed@.contains(p),
        forall|q: u64| b.freed@.contains(q) ==> a.freed@.contains(q) || (q == p && r != p),
{
    assert forall|q: u64| b.freed@.contains(q) implies a.freed@.contains(q) || (q == p && r != p) by {
        let j = choose|j: int| 0 <= j < b.freed@.len() && b.freed@[j] == q;
        if holds(a.over@, p) {
        } else {
            if j < a.freed@.len() {
                assert(a.freed@[j] == q);
            }
        }
    }
    if r != p {
        assert(b.freed@[a.freed@.len() as int] == p);
        assert(b.took(a, r));
        let k = choose|k: int| 0 <= k < b.over@.len() && (#[trigger] b.over@[k]).pgno == r;
        assert(!b.space@.lists(b.over@[k].pgno));
        if a.freed@.contains(r) {
            let j = choose|j: int| 0 <= j < a.freed@.len() && a.freed@[j] == r;
            assert(a.freed@[j] < a.space@.next && !a.space@.lists(a.freed@[j]));
            if r >= a.space@.next {
            } else {
                let x = choose|x: u64| reclaimable(x, oldest) && #[trigger] a.space@.lists_under(r, x);
                lemma_lists(a.space@, r, x);
            }
        }
    } else {
        if b.space@.lists(r) {
            assert(a.space@.lists(r));
        }
    }
}

/// What the links of a branch must be like before the branch is written:
/// every page below in order and at least half full, and no two of them
/// sharing a page.
pub open spec fn fit(m: Pages, ls: Seq<Link>, k: nat, cap: nat) -> bool {
    &&& links_ok(m, ls, k, cap)
    &&& forall|i: int| 0 <= i < ls.len() ==> half_full(page(m, (#[trigger] ls[i]).pgno), cap)
    &&& forall|i: int, j: int|
        0 <= i < ls.len() && 0 <= j < ls.len() && i != j ==> apart(
            m,
            (#[trigger] ls[i]).pgno,
            (#[trigger] ls[j]).pgno,
            k,
        )
}

/// Whether page `q` belongs to a tree beneath one of the links.
pub open spec fn links_have(m: Pages, ls: Seq<Link>, k: nat, q: u64) -> bool {
    exists|i: int| 0 <= i < ls.len() && sub_has(m, (#[trigger] ls[i]).pgno, k, q)
}

/// A branch page over links that fit is a tree in order; it holds what
/// stands beneath its links, and its pages are the page itself and the pages
/// beneath its links.
pub proof fn lemma_branch(m: Pages, r: u64, ls: Seq<Link>, h: nat, cap: nat)
    requires
        page(m, r) == PageView::Branch(ls),
        h > 0,
        2 <= ls.len() <= cap,
        fit(m, ls, (h - 1) as nat, cap),
        !links_have(m, ls, (h - 1) as nat, r),
    ensures
        sub_ok(m, r, h, total(ls), cap),
        sub_view(m, r, h) == flat(below(m, ls, (h - 1) as nat)),
        forall|q: u64| sub_has(m, r, h, q) == (q == r || links_have(m, ls, (h - 1) as nat, q)),
{
    let k = (h - 1) as nat;
    assert forall|i: int| 0 <= i < ls.len() implies !sub_has(m, (#[trigger] ls[i]).pgno, k, r) by {
        if sub_has(m, ls[i].pgno, k, r) {
            assert(links_have(m, ls, k, r));
        }
    }
    assert forall|q: u64| sub_has(m, r, h, q) == (q == r || links_have(m, ls, k, q)) by {
        if sub_has(m, r, h, q) && q != r {
            let i = choose|i: int| 0 <= i < ls.len() && sub_has(m, (#[trigger] ls[i]).pgno, k, q);
            assert(sub_has(m, ls[i].pgno, k, q));
            assert(links_have(m, ls, k, q));
        }
        if links_have(m, ls, k, q) {
            let i = choose|i: int| 0 <= i < ls.len() && sub_has(m, (#[trigger] ls[i]).pgno, k, q);
            assert(sub_has(m, ls[i].pgno, k, q));
            assert(page(m, r)->Branch_0 == ls);
            assert(exists|j: int| 0 <= j < ls.len() && sub_has(m, (#[trigger] ls[j]).pgno, k, q));
            assert(h > 0);
            assert(sub_has(m, r, h, q));
        }
        if q == r {
            assert(sub_has(m, r, h, q));
        }
    }
    assert(sub_ok(m, r, h, total(ls), cap)) by {
        assert forall|i: int| 0 <= i < ls.len() implies sub_ok(
            m,
            (#[trigger] ls[i]).pgno,
            k,
            ls[i].count as nat,
            cap,
        ) && half_full(page(m, ls[i].pgno), cap) && !sub_has(m, ls[i].pgno, k, r) by {}
    }
}

/// Links whose trees keep their pages fit, hold and have in the new pages
/// what they did in the old.
pub proof fn lemma_links_frame(ma: Pages, mb: Pages, ls: Seq<Link>, k: nat, cap: nat)
    requires
        forall|q: u64| #[trigger] links_have(ma, ls, k, q) ==> page(mb, q) == page(ma, q),
    ensures
        fit(mb, ls, k, cap) == fit(ma, ls, k, cap),
        below(mb, ls, k) == below(ma, ls, k),
        forall|q: u64| #[trigger] links_have(mb, ls, k, q) == links_have(ma, ls, k, q),
        forall|i: int, q: u64|
            0 <= i < ls.len() ==> #[trigger] sub_has(mb, ls[i].pgno, k, q) == sub_has(
                ma,
                ls[i].pgno,
                k,
                q,
            ),
{
    assert forall|i: int| 0 <= i < ls.len() implies sub_view(mb, (#[trigger] ls[i]).pgno, k)
        == sub_view(ma, ls[i].pgno, k) && (forall|q: u64|
        sub_has(mb, ls[i].pgno, k, q) == sub_has(ma, ls[i].pgno, k, q)) && sub_ok(
        mb,
        ls[i].pgno,
        k,
        ls[i].count as nat,
        cap,
    ) == sub_ok(ma, ls[i].pgno, k, ls[i].count as nat, cap) && page(mb, ls[i].pgno) == page(
        ma,
        ls[i].pgno,
    ) by {
        assert forall|q: u64| sub_has(ma, ls[i].pgno, k, q) implies page(mb, q) == page(ma, q) by {
            assert(links_have(ma, ls, k, q));
        }
        lemma_sub_frame(ma, mb, ls[i].pgno, k, ls[i].count as nat, cap);
        assert(sub_has(ma, ls[i].pgno, k, ls[i].pgno));
    }
    assert(below(mb, ls, k) =~= below(ma, ls, k));
    assert forall|q: u64| #[trigger] links_have(mb, ls, k, q) == links_have(ma, ls, k, q) by {
        if links_have(mb, ls, k, q) {
            let i = choose|i: int| 0 <= i < ls.len() && sub_has(mb, (#[trigger] ls[i]).pgno, k, q);
            assert(sub_has(ma, ls[i].pgno, k, q));
        }
        if links_have(ma, ls, k, q) {
            let i = choose|i: int| 0 <= i < ls.len() && sub_has(ma, (#[trigger] ls[i]).pgno, k, q);
            assert(sub_has(mb, ls[i].pgno, k, q));
        }
    }
    if fit(ma, ls, k, cap) {
        assert forall|i: int, j: int|
            0 <= i < ls.len() && 0 <= j < ls.len() && i != j implies apart(
            mb,
            (#[trigger] ls[i]).pgno,
            (#[trigger] ls[j]).pgno,
            k,
        ) by {
            assert(apart(ma, ls[i].pgno, ls[j].pgno, k));
        }
    }
    if fit(mb, ls, k, cap) {
        assert forall|i: int, j: int|
            0 <= i < ls.len() && 0 <= j < ls.len() && i != j implies apart(
            ma,
            (#[trigger] ls[i]).pgno,
            (#[trigger] ls[j]).pgno,
            k,
        ) by {
            assert(apart(mb, ls[i].pgno, ls[j].pgno, k));
        }
    }
}

/// What writing the links `l2` as the branch `p` has done: the links stand
/// on one page or on two halves; no other page has changed; the pages that
/// were taken are those; and of the pages only `p` was given up, if it was
/// not the transaction's own.
#[verifier::opaque]
pub open spec fn wrote(
    b: Pager,
    c: Pager,
    mb: Pages,
    mc: Pages,
    p: u64,
    l2: Seq<Link>,
    r: (Link, Option<Link>),
    cap: nat,
) -> bool {
    &&& forall|q: u64|
        q != r.0.pgno && (r.1 matches Some(s) ==> q != s.pgno) ==> #[trigger] page(mc, q) == page(
            mb,
            q,
        )
    &&& forall|q: u64| #[trigger]
        c.took(b, q) ==> q != p && (q == r.0.pgno || (r.1 matches Some(s) && q == s.pgno))
    &&& forall|q: u64| c.freed@.contains(q) ==> b.freed@.contains(q) || (q == p && r.0.pgno != p)
    &&& forall|j: int| b.freed@.len() <= j < c.freed@.len() ==> #[trigger] c.freed@[j] == p
    &&& r.0.pgno != p ==> c.took(b, r.0.pgno) && c.freed@.contains(p)
    &&& !c.freed@.contains(r.0.pgno)
    &&& holds(c.over@, r.0.pgno)
    &&& match r.1 {
        None => {
            &&& l2.len() <= cap
            &&& page(mc, r.0.pgno) == PageView::Branch(l2)
            &&& r.0.count == total(l2)
        },
        Some(s) => {
            &&& l2.len() == cap + 1
            &&& page(mc, r.0.pgno) == PageView::Branch(l2.take((l2.len() / 2) as int))
            &&& page(mc, s.pgno) == PageView::Branch(l2.skip((l2.len() / 2) as int))
            &&& r.0.count == total(l2.take((l2.len() / 2) as int))
            &&& s.count == total(l2.skip((l2.len() / 2) as int))
            &&& s.pgno != r.0.pgno
            &&& s.pgno != p
            &&& c.took(b, s.pgno)
            &&& !c.freed@.contains(s.pgno)
        },
    }
}

/// What the links of a branch are like when they are ready to be written
/// after the tree beneath one of them has changed.
#[verifier::opaque]
pub open spec fn ready(
    a: Pager,
    b: Pager,
    ma: Pages,
    mb: Pages,
    p: u64,
    h: nat,
    cap: nat,
    l2: Seq<Link>,
) -> bool {
    &&& a.wf()
    &&& b.wf()
    &&& live(a, ma, p, h)
    &&& framed(a, b, ma, mb, p, h)
    &&& gave(a, b, ma, p, h)
    &&& fit(mb, l2, (h - 1) as nat, cap)
    &&& !links_have(mb, l2, (h - 1) as nat, p)
    &&& forall|q: u64| #[trigger]
        links_have(mb, l2, (h - 1) as nat, q) ==> !b.freed@.contains(q) && !b.space@.lists(q) && q
            < b.space@.next && (sub_has(ma, p, h, q) || b.took(a, q))
    &&& !b.freed@.contains(p)
    &&& 2 <= l2.len() <= cap + 1
}

/// Writes the links `ls` as the new content of the branch `p`: as one
/// page, or as two halves if they are more than a page holds.
pub fn finish(
    pg: &mut Pager,
    p: u64,
    ls: Vec<Link>,
    cap: usize,
    oldest: Option<u64>,
    Ghost(arena): Ghost<Seq<Page>>,
) -> (r: (Link, Option<Link>))
    requires
        old(pg).wf(),
        !old(pg).freed@.contains(p),
        p < old(pg).space@.next,
        !old(pg).space@.lists(p),
        can_take(old(pg).space@, oldest, 2),
        2 <= ls@.len() <= cap + 1,
        4 <= cap < usize::MAX,
        total(ls@) <= usize::MAX,
    ensures
        final(pg).wf(),
        final(pg).grown(*old(pg), oldest),
        spent(*old(pg), *final(pg), oldest, 2),
        wrote(*old(pg), *final(pg), old(pg).map(arena), final(pg).map(arena), p, ls@, r, cap as nat),
        r.1 is None ==> r.0.count == total(ls@) && page(final(pg).map(arena), r.0.pgno)
            == PageView::Branch(ls@),
        r.1 matches Some(s) ==> r.0.count + s.count == total(ls@),
{
    proof {
        reveal(spent);
        reveal(wrote);
    }
    let ghost a = *pg;
    let ghost ma = pg.map(arena);
    let mut ls = ls;
    let ghost all = ls@;
    proof {
        crate::pager::lemma_can_take_less(a.space@, oldest, 2, 1);
    }
    if ls.len() <= cap {
        let n = sum(&ls);
        let r = store(pg, p, Page::Branch(ls), oldest, Ghost(arena));
        proof {
            let b = *pg;
            let mb = b.map(arena);
            lemma_stored(a, b, ma, mb, p, r, oldest);
            assert forall|k: nat| can_take(a.space@, oldest, k + 2) implies #[trigger] can_take(
                b.space@,
                oldest,
                k,
            ) by {
                crate::pager::lemma_can_take_less(a.space@, oldest, k + 2, k + 1);
            }
        }
        (Link { pgno: r, count: n }, None)
    } else {
        let mid = ls.len() / 2;
        let right = ls.split_off(mid);
        proof {
            assert(ls@ =~= all.take(mid as int));
            assert(right@ =~= all.skip(mid as int));
            assert(all =~= all.take(mid as int) + all.skip(mid as int));
            crate::tree::lemma_total_add(all.take(mid as int), all.skip(mid as int));
        }
        let nl = sum(&ls);
        let nr = sum(&right);
        let r = store(pg, p, Page::Branch(ls), oldest, Ghost(arena));
        let ghost b = *pg;
        let ghost mb = b.map(arena);
        proof {
            assert(can_take(b.space@, oldest, 1));
        }
        let q = pg.fresh(Page::Branch(right), oldest, Ghost(arena));
        proof {
            let c = *pg;
            let mc = c.map(arena);
            lemma_stored(a, b, ma, mb, p, r, oldest);
            lemma_grown_trans(a, b, c, oldest);
            assert(q != r);
            assert(c.took(a, q));
            assert(b.took(a, r) ==> c.took(a, r));
            assert(q != p) by {
                if q == p {
                    assert(c.took(a, p));
                    if p >= a.space@.next {
                    } else {
                        let x = choose|x: u64|
                            reclaimable(x, oldest) && #[trigger] a.space@.lists_under(p, x);
                        lemma_lists(a.space@, p, x);
                    }
                }
            }
            assert forall|k: nat| can_take(a.space@, oldest, k + 2) implies #[trigger] can_take(
                c.space@,
                oldest,
                k,
            ) by {
                assert(can_take(b.space@, oldest, k + 1));
            }
            assert forall|x: u64| #[trigger] c.took(a, x) implies x != p && (x == r || x == q) by {
                if x != q {
                    assert(b.took(a, x));
                }
            }
            assert(c.freed@ == b.freed@);
        }
        (Link { pgno: r, count: nl }, Some(Link { pgno: q, count: nr }))
    }
}

/// A copy of the links.
pub fn copy_links(ls: &Vec<Link>) -> (r: Vec<Link>)
    ensures
        r@ == ls@,
{
    let mut r: Vec<Link> = Vec::new();
    let mut i: usize = 0;
    while i < ls.len()
        invariant
            i <= ls@.len(),
            r@ == ls@.take(i as int),
        decreases ls@.len() - i,
    {
        r.push(ls[i]);
        assert(ls@.take(i + 1) =~= ls@.take(i as int).push(ls@[i as int]));
        i += 1;
    }
    assert(ls@.take(i as int) =~= ls@);
    r
}

/// The sum of the numbers of the links.
pub fn sum(ls: &Vec<Link>) -> (n: usize)
    requires
        total(ls@) <= usize::MAX,
    ensures
        n == total(ls@),
{
    let mut n: usize = 0;
    let mut i: usize = 0;
    assert(ls@.take(0) =~= Seq::<Link>::empty());
    while i < ls.len()
        invariant
            i <= ls@.len(),
            n == total(ls@.take(i as int)),
            total(ls@) <= usize::MAX,
        decreases ls@.len() - i,
    {
        proof {
            lemma_total_split(ls@, i as int);
        }
        n = n + ls[i].count;
        i += 1;
    }
    assert(ls@.take(i as int) =~= ls@);
    n
}

/// The entries beneath links that stand one after the other are the
/// entries beneath the first ones and then those beneath the others.
pub proof fn lemma_below_add(m: Pages, x: Seq<Link>, y: Seq<Link>, k: nat)
    ensures
        below(m, x + y, k) == below(m, x, k) + below(m, y, k),
        flat(below(m, x + y, k)) == flat(below(m, x, k)) + flat(below(m, y, k)),
{
    assert(below(m, x + y, k) =~= below(m, x, k) + below(m, y, k));
    lemma_flat_add(below(m, x, k), below(m, y, k));
}

/// A page of a tree beneath a link of a branch is a page of the tree
/// beneath the branch.
pub proof fn lemma_has_up(m: Pages, p: u64, h: nat, ls: Seq<Link>, j: int, q: u64)
    requires
        page(m, p) == PageView::Branch(ls),
        h > 0,
        0 <= j < ls.len(),
        sub_has(m, ls[j].pgno, (h - 1) as nat, q),
    ensures
        sub_has(m, p, h, q),
{
    assert(page(m, p)->Branch_0 == ls);
    assert(exists|i: int|
        0 <= i < ls.len() && sub_has(m, (#[trigger] ls[i]).pgno, (h - 1) as nat, q));
}

/// While the tree beneath one link of a branch changes, the trees beneath
/// the other links stay as they are: their pages, what they hold, and that
/// they are in order and in use.
pub proof fn lemma_sibling_same(
    a: Pager,
    b: Pager,
    ma: Pages,
    mb: Pages,
    p: u64,
    h: nat,
    n: nat,
    cap: nat,
    ls: Seq<Link>,
    c: int,
    j: int,
    oldest: Option<u64>,
)
    requires
        sub_ok(ma, p, h, n, cap),
        h > 0,
        page(ma, p) == PageView::Branch(ls),
        live(a, ma, p, h),
        0 <= c < ls.len(),
        0 <= j < ls.len(),
        j != c,
        kept(a, b, ma, mb, ls[c].pgno, (h - 1) as nat, oldest),
    ensures
        sub_ok(mb, ls[j].pgno, (h - 1) as nat, ls[j].count as nat, cap),
        sub_view(mb, ls[j].pgno, (h - 1) as nat) == sub_view(ma, ls[j].pgno, (h - 1) as nat),
        forall|q: u64| #[trigger]
            sub_has(mb, ls[j].pgno, (h - 1) as nat, q) == sub_has(ma, ls[j].pgno, (h - 1) as nat, q),
        page(mb, ls[j].pgno) == page(ma, ls[j].pgno),
        live(b, mb, ls[j].pgno, (h - 1) as nat),
        forall|q: u64| #[trigger]
            sub_has(ma, ls[j].pgno, (h - 1) as nat, q) ==> !sub_has(
                ma,
                ls[c].pgno,
                (h - 1) as nat,
                q,
            ) && !b.took(a, q) && sub_has(ma, p, h, q),
{
    reveal(live);
    reveal(kept);
    let k = (h - 1) as nat;
    assert(apart(ma, ls[j].pgno, ls[c].pgno, k));
    assert forall|q: u64| #[trigger] sub_has(ma, ls[j].pgno, k, q) implies !sub_has(
        ma,
        ls[c].pgno,
        k,
        q,
    ) && !b.took(a, q) && sub_has(ma, p, h, q) && page(mb, q) == page(ma, q) by {
        lemma_has_up(ma, p, h, ls, j, q);
        if b.took(a, q) {
            lemma_took_unused(a, b, oldest, ma, p, h, q);
        }
    }
    lemma_sub_frame(ma, mb, ls[j].pgno, k, ls[j].count as nat, cap);
    assert(sub_has(ma, ls[j].pgno, k, ls[j].pgno));
    assert forall|q: u64| #[trigger] sub_has(mb, ls[j].pgno, k, q) implies !b.freed@.contains(q)
        && !b.space@.lists(q) && q < b.space@.next by {
        assert(sub_has(ma, ls[j].pgno, k, q));
        assert(sub_has(ma, p, h, q));
        if b.space@.lists(q) {
            assert(a.space@.lists(q));
        }
        if b.freed@.contains(q) {
            let x = choose|x: int| 0 <= x < b.freed@.len() && b.freed@[x] == q;
            if x < a.freed@.len() {
                assert(b.freed@.take(a.freed@.len() as int)[x] == a.freed@[x]);
                assert(a.freed@.contains(q));
            } else {
                assert(sub_has(ma, ls[c].pgno, k, b.freed@[x]));
            }
        }
    }
}

/// What a branch is like after the tree beneath one of its links was
/// changed into one tree or two: the new links fit, are in use, and hold what
/// was held before with the new entries in the place of the old.
pub proof fn lemma_rebuilt(
    a: Pager,
    b: Pager,
    ma: Pages,
    mb: Pages,
    p: u64,
    h: nat,
    n: nat,
    cap: nat,
    ls: Seq<Link>,
    c: int,
    mid: Seq<Link>,
    oldest: Option<u64>,
)
    requires
        a.wf(),
        sub_ok(ma, p, h, n, cap),
        h > 0,
        page(ma, p) == PageView::Branch(ls),
        live(a, ma, p, h),
        0 <= c < ls.len(),
        kept(a, b, ma, mb, ls[c].pgno, (h - 1) as nat, oldest),
        1 <= mid.len() <= 2,
        forall|x: int|
            0 <= x < mid.len() ==> sub_ok(
                mb,
                (#[trigger] mid[x]).pgno,
                (h - 1) as nat,
                mid[x].count as nat,
                cap,
            ) && live(b, mb, mid[x].pgno, (h - 1) as nat) && derived(
                a,
                b,
                ma,
                mb,
                ls[c].pgno,
                (h - 1) as nat,
                mid[x].pgno,
            ) && half_full(page(mb, mid[x].pgno), cap),
        mid.len() == 2 ==> apart(mb, mid[0].pgno, mid[1].pgno, (h - 1) as nat),
    ensures
        fit(mb, ls.take(c) + mid + ls.skip(c + 1), (h - 1) as nat, cap),
        !links_have(mb, ls.take(c) + mid + ls.skip(c + 1), (h - 1) as nat, p),
        forall|q: u64| #[trigger]
            links_have(mb, ls.take(c) + mid + ls.skip(c + 1), (h - 1) as nat, q) ==> !b.freed@.contains(
                q,
            ) && !b.space@.lists(q) && q < b.space@.next && (sub_has(ma, p, h, q) || b.took(a, q)),
        !b.freed@.contains(p),
        !b.space@.lists(p),
        p < b.space@.next,
        page(mb, p) == page(ma, p),
        flat(below(mb, ls.take(c) + mid + ls.skip(c + 1), (h - 1) as nat)) == flat(
            below(ma, ls.take(c), (h - 1) as nat),
        ) + flat(below(mb, mid, (h - 1) as nat)) + flat(below(ma, ls.skip(c + 1), (h - 1) as nat)),
        total(ls.take(c) + mid + ls.skip(c + 1)) == total(ls.take(c)) + total(mid) + total(
            ls.skip(c + 1),
        ),
        framed(a, b, ma, mb, p, h),
        gave(a, b, ma, p, h),
        b.wf(),
        b.grown(a, oldest),
{
    reveal(live);
    reveal(kept);
    let k = (h - 1) as nat;
    let l2 = ls.take(c) + mid + ls.skip(c + 1);
    let w = mid.len() as int;
    // Where the new links come from.
    assert forall|j: int| 0 <= j < l2.len() implies #[trigger] l2[j] == (if j < c {
        ls[j]
    } else if j < c + w {
        mid[j - c]
    } else {
        ls[j - w + 1]
    }) by {}
    assert(sub_has(ma, p, h, p));
    assert(!sub_has(ma, ls[c].pgno, k, p));
    // The page of the branch.
    if b.took(a, p) {
        lemma_took_unused(a, b, oldest, ma, p, h, p);
    }
    assert(page(mb, p) == page(ma, p));
    if b.space@.lists(p) {
        assert(a.space@.lists(p));
    }
    if b.freed@.contains(p) {
        let x = choose|x: int| 0 <= x < b.freed@.len() && b.freed@[x] == p;
        if x < a.freed@.len() {
            assert(b.freed@.take(a.freed@.len() as int)[x] == a.freed@[x]);
            assert(a.freed@.contains(p));
        } else {
            assert(sub_has(ma, ls[c].pgno, k, b.freed@[x]));
        }
    }
    // Every new link.
    assert forall|j: int| 0 <= j < l2.len() implies sub_ok(
        mb,
        (#[trigger] l2[j]).pgno,
        k,
        l2[j].count as nat,
        cap,
    ) && half_full(page(mb, l2[j].pgno), cap) && live(b, mb, l2[j].pgno, k) && !sub_has(
        mb,
        l2[j].pgno,
        k,
        p,
    ) && (forall|q: u64| #[trigger]
        sub_has(mb, l2[j].pgno, k, q) ==> (sub_has(ma, p, h, q) || b.took(a, q)) && (if j < c
            || j >= c + w {
            sub_has(ma, l2[j].pgno, k, q) && !sub_has(ma, ls[c].pgno, k, q) && !b.took(a, q)
        } else {
            sub_has(ma, ls[c].pgno, k, q) || b.took(a, q)
        })) by {
        if j < c || j >= c + w {
            let j0 = if j < c { j } else { j - w + 1 };
            lemma_sibling_same(a, b, ma, mb, p, h, n, cap, ls, c, j0, oldest);
            assert(sub_has(ma, ls[j0].pgno, k, ls[j0].pgno));
        } else {
            let x = j - c;
            assert(l2[j] == mid[x]);
            assert forall|q: u64| #[trigger] sub_has(mb, l2[j].pgno, k, q) implies sub_has(
                ma,
                p,
                h,
                q,
            ) || b.took(a, q) by {
                if sub_has(ma, ls[c].pgno, k, q) {
                    lemma_has_up(ma, p, h, ls, c, q);
                }
            }
            if sub_has(mb, l2[j].pgno, k, p) {
            }
        }
    }
    assert forall|i: int, j: int| 0 <= i < l2.len() && 0 <= j < l2.len() && i != j implies apart(
        mb,
        (#[trigger] l2[i]).pgno,
        (#[trigger] l2[j]).pgno,
        k,
    ) by {
        let iout = i < c || i >= c + w;
        let jout = j < c || j >= c + w;
        let i0 = if i < c { i } else { i - w + 1 };
        let j0 = if j < c { j } else { j - w + 1 };
        assert forall|q: u64| #[trigger] sub_has(mb, l2[i].pgno, k, q) implies !sub_has(
            mb,
            l2[j].pgno,
            k,
            q,
        ) by {
            if iout && jout {
                assert(apart(ma, ls[i0].pgno, ls[j0].pgno, k));
            } else if !iout && !jout {
                assert(apart(mb, mid[0].pgno, mid[1].pgno, k));
            }
        }
    }
    assert(!links_have(mb, l2, k, p));
    assert forall|q: u64| #[trigger] links_have(mb, l2, k, q) implies !b.freed@.contains(q)
        && !b.space@.lists(q) && q < b.space@.next && (sub_has(ma, p, h, q) || b.took(a, q)) by {
        let j = choose|j: int| 0 <= j < l2.len() && sub_has(mb, (#[trigger] l2[j]).pgno, k, q);
        assert(live(b, mb, l2[j].pgno, k));
    }
    // What the links hold.
    lemma_below_add(mb, ls.take(c) + mid, ls.skip(c + 1), k);
    lemma_below_add(mb, ls.take(c), mid, k);
    assert(below(mb, ls.take(c), k) =~= below(ma, ls.take(c), k)) by {
        assert forall|j: int| 0 <= j < c implies #[trigger] below(mb, ls.take(c), k)[j] == below(
            ma,
            ls.take(c),
            k,
        )[j] by {
            lemma_sibling_same(a, b, ma, mb, p, h, n, cap, ls, c, j, oldest);
        }
    }
    assert(below(mb, ls.skip(c + 1), k) =~= below(ma, ls.skip(c + 1), k)) by {
        assert forall|j: int| 0 <= j < ls.len() - c - 1 implies #[trigger] below(
            mb,
            ls.skip(c + 1),
            k,
        )[j] == below(ma, ls.skip(c + 1), k)[j] by {
            lemma_sibling_same(a, b, ma, mb, p, h, n, cap, ls, c, j + c + 1, oldest);
        }
    }
    crate::tree::lemma_total_add(ls.take(c) + mid, ls.skip(c + 1));
    crate::tree::lemma_total_add(ls.take(c), mid);
    // What stays outside.
    assert forall|q: u64| !sub_has(ma, p, h, q) && !b.took(a, q) implies #[trigger] page(mb, q)
        == page(ma, q) by {
        if sub_has(ma, ls[c].pgno, k, q) {
            lemma_has_up(ma, p, h, ls, c, q);
        }
    }
    assert forall|x: int| a.freed@.len() <= x < b.freed@.len() implies sub_has(
        ma,
        p,
        h,
        #[trigger] b.freed@[x],
    ) || b.took(a, b.freed@[x]) by {
        if sub_has(ma, ls[c].pgno, k, b.freed@[x]) {
            lemma_has_up(ma, p, h, ls, c, b.freed@[x]);
        }
    }
}

/// Whether page `q` belongs to a tree beneath one of the links or was
/// given up.
pub open spec fn among(b: Pager, mb: Pages, l2: Seq<Link>, k: nat, q: u64) -> bool {
    links_have(mb, l2, k, q) || b.freed@.contains(q)
}

/// Whether no page beneath the branch `p` was lost while the links `l2`
/// were made ready: every page that stood beneath the branch, and every
/// page that was taken since the state `a`, belongs to a tree beneath one of
/// the links or was given up.
#[verifier::opaque]
pub open spec fn all_placed(a: Pager, b: Pager, ma: Pages, mb: Pages, p: u64, h: nat, l2: Seq<Link>) -> bool {
    forall|q: u64|
        (sub_has(ma, p, h, q) && q != p) || b.took(a, q) ==> #[trigger] among(
            b,
            mb,
            l2,
            (h - 1) as nat,
            q,
        )
}

/// No page beneath a branch is lost where the tree beneath one of its
/// links was changed without loss.
pub proof fn lemma_rebuilt_whole(
    a: Pager,
    b: Pager,
    ma: Pages,
    mb: Pages,
    p: u64,
    h: nat,
    n: nat,
    cap: nat,
    ls: Seq<Link>,
    c: int,
    r: (Link, Option<Link>),
    oldest: Option<u64>,
)
    requires
        sub_ok(ma, p, h, n, cap),
        h > 0,
        page(ma, p) == PageView::Branch(ls),
        live(a, ma, p, h),
        0 <= c < ls.len(),
        kept(a, b, ma, mb, ls[c].pgno, (h - 1) as nat, oldest),
        whole(a, b, ma, mb, ls[c].pgno, (h - 1) as nat, r),
    ensures
        all_placed(a, b, ma, mb, p, h, ls.take(c) + mid_of(r) + ls.skip(c + 1)),
{
    reveal(whole);
    reveal(all_placed);
    let k = (h - 1) as nat;
    let mid = mid_of(r);
    let l2 = ls.take(c) + mid + ls.skip(c + 1);
    let w = mid.len() as int;
    assert(mid[0] == r.0);
    assert forall|j: int| 0 <= j < l2.len() implies #[trigger] l2[j] == (if j < c {
        ls[j]
    } else if j < c + w {
        mid[j - c]
    } else {
        ls[j - w + 1]
    }) by {}
    assert forall|q: u64| (sub_has(ma, p, h, q) && q != p) || b.took(a, q) implies #[trigger] among(
        b,
        mb,
        l2,
        k,
        q,
    ) by {
        let j = if b.took(a, q) {
            c
        } else {
            choose|j: int| 0 <= j < ls.len() && sub_has(ma, (#[trigger] ls[j]).pgno, k, q)
        };
        if !b.took(a, q) {
            assert(page(ma, p)->Branch_0 == ls);
            assert(sub_has(ma, ls[j].pgno, k, q));
        }
        if j == c {
            assert(placed(b, mb, r, k, q));
            if sub_has(mb, r.0.pgno, k, q) {
                assert(l2[c] == mid[0]);
                assert(sub_has(mb, l2[c].pgno, k, q));
            } else if r.1 is Some && sub_has(mb, r.1->0.pgno, k, q) {
                assert(mid[1] == r.1->0);
                assert(l2[c + 1] == mid[1]);
                assert(sub_has(mb, l2[c + 1].pgno, k, q));
            }
        } else {
            lemma_sibling_same(a, b, ma, mb, p, h, n, cap, ls, c, j, oldest);
            let j2 = if j < c {
                j
            } else {
                j + w - 1
            };
            assert(l2[j2] == ls[j]);
            assert(sub_has(mb, l2[j2].pgno, k, q));
        }
    }
}

/// No page is lost where the links of a branch were made ready without
/// loss and the branch was written anew.
pub proof fn lemma_whole_up(
    a: Pager,
    b: Pager,
    c: Pager,
    ma: Pages,
    mb: Pages,
    mc: Pages,
    p: u64,
    h: nat,
    cap: nat,
    l2: Seq<Link>,
    r: (Link, Option<Link>),
    oldest: Option<u64>,
)
    requires
        h > 0,
        ready(a, b, ma, mb, p, h, cap, l2),
        all_placed(a, b, ma, mb, p, h, l2),
        c.wf(),
        c.grown(b, oldest),
        b.grown(a, oldest),
        wrote(b, c, mb, mc, p, l2, r, cap),
    ensures
        whole(a, c, ma, mc, p, h, r),
{
    reveal(whole);
    reveal(all_placed);
    reveal(ready);
    reveal(wrote);
    let k = (h - 1) as nat;
    // The trees beneath the links are as they were.
    assert forall|q: u64| #[trigger] links_have(mb, l2, k, q) implies page(mc, q) == page(mb, q) by {
        if c.took(b, q) {
            if q >= b.space@.next {
            } else {
                let x = choose|x: u64| reclaimable(x, oldest) && #[trigger] b.space@.lists_under(q, x);
                lemma_lists(b.space@, q, x);
            }
        }
    }
    lemma_links_frame(mb, mc, l2, k, cap);
    let half = (l2.len() / 2) as int;
    assert forall|q: u64| sub_has(ma, p, h, q) || c.took(a, q) implies #[trigger] placed(c, mc, r, h, q) by {
        assert(sub_has(mc, r.0.pgno, h, r.0.pgno));
        if r.1 is Some {
            assert(sub_has(mc, r.1->0.pgno, h, r.1->0.pgno));
        }
        if q == p {
        } else if (sub_has(ma, p, h, q) && q != p) || b.took(a, q) {
            assert(among(b, mb, l2, k, q));
            if b.freed@.contains(q) {
                let j = choose|j: int| 0 <= j < b.freed@.len() && b.freed@[j] == q;
                assert(c.freed@.take(b.freed@.len() as int)[j] == b.freed@[j]);
                assert(c.freed@[j] == q);
            } else {
                let j = choose|j: int| 0 <= j < l2.len() && sub_has(mb, (#[trigger] l2[j]).pgno, k, q);
                assert(sub_has(mc, l2[j].pgno, k, q));
                match r.1 {
                    None => {
                        lemma_has_up(mc, r.0.pgno, h, l2, j, q);
                    },
                    Some(s) => {
                        if j < half {
                            assert(l2.take(half)[j] == l2[j]);
                            lemma_has_up(mc, r.0.pgno, h, l2.take(half), j, q);
                        } else {
                            assert(l2.skip(half)[j - half] == l2[j]);
                            lemma_has_up(mc, s.pgno, h, l2.skip(half), j - half, q);
                        }
                    },
                }
            }
        } else {
            assert(c.took(b, q));
        }
    }
}

/// Links that fit still fit when only the first or the last of them are
/// taken, and the pages beneath those are pages beneath all.
pub proof fn lemma_fit_part(m: Pages, ls: Seq<Link>, k: nat, cap: nat, x: int)
    requires
        fit(m, ls, k, cap),
        0 <= x <= ls.len(),
    ensures
        fit(m, ls.take(x), k, cap),
        fit(m, ls.skip(x), k, cap),
        forall|q: u64| #[trigger] links_have(m, ls.take(x), k, q) ==> links_have(m, ls, k, q),
        forall|q: u64| #[trigger] links_have(m, ls.skip(x), k, q) ==> links_have(m, ls, k, q),
        forall|q: u64| #[trigger] links_have(m, ls.take(x), k, q) ==> !links_have(m, ls.skip(x), k, q),
{
    let a = ls.take(x);
    let b = ls.skip(x);
    assert forall|i: int| 0 <= i < a.len() implies #[trigger] a[i] == ls[i] by {}
    assert forall|i: int| 0 <= i < b.len() implies #[trigger] b[i] == ls[i + x] by {}
    assert forall|i: int, j: int| 0 <= i < a.len() && 0 <= j < a.len() && i != j implies apart(
        m,
        (#[trigger] a[i]).pgno,
        (#[trigger] a[j]).pgno,
        k,
    ) by {
        assert(apart(m, ls[i].pgno, ls[j].pgno, k));
    }
    assert forall|i: int, j: int| 0 <= i < b.len() && 0 <= j < b.len() && i != j implies apart(
        m,
        (#[trigger] b[i]).pgno,
        (#[trigger] b[j]).pgno,
        k,
    ) by {
        assert(apart(m, ls[i + x].pgno, ls[j + x].pgno, k));
    }
    assert forall|q: u64| #[trigger] links_have(m, a, k, q) implies links_have(m, ls, k, q) && !links_have(
        m,
        b,
        k,
        q,
    ) by {
        let i = choose|i: int| 0 <= i < a.len() && sub_has(m, (#[trigger] a[i]).pgno, k, q);
        assert(sub_has(m, ls[i].pgno, k, q));
        if links_have(m, b, k, q) {
            let j = choose|j: int| 0 <= j < b.len() && sub_has(m, (#[trigger] b[j]).pgno, k, q);
            assert(apart(m, ls[i].pgno, ls[j + x].pgno, k));
        }
    }
    assert forall|q: u64| #[trigger] links_have(m, b, k, q) implies links_have(m, ls, k, q) by {
        let i = choose|i: int| 0 <= i < b.len() && sub_has(m, (#[trigger] b[i]).pgno, k, q);
        assert(sub_has(m, ls[i + x].pgno, k, q));
    }
}

/// A page that is the branch itself, or was taken for it, is not beneath
/// the links of the branch.
pub proof fn lemma_not_beneath(
    b: Pager,
    c: Pager,
    mb: Pages,
    l2: Seq<Link>,
    k: nat,
    p: u64,
    q: u64,
    oldest: Option<u64>,
)
    requires
        c.grown(b, oldest),
        !links_have(mb, l2, k, p),
        forall|x: u64| #[trigger]
            links_have(mb, l2, k, x) ==> !b.space@.lists(x) && x < b.space@.next,
        q == p || c.took(b, q),
    ensures
        !links_have(mb, l2, k, q),
{
    if links_have(mb, l2, k, q) && q != p {
        assert(c.took(b, q));
        if q >= b.space@.next {
        } else {
            let y = choose|y: u64| reclaimable(y, oldest) && #[trigger] b.space@.lists_under(q, y);
            lemma_lists(b.space@, q, y);
        }
    }
}

/// What the new branch page, or the two halves, are like once the links
/// `l2` are written.
pub proof fn lemma_finished(
    a: Pager,
    b: Pager,
    c: Pager,
    ma: Pages,
    mb: Pages,
    mc: Pages,
    p: u64,
    h: nat,
    cap: nat,
    l2: Seq<Link>,
    r: (Link, Option<Link>),
    oldest: Option<u64>,
)
    requires
        h > 0,
        4 <= cap,
        c.wf(),
        b.grown(a, oldest),
        c.grown(b, oldest),
        sub_has(ma, p, h, p),
        ready(a, b, ma, mb, p, h, cap, l2),
        wrote(b, c, mb, mc, p, l2, r, cap),
    ensures
        kept(a, c, ma, mc, p, h, oldest),
        built(a, c, ma, mc, p, h, flat(below(mb, l2, (h - 1) as nat)), r, cap),
{
    reveal(live);
    reveal(kept);
    reveal(built);
    reveal(ready);
    reveal(wrote);
    let k = (h - 1) as nat;
    lemma_grown_trans(a, b, c, oldest);
    // The pages beneath the links stay as they are.
    assert forall|q: u64| #[trigger] links_have(mb, l2, k, q) implies page(mc, q) == page(mb, q)
        && !c.freed@.contains(q) && !c.space@.lists(q) && q < c.space@.next && (sub_has(
        ma,
        p,
        h,
        q,
    ) || c.took(a, q)) by {
        if c.took(b, q) {
            if q >= b.space@.next {
            } else {
                let x = choose|x: u64| reclaimable(x, oldest) && #[trigger] b.space@.lists_under(q, x);
                lemma_lists(b.space@, q, x);
            }
        }
        if q == r.0.pgno {
            if r.0.pgno != p {
                assert(c.took(b, q));
            }
        }
        if c.space@.lists(q) {
            assert(b.space@.lists(q));
        }
        if b.took(a, q) {
            assert(c.took(a, q));
        }
    }
    lemma_links_frame(mb, mc, l2, k, cap);
    let x = (l2.len() / 2) as int;
    lemma_fit_part(mc, l2, k, cap, x);
    assert(l2 =~= l2.take(x) + l2.skip(x));
    lemma_below_add(mc, l2.take(x), l2.skip(x), k);
    // The pages themselves.
    lemma_not_beneath(b, c, mb, l2, k, p, r.0.pgno, oldest);
    assert(links_have(mc, l2, k, r.0.pgno) == links_have(mb, l2, k, r.0.pgno));
    assert(!links_have(mc, l2, k, r.0.pgno));
    let l0 = if r.1 is Some { l2.take(x) } else { l2 };
    assert(l2.take(l2.len() as int) =~= l2);
    assert(fit(mc, l0, k, cap));
    assert(!links_have(mc, l0, k, r.0.pgno));
    assert(2 <= l0.len() <= cap);
    assert(page(mc, r.0.pgno) == PageView::Branch(l0));
    lemma_branch(mc, r.0.pgno, l0, h, cap);
    let k0 = choose|k0: int| 0 <= k0 < c.over@.len() && (#[trigger] c.over@[k0]).pgno == r.0.pgno;
    assert(!c.space@.lists(c.over@[k0].pgno) && c.over@[k0].pgno < c.space@.next);
    assert(r.0.pgno != p ==> c.took(a, r.0.pgno)) by {
        if r.0.pgno != p {
            assert(c.took(b, r.0.pgno));
        }
    }
    assert forall|q: u64| #[trigger] sub_has(mc, r.0.pgno, h, q) implies !c.freed@.contains(q)
        && !c.space@.lists(q) && q < c.space@.next && (sub_has(ma, p, h, q) || c.took(a, q)) by {
        if q != r.0.pgno {
            assert(links_have(mc, l0, k, q));
            assert(links_have(mb, l2, k, q));
        }
    }
    match r.1 {
        None => {},
        Some(s) => {
            let l1 = l2.skip(x);
            lemma_not_beneath(b, c, mb, l2, k, p, s.pgno, oldest);
            assert(links_have(mc, l2, k, s.pgno) == links_have(mb, l2, k, s.pgno));
            assert(!links_have(mc, l2, k, s.pgno));
            assert(!links_have(mc, l1, k, s.pgno));
            assert(!links_have(mc, l1, k, r.0.pgno));
            assert(!links_have(mc, l0, k, s.pgno));
            assert(fit(mc, l1, k, cap));
            assert(2 <= l1.len() <= cap);
            lemma_branch(mc, s.pgno, l1, h, cap);
            let k1 = choose|k1: int|
                0 <= k1 < c.over@.len() && (#[trigger] c.over@[k1]).pgno == s.pgno;
            assert(!c.space@.lists(c.over@[k1].pgno) && c.over@[k1].pgno < c.space@.next);
            assert(c.took(a, s.pgno));
            assert forall|q: u64| #[trigger] sub_has(mc, s.pgno, h, q) implies !c.freed@.contains(q)
                && !c.space@.lists(q) && q < c.space@.next && (sub_has(ma, p, h, q) || c.took(
                a,
                q,
            )) && !sub_has(mc, r.0.pgno, h, q) by {
                if q != s.pgno {
                    assert(links_have(mc, l1, k, q));
                    assert(links_have(mb, l2, k, q));
                    assert(!links_have(mc, l0, k, q));
                }
            }
            assert forall|q: u64| #[trigger] sub_has(mc, r.0.pgno, h, q) implies !sub_has(
                mc,
                s.pgno,
                h,
                q,
            ) by {}
        },
    }
    // What stays outside, and what was given up.
    assert forall|q: u64| !sub_has(ma, p, h, q) && !c.took(a, q) implies #[trigger] page(mc, q)
        == page(ma, q) by {
        if b.took(a, q) {
            assert(c.took(a, q));
        }
        assert(q != p);
    }
    assert forall|j: int| a.freed@.len() <= j < c.freed@.len() implies sub_has(
        ma,
        p,
        h,
        #[trigger] c.freed@[j],
    ) || c.took(a, c.freed@[j]) by {
        if j < b.freed@.len() {
            assert(c.freed@.take(b.freed@.len() as int)[j] == b.freed@[j]);
            if b.took(a, b.freed@[j]) {
                assert(c.took(a, b.freed@[j]));
            }
        }
    }
}

/// The links of the branch `p`, the link beneath which index `i` stands,
/// and the number of entries before that link.
pub fn descend(
    pg: &Pager,
    arena: &Vec<Page>,
    p: u64,
    i: usize,
    at_end: bool,
    Ghost(h): Ghost<nat>,
    Ghost(n): Ghost<nat>,
    Ghost(cap): Ghost<nat>,
) -> (r: (Vec<Link>, usize, usize))
    requires
        pg.wf(),
        h > 0,
        sub_ok(pg.map(arena@), p, h, n, cap),
        live(*pg, pg.map(arena@), p, h),
        at_end ==> i <= n,
        !at_end ==> i < n,
        n <= usize::MAX,
    ensures
        page(pg.map(arena@), p) == PageView::Branch(r.0@),
        r.1 < r.0@.len(),
        r.2 == total(r.0@.take(r.1 as int)),
        r.2 <= i,
        at_end ==> i <= r.2 + r.0@[r.1 as int].count,
        !at_end ==> i < r.2 + r.0@[r.1 as int].count,
        r.0@[r.1 as int].count <= n,
        sub_ok(pg.map(arena@), r.0@[r.1 as int].pgno, (h - 1) as nat, r.0@[r.1 as int].count as nat, cap),
        live(*pg, pg.map(arena@), r.0@[r.1 as int].pgno, (h - 1) as nat),
        !at_end ==> sub_view(pg.map(arena@), p, h)[i as int] == sub_view(
            pg.map(arena@),
            r.0@[r.1 as int].pgno,
            (h - 1) as nat,
        )[i - r.2],
        sub_view(pg.map(arena@), p, h) == flat(below(pg.map(arena@), r.0@.take(r.1 as int), (h - 1) as nat))
            + sub_view(pg.map(arena@), r.0@[r.1 as int].pgno, (h - 1) as nat) + flat(
            below(pg.map(arena@), r.0@.skip(r.1 + 1), (h - 1) as nat),
        ),
        flat(below(pg.map(arena@), r.0@.take(r.1 as int), (h - 1) as nat)).len() == r.2,
        r.0@.len() >= 2,
        total(r.0@) == n,
{
    let ghost ma = pg.map(arena@);
    let ls: Vec<Link> = match pg.read(arena, p) {
        Page::Branch(ls) => copy_links(ls),
        _ => Vec::new(),
    };
    assert(ls@ == page(ma, p)->Branch_0);
    let (c, off) = locate(&ls, i, at_end);
    proof {
        assert(links_ok(ma, ls@, (h - 1) as nat, cap));
        lemma_child_index(ma, ls@, (h - 1) as nat, cap, c as int);
        lemma_child_live(*pg, ma, p, h, ls@, c as int);
    }
    (ls, c, off)
}

/// Puts the links that came of a link's tree in the place of the link, and
/// writes the branch.
pub fn ascend(
    pg: &mut Pager,
    p: u64,
    ls: Vec<Link>,
    c: usize,
    r0: (Link, Option<Link>),
    cap: usize,
    oldest: Option<u64>,
    Ghost(arena): Ghost<Seq<Page>>,
) -> (r: (Link, Option<Link>))
    requires
        old(pg).wf(),
        c < ls@.len(),
        2 <= ls@.len(),
        4 <= cap < usize::MAX,
        !old(pg).freed@.contains(p),
        p < old(pg).space@.next,
        !old(pg).space@.lists(p),
        can_take(old(pg).space@, oldest, 2),
        ls@.len() <= (ls@.take(c as int) + mid_of(r0) + ls@.skip(c + 1)).len() <= cap + 1,
        total(ls@.take(c as int) + mid_of(r0) + ls@.skip(c + 1)) <= usize::MAX,
    ensures
        final(pg).wf(),
        final(pg).grown(*old(pg), oldest),
        spent(*old(pg), *final(pg), oldest, 2),
        wrote(
            *old(pg),
            *final(pg),
            old(pg).map(arena),
            final(pg).map(arena),
            p,
            ls@.take(c as int) + mid_of(r0) + ls@.skip(c + 1),
            r,
            cap as nat,
        ),
        r.1 is None ==> r.0.count == total(ls@.take(c as int) + mid_of(r0) + ls@.skip(c + 1))
            && items(page(final(pg).map(arena), r.0.pgno)) >= ls@.len() && page(
            final(pg).map(arena),
            r.0.pgno,
        ) == PageView::Branch(ls@.take(c as int) + mid_of(r0) + ls@.skip(c + 1)),
        r.1 matches Some(s) ==> r.0.count + s.count == total(
            ls@.take(c as int) + mid_of(r0) + ls@.skip(c + 1),
        ) && (ls@.take(c as int) + mid_of(r0) + ls@.skip(c + 1)).len() == cap + 1,
{
    proof {
        reveal(wrote);
    }
    let ghost old_ls = ls@;
    let mut ls = ls;
    ls.remove(c);
    match r0.1 {
        Some(s) => {
            ls.insert(c, s);
        },
        None => {},
    }
    ls.insert(c, r0.0);
    assert(ls@ =~= old_ls.take(c as int) + mid_of(r0) + old_ls.skip(c + 1));
    finish(pg, p, ls, cap, oldest, Ghost(arena))
}

/// Puts the entry `e` at index `i` into the tree beneath page `p`, which
/// holds `n` entries and stands `h` levels above the leaves. Returns the
/// link to the new tree, and a second link if the page had to be split.
pub fn ins(
    pg: &mut Pager,
    arena: &Vec<Page>,
    p: u64,
    h: usize,
    i: usize,
    e: Entry,
    cap: usize,
    oldest: Option<u64>,
    Ghost(n): Ghost<nat>,
) -> (r: (Link, Option<Link>))
    requires
        old(pg).wf(),
        sub_ok(old(pg).map(arena@), p, h as nat, n, cap as nat),
        live(*old(pg), old(pg).map(arena@), p, h as nat),
        i <= n,
        n < usize::MAX,
        4 <= cap < usize::MAX,
        can_take(old(pg).space@, oldest, 2 * (h as nat + 1)),
    ensures
        kept(*old(pg), *final(pg), old(pg).map(arena@), final(pg).map(arena@), p, h as nat, oldest),
        spent(*old(pg), *final(pg), oldest, 2 * (h as nat + 1)),
        built(
            *old(pg),
            *final(pg),
            old(pg).map(arena@),
            final(pg).map(arena@),
            p,
            h as nat,
            sub_view(old(pg).map(arena@), p, h as nat).insert(i as int, e@),
            r,
            cap as nat,
        ),
        r.1 is None ==> r.0.count == n + 1 && items(page(final(pg).map(arena@), r.0.pgno)) >= items(
            page(old(pg).map(arena@), p),
        ),
        r.1 matches Some(s) ==> r.0.count + s.count == n + 1,
        whole(*old(pg), *final(pg), old(pg).map(arena@), final(pg).map(arena@), p, h as nat, r),
    decreases h,
{
    let ghost a = *pg;
    let ghost ma = pg.map(arena@);
    if h == 0 {
        proof {
            crate::pager::lemma_can_take_less(a.space@, oldest, 2 * (h as nat + 1), 2);
        }
        return ins_leaf(pg, arena, p, i, e, cap, oldest);
    }
    let (ls, c, off) = descend(pg, arena, p, i, true, Ghost(h as nat), Ghost(n), Ghost(cap as nat));
    let ghost ev = e@;
    proof {
        crate::pager::lemma_can_take_less(a.space@, oldest, 2 * (h as nat + 1), 2 * h as nat);
    }
    let r0 = ins(pg, arena, ls[c].pgno, h - 1, i - off, e, cap, oldest, Ghost(ls@[c as int].count as nat));
    let ghost b = *pg;
    let ghost mb = pg.map(arena@);
    proof {
        let cv = sub_view(ma, ls@[c as int].pgno, (h - 1) as nat);
        assert(half_full(page(ma, ls@[c as int].pgno), cap as nat));
        lemma_ready(
            a,
            b,
            ma,
            mb,
            p,
            h as nat,
            n,
            cap as nat,
            ls@,
            c as int,
            cv.insert(i - off, ev),
            r0,
            oldest,
            2 * h as nat,
            2,
        );
        let before = flat(below(ma, ls@.take(c as int), (h - 1) as nat));
        let after = flat(below(ma, ls@.skip(c + 1), (h - 1) as nat));
        lemma_total_split(ls@, c as int);
        crate::tree::lemma_sub_len(
            ma,
            ls@[c as int].pgno,
            (h - 1) as nat,
            ls@[c as int].count as nat,
            cap as nat,
        );
        assert(before.len() == off);
        assert(0 <= i - off <= cv.len());
        assert((before + cv + after).insert(i as int, ev) =~= before + cv.insert(i - off, ev) + after);
        lemma_rebuilt_whole(a, b, ma, mb, p, h as nat, n, cap as nat, ls@, c as int, r0, oldest);
    }
    let r = ascend(pg, p, ls, c, r0, cap, oldest, Ghost(arena@));
    proof {
        assert(sub_has(ma, p, h as nat, p));
        lemma_finished(
            a,
            b,
            *pg,
            ma,
            mb,
            pg.map(arena@),
            p,
            h as nat,
            cap as nat,
            ls@.take(c as int) + mid_of(r0) + ls@.skip(c + 1),
            r,
            oldest,
        );
        lemma_spent_add(a, b, *pg, oldest, 2 * h as nat, 2);
        lemma_whole_up(
            a,
            b,
            *pg,
            ma,
            mb,
            pg.map(arena@),
            p,
            h as nat,
            cap as nat,
            ls@.take(c as int) + mid_of(r0) + ls@.skip(c + 1),
            r,
            oldest,
        );
    }
    r
}

/// The tree beneath a link of a branch is in use where the tree beneath
/// the branch is.
pub proof fn lemma_child_live(a: Pager, ma: Pages, p: u64, h: nat, ls: Seq<Link>, c: int)
    requires
        live(a, ma, p, h),
        h > 0,
        page(ma, p) == PageView::Branch(ls),
        0 <= c < ls.len(),
    ensures
        live(a, ma, ls[c].pgno, (h - 1) as nat),
{
    reveal(live);
    assert forall|q: u64| #[trigger] sub_has(ma, ls[c].pgno, (h - 1) as nat, q) implies !a.freed@.contains(
        q,
    ) && !a.space@.lists(q) && q < a.space@.next by {
        lemma_has_up(ma, p, h, ls, c, q);
    }
}

/// Taking at most `x` pages and then at most `y` is taking at most `x + y`.
pub proof fn lemma_spent_add(a: Pager, b: Pager, c: Pager, oldest: Option<u64>, x: nat, y: nat)
    requires
        spent(a, b, oldest, x),
        spent(b, c, oldest, y),
    ensures
        spent(a, c, oldest, x + y),
{
    reveal(spent);
    assert forall|k: nat| can_take(a.space@, oldest, k + (x + y)) implies #[trigger] can_take(
        c.space@,
        oldest,
        k,
    ) by {
        assert(can_take(a.space@, oldest, (k + y) + x));
        assert(can_take(b.space@, oldest, k + y));
    }
}

/// What a branch is like after the tree beneath its link `c` was changed:
/// its new links are ready to be written, and they hold what the branch held
/// with the new entries `cv` in the place of those beneath the link.
pub proof fn lemma_ready(
    a: Pager,
    b: Pager,
    ma: Pages,
    mb: Pages,
    p: u64,
    h: nat,
    n: nat,
    cap: nat,
    ls: Seq<Link>,
    c: int,
    cv: Seq<EntryView>,
    r: (Link, Option<Link>),
    oldest: Option<u64>,
    x: nat,
    y: nat,
)
    requires
        a.wf(),
        4 <= cap,
        sub_ok(ma, p, h, n, cap),
        h > 0,
        page(ma, p) == PageView::Branch(ls),
        live(a, ma, p, h),
        0 <= c < ls.len(),
        kept(a, b, ma, mb, ls[c].pgno, (h - 1) as nat, oldest),
        spent(a, b, oldest, x),
        can_take(a.space@, oldest, x + y),
        built(a, b, ma, mb, ls[c].pgno, (h - 1) as nat, cv, r, cap),
        r.1 is None ==> half_full(page(mb, r.0.pgno), cap),
    ensures
        ({
            let l2 = ls.take(c) + mid_of(r) + ls.skip(c + 1);
            let k = (h - 1) as nat;
            &&& ready(a, b, ma, mb, p, h, cap, l2)
            &&& !b.freed@.contains(p)
            &&& !b.space@.lists(p)
            &&& p < b.space@.next
            &&& flat(below(mb, l2, k)) == flat(below(ma, ls.take(c), k)) + cv + flat(
                below(ma, ls.skip(c + 1), k),
            )
            &&& total(l2) == total(ls.take(c)) + cv.len() + total(ls.skip(c + 1))
            &&& l2.len() == ls.len() - 1 + mid_of(r).len()
            &&& 1 <= mid_of(r).len() <= 2
            &&& r.1 is Some ==> mid_of(r).len() == 2
            &&& r.1 is None ==> mid_of(r).len() == 1
            &&& can_take(b.space@, oldest, y)
            &&& b.wf()
            &&& b.grown(a, oldest)
        }),
{
    reveal(live);
    reveal(spent);
    reveal(ready);
    let k = (h - 1) as nat;
    let child = ls[c];
    let mid = mid_of(r);
    assert(links_ok(ma, ls, k, cap));
    lemma_mid(a, b, ma, mb, child.pgno, k, cv, r, cap);
    assert(mid[0] == r.0);
    assert forall|x: int| 0 <= x < mid.len() implies half_full(
        page(mb, (#[trigger] mid[x]).pgno),
        cap,
    ) by {
        if r.1 is None {
            assert(x == 0);
            assert(mid[x] == r.0);
        } else {
            assert(sub_ok(mb, mid[x].pgno, k, mid[x].count as nat, cap));
        }
    }
    lemma_rebuilt(a, b, ma, mb, p, h, n, cap, ls, c, mid, oldest);
    assert(can_take(b.space@, oldest, y)) by {
        assert(can_take(a.space@, oldest, y + x));
    }
}

/// What was built, as links: one link, or two side by side.
pub open spec fn mid_of(r: (Link, Option<Link>)) -> Seq<Link> {
    match r.1 {
        Some(s) => seq![r.0, s],
        None => seq![r.0],
    }
}

/// What was built, as links: each is in order, in use and made of the
/// pages of the old tree or of pages that were taken; two are apart and at
/// least half full; together they hold the entries, and their numbers add up.
pub proof fn lemma_mid(
    a: Pager,
    b: Pager,
    ma: Pages,
    mb: Pages,
    p: u64,
    k: nat,
    view: Seq<EntryView>,
    r: (Link, Option<Link>),
    cap: nat,
)
    requires
        built(a, b, ma, mb, p, k, view, r, cap),
    ensures
        forall|x: int|
            0 <= x < mid_of(r).len() ==> sub_ok(
                mb,
                (#[trigger] mid_of(r)[x]).pgno,
                k,
                mid_of(r)[x].count as nat,
                cap,
            ) && live(b, mb, mid_of(r)[x].pgno, k) && derived(a, b, ma, mb, p, k, mid_of(r)[x].pgno)
                && (r.1 is Some ==> half_full(page(mb, mid_of(r)[x].pgno), cap)),
        mid_of(r).len() == 2 ==> apart(mb, mid_of(r)[0].pgno, mid_of(r)[1].pgno, k),
        flat(below(mb, mid_of(r), k)) == view,
        total(mid_of(r)) == r.0.count + match r.1 {
            Some(s) => s.count as nat,
            None => 0,
        },
        view.len() == total(mid_of(r)),
        1 <= mid_of(r).len() <= 2,
        mid_of(r)[0] == r.0,
{
    reveal(live);
    reveal(built);
    let l = r.0;
    let mid = mid_of(r);
    crate::tree::lemma_sub_len(mb, l.pgno, k, l.count as nat, cap);
    match r.1 {
        Some(s) => {
            crate::tree::lemma_sub_len(mb, s.pgno, k, s.count as nat, cap);
            assert(mid =~= seq![l] + seq![s]);
            lemma_below_add(mb, seq![l], seq![s], k);
            assert(below(mb, seq![l], k) =~= seq![sub_view(mb, l.pgno, k)]);
            assert(below(mb, seq![s], k) =~= seq![sub_view(mb, s.pgno, k)]);
            crate::tree::lemma_flat_one(sub_view(mb, l.pgno, k));
            crate::tree::lemma_flat_one(sub_view(mb, s.pgno, k));
            crate::tree::lemma_total_add(seq![l], seq![s]);
            lemma_total_split(seq![l], 0);
            lemma_total_split(seq![s], 0);
            assert(seq![l].take(0) =~= Seq::<Link>::empty());
            assert(seq![l].skip(1) =~= Seq::<Link>::empty());
            assert(seq![s].take(0) =~= Seq::<Link>::empty());
            assert(seq![s].skip(1) =~= Seq::<Link>::empty());
        },
        None => {
            assert(below(mb, seq![l], k) =~= seq![sub_view(mb, l.pgno, k)]);
            crate::tree::lemma_flat_one(sub_view(mb, l.pgno, k));
            lemma_total_split(seq![l], 0);
            assert(seq![l].take(0) =~= Seq::<Link>::empty());
            assert(seq![l].skip(1) =~= Seq::<Link>::empty());
        },
    }
}

/// Puts the entry `e` in the place of entry `i` of the leaf `p`.
pub fn rep_leaf(
    pg: &mut Pager,
    arena: &Vec<Page>,
    p: u64,
    i: usize,
    e: Entry,
    cap: usize,
    oldest: Option<u64>,
) -> (r: Link)
    requires
        old(pg).wf(),
        page(old(pg).map(arena@), p) is Leaf,
        sub_ok(old(pg).map(arena@), p, 0, items(page(old(pg).map(arena@), p)), cap as nat),
        live(*old(pg), old(pg).map(arena@), p, 0),
        i < items(page(old(pg).map(arena@), p)),
        4 <= cap < usize::MAX,
        can_take(old(pg).space@, oldest, 2),
    ensures
        kept(*old(pg), *final(pg), old(pg).map(arena@), final(pg).map(arena@), p, 0, oldest),
        spent(*old(pg), *final(pg), oldest, 2),
        built(
            *old(pg),
            *final(pg),
            old(pg).map(arena@),
            final(pg).map(arena@),
            p,
            0,
            sub_view(old(pg).map(arena@), p, 0).update(i as int, e@),
            (r, None),
            cap as nat,
        ),
        r.count == items(page(old(pg).map(arena@), p)),
        items(page(final(pg).map(arena@), r.pgno)) == items(page(old(pg).map(arena@), p)),
        whole(*old(pg), *final(pg), old(pg).map(arena@), final(pg).map(arena@), p, 0, (r, None)),
{
    proof {
        reveal(live);
        reveal(spent);
    }
    let ghost a = *pg;
    let ghost ma = pg.map(arena@);
    let ghost old_view = sub_view(ma, p, 0);
    let ghost new_view = old_view.update(i as int, e@);
    let mut es = match pg.read(arena, p) {
        Page::Leaf(es) => copy_entries(es),
        _ => Vec::new(),
    };
    assert(entries_view(es@) == old_view);
    es[i] = e;
    assert(entries_view(es@) =~= new_view);
    assert(sub_has(ma, p, 0, p));
    proof {
        crate::pager::lemma_can_take_less(a.space@, oldest, 2, 1);
    }
    let n = es.len();
    let r = store(pg, p, Page::Leaf(es), oldest, Ghost(arena@));
    proof {
        reveal(built);
        reveal(kept);
        let b = *pg;
        let mb = b.map(arena@);
        assert(page(mb, r) == PageView::Leaf(new_view));
        lemma_leaf_alone(mb, r);
        lemma_leaf_alone(ma, p);
        lemma_stored(a, b, ma, mb, p, r, oldest);
        assert forall|k: nat| can_take(a.space@, oldest, k + 2) implies #[trigger] can_take(
            b.space@,
            oldest,
            k,
        ) by {
            crate::pager::lemma_can_take_less(a.space@, oldest, k + 2, k + 1);
        }
        lemma_whole_stored(a, b, ma, mb, p, Link { pgno: r, count: n });
    }
    Link { pgno: r, count: n }
}

/// Puts the entry `e` in the place of entry `i` of the tree beneath page
/// `p`. Returns the link to the new tree.
pub fn rep(
    pg: &mut Pager,
    arena: &Vec<Page>,
    p: u64,
    h: usize,
    i: usize,
    e: Entry,
    cap: usize,
    oldest: Option<u64>,
    Ghost(n): Ghost<nat>,
) -> (r: Link)
    requires
        old(pg).wf(),
        sub_ok(old(pg).map(arena@), p, h as nat, n, cap as nat),
        live(*old(pg), old(pg).map(arena@), p, h as nat),
        i < n,
        n <= usize::MAX,
        4 <= cap < usize::MAX,
        can_take(old(pg).space@, oldest, 2 * (h as nat + 1)),
    ensures
        kept(*old(pg), *final(pg), old(pg).map(arena@), final(pg).map(arena@), p, h as nat, oldest),
        spent(*old(pg), *final(pg), oldest, 2 * (h as nat + 1)),
        built(
            *old(pg),
            *final(pg),
            old(pg).map(arena@),
            final(pg).map(arena@),
            p,
            h as nat,
            sub_view(old(pg).map(arena@), p, h as nat).update(i as int, e@),
            (r, None),
            cap as nat,
        ),
        r.count == n,
        items(page(final(pg).map(arena@), r.pgno)) == items(page(old(pg).map(arena@), p)),
        whole(*old(pg), *final(pg), old(pg).map(arena@), final(pg).map(arena@), p, h as nat, (r, None)),
    decreases h,
{
    let ghost a = *pg;
    let ghost ma = pg.map(arena@);
    if h == 0 {
        proof {
            crate::pager::lemma_can_take_less(a.space@, oldest, 2 * (h as nat + 1), 2);
        }
        return rep_leaf(pg, arena, p, i, e, cap, oldest);
    }
    let (ls, c, off) = descend(pg, arena, p, i, false, Ghost(h as nat), Ghost(n), Ghost(cap as nat));
    let ghost ev = e@;
    proof {
        crate::pager::lemma_can_take_less(a.space@, oldest, 2 * (h as nat + 1), 2 * h as nat);
    }
    let l = rep(pg, arena, ls[c].pgno, h - 1, i - off, e, cap, oldest, Ghost(ls@[c as int].count as nat));
    let ghost b = *pg;
    let ghost mb = pg.map(arena@);
    let r0 = (l, None);
    proof {
        let cv = sub_view(ma, ls@[c as int].pgno, (h - 1) as nat);
        assert(half_full(page(ma, ls@[c as int].pgno), cap as nat));
        lemma_ready(
            a,
            b,
            ma,
            mb,
            p,
            h as nat,
            n,
            cap as nat,
            ls@,
            c as int,
            cv.update(i - off, ev),
            r0,
            oldest,
            2 * h as nat,
            2,
        );
        let before = flat(below(ma, ls@.take(c as int), (h - 1) as nat));
        let after = flat(below(ma, ls@.skip(c + 1), (h - 1) as nat));
        lemma_total_split(ls@, c as int);
        crate::tree::lemma_sub_len(
            ma,
            ls@[c as int].pgno,
            (h - 1) as nat,
            ls@[c as int].count as nat,
            cap as nat,
        );
        assert(before.len() == off);
        assert((before + cv + after).update(i as int, ev) =~= before + cv.update(i - off, ev) + after);
        lemma_rebuilt_whole(a, b, ma, mb, p, h as nat, n, cap as nat, ls@, c as int, r0, oldest);
    }
    let r = ascend(pg, p, ls, c, r0, cap, oldest, Ghost(arena@));
    proof {
        assert(sub_has(ma, p, h as nat, p));
        lemma_finished(
            a,
            b,
            *pg,
            ma,
            mb,
            pg.map(arena@),
            p,
            h as nat,
            cap as nat,
            ls@.take(c as int) + mid_of(r0) + ls@.skip(c + 1),
            r,
            oldest,
        );
        lemma_spent_add(a, b, *pg, oldest, 2 * h as nat, 2);
        lemma_one(ma, mb, pg.map(arena@), ls@, c as int, r0, r, cap as nat);
        lemma_whole_up(
            a,
            b,
            *pg,
            ma,
            mb,
            pg.map(arena@),
            p,
            h as nat,
            cap as nat,
            ls@.take(c as int) + mid_of(r0) + ls@.skip(c + 1),
            r,
            oldest,
        );
        assert(r == (r.0, None::<Link>));
    }
    r.0
}

/// Links of which one was replaced by one link stand on one page again.
pub proof fn lemma_one(
    ma: Pages,
    mb: Pages,
    mc: Pages,
    ls: Seq<Link>,
    c: int,
    r0: (Link, Option<Link>),
    r: (Link, Option<Link>),
    cap: nat,
)
    requires
        r0.1 is None,
        0 <= c < ls.len(),
        ls.len() <= cap,
        r.1 is None ==> items(page(mc, r.0.pgno)) >= ls.len() && page(mc, r.0.pgno) is Branch
            && items(page(mc, r.0.pgno)) == (ls.take(c) + mid_of(r0) + ls.skip(c + 1)).len(),
        r.1 is Some ==> (ls.take(c) + mid_of(r0) + ls.skip(c + 1)).len() == cap + 1,
    ensures
        r.1 is None,
        items(page(mc, r.0.pgno)) == ls.len(),
{
}

} // verus!
