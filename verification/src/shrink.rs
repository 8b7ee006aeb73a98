//! Taking an entry out of the tree.
//!
//! Before the way leads into a page that has no item to spare, the page is
//! filled up from the page beside it: by an item of that page if it has one
//! to spare, else by joining the two pages into one. So the page that loses
//! the entry stays at least half full, and so does every page above it.
use crate::grow::{
    all_placed, among, ascend, built, copy_links, descend, finish, fit, framed, gave, kept,
    lemma_below_add, lemma_branch, lemma_finished, lemma_fit_part, lemma_has_up, lemma_leaf_alone,
    lemma_links_frame, lemma_ready, lemma_spent_add, lemma_stored, lemma_took_unused,
    lemma_whole_up, links_have, live, mid_of, ready, spent, store, sum, whole, wrote,
};
use crate::leaf::{copy_entries, entries_view};
use crate::model::EntryView;
use crate::pager::{can_take, holds, lemma_can_take_less, lemma_grown_trans, lemma_lists, Pager};
use crate::space::reclaimable;
use crate::tree::{
    apart, below, flat, half_full, items, lemma_child_index, lemma_flat_one, lemma_sub_frame,
    lemma_sub_len, lemma_total_add, lemma_total_split, links_ok, page, sub_has, sub_ok, sub_view,
    total, Link, Page, PageView, Pages,
};
use vstd::prelude::*;

verus! {

/// Whether a page has an item to spare: it stays at least half full when it
/// loses one.
pub open spec fn rich(pg: PageView, cap: nat) -> bool {
    2 * (items(pg) - 1) >= cap
}

/// What writing two pages that stand side by side anew has done: the new
/// content stands on one page or on two; no other page has changed; the
/// pages that were taken are those; and nothing was given up but the two old
/// pages.
#[verifier::opaque]
pub open spec fn joined(
    b: Pager,
    c: Pager,
    mb: Pages,
    mc: Pages,
    lp: u64,
    rp: u64,
    left: PageView,
    right: Option<PageView>,
    r: (u64, Option<u64>),
) -> bool {
    &&& forall|q: u64|
        q != r.0 && (r.1 matches Some(s) ==> q != s) ==> #[trigger] page(mc, q) == page(mb, q)
    &&& forall|q: u64| #[trigger]
        c.took(b, q) ==> q != lp && q != rp && (q == r.0 || (r.1 matches Some(s) && q == s))
    &&& forall|q: u64| c.freed@.contains(q) ==> b.freed@.contains(q) || q == lp || q == rp
    &&& forall|j: int|
        b.freed@.len() <= j < c.freed@.len() ==> #[trigger] c.freed@[j] == lp || c.freed@[j] == rp
    &&& r.0 == lp || c.took(b, r.0)
    &&& !c.freed@.contains(r.0)
    &&& holds(c.over@, r.0)
    &&& page(mc, r.0) == left
    &&& match r.1 {
        None => right is None && c.freed@.contains(rp) && r.0 != rp,
        Some(s) => {
            &&& right == Some(page(mc, s))
            &&& s == rp || c.took(b, s)
            &&& s != r.0
            &&& s != lp
            &&& r.0 != rp
            &&& !c.freed@.contains(s)
            &&& holds(c.over@, s)
        },
    }
}

/// Whether the two pages that were written anew are accounted for: a page
/// that was not written in its place was given up.
pub open spec fn left_behind(c: Pager, lp: u64, rp: u64, r: (u64, Option<u64>)) -> bool {
    &&& r.0 != lp ==> c.freed@.contains(lp)
    &&& r.1 != Some(rp) ==> c.freed@.contains(rp)
}

/// Writes the new content of two pages that stand side by side: one page
/// in the place of the left one, and one in the place of the right one or
/// none, in which case the right page is given up.
pub fn put_pair(
    pg: &mut Pager,
    lp: u64,
    rp: u64,
    left: Page,
    right: Option<Page>,
    oldest: Option<u64>,
    Ghost(arena): Ghost<Seq<Page>>,
) -> (r: (u64, Option<u64>))
    requires
        old(pg).wf(),
        lp != rp,
        !old(pg).freed@.contains(lp),
        lp < old(pg).space@.next,
        !old(pg).space@.lists(lp),
        !old(pg).freed@.contains(rp),
        rp < old(pg).space@.next,
        !old(pg).space@.lists(rp),
        can_take(old(pg).space@, oldest, 2),
    ensures
        final(pg).wf(),
        final(pg).grown(*old(pg), oldest),
        spent(*old(pg), *final(pg), oldest, 2),
        joined(
            *old(pg),
            *final(pg),
            old(pg).map(arena),
            final(pg).map(arena),
            lp,
            rp,
            left@,
            match right {
                Some(x) => Some(x@),
                None => None,
            },
            r,
        ),
        r.1 is Some == right is Some,
        left_behind(*final(pg), lp, rp, r),
{
    proof {
        reveal(spent);
        reveal(joined);
    }
    let ghost a = *pg;
    let ghost ma = pg.map(arena);
    proof {
        lemma_can_take_less(a.space@, oldest, 2, 1);
    }
    let l = store(pg, lp, left, oldest, Ghost(arena));
    let ghost b = *pg;
    let ghost mb = pg.map(arena);
    proof {
        lemma_stored(a, b, ma, mb, lp, l, oldest);
        assert(can_take(b.space@, oldest, 1));
        assert(!b.space@.lists(rp)) by {
            if b.space@.lists(rp) {
                assert(a.space@.lists(rp));
            }
        }
        assert(l != rp) by {
            if l == rp {
                assert(b.took(a, rp));
                if rp >= a.space@.next {
                } else {
                    let x = choose|x: u64|
                        reclaimable(x, oldest) && #[trigger] a.space@.lists_under(rp, x);
                    lemma_lists(a.space@, rp, x);
                }
            }
        }
    }
    match right {
        Some(right) => {
            let s = store(pg, rp, right, oldest, Ghost(arena));
            proof {
                let c = *pg;
                let mc = pg.map(arena);
                lemma_stored(b, c, mb, mc, rp, s, oldest);
                lemma_grown_trans(a, b, c, oldest);
                assert(s != l);
                assert(s != lp) by {
                    if s == lp {
                        assert(c.took(b, lp));
                        if lp >= b.space@.next {
                        } else {
                            let x = choose|x: u64|
                                reclaimable(x, oldest) && #[trigger] b.space@.lists_under(lp, x);
                            lemma_lists(b.space@, lp, x);
                            assert(a.space@.lists(lp));
                        }
                    }
                }
                assert forall|q: u64| #[trigger] c.took(a, q) implies q != lp && q != rp && (q == l
                    || q == s) by {
                    if b.took(a, q) {
                    } else {
                        assert(c.took(b, q));
                    }
                }
                assert(l == lp || c.took(a, l));
                assert(s == rp || c.took(a, s)) by {
                    if s != rp {
                        assert(c.took(b, s));
                    }
                }
                assert forall|k: nat| can_take(a.space@, oldest, k + 2) implies #[trigger] can_take(
                    c.space@,
                    oldest,
                    k,
                ) by {
                    assert(can_take(b.space@, oldest, k + 1));
                }
                assert forall|j: int| a.freed@.len() <= j < c.freed@.len() implies #[trigger] c.freed@[j]
                    == lp || c.freed@[j] == rp by {
                    if j < b.freed@.len() {
                        assert(c.freed@.take(b.freed@.len() as int)[j] == b.freed@[j]);
                    }
                }
                assert(holds(c.over@, l));
                if l != lp {
                    let j = choose|j: int| 0 <= j < b.freed@.len() && b.freed@[j] == lp;
                    assert(c.freed@.take(b.freed@.len() as int)[j] == b.freed@[j]);
                    assert(c.freed@[j] == lp);
                }
            }
            (l, Some(s))
        },
        None => {
            pg.retire(rp);
            proof {
                let c = *pg;
                assert(c.map(arena) == mb);
                assert(c.freed@.take(a.freed@.len() as int) =~= a.freed@) by {
                    assert(b.freed@.take(a.freed@.len() as int) == a.freed@);
                }
                assert(c.freed@[b.freed@.len() as int] == rp);
                assert forall|q: u64| #[trigger] c.took(a, q) implies q != lp && q != rp && q == l by {
                    assert(b.took(a, q));
                }
                assert forall|q: u64| c.freed@.contains(q) implies a.freed@.contains(q) || q == lp
                    || q == rp by {
                    let j = choose|j: int| 0 <= j < c.freed@.len() && c.freed@[j] == q;
                    if j < b.freed@.len() {
                        assert(b.freed@[j] == q);
                        assert(b.freed@.contains(q));
                    }
                }
                assert forall|k: nat| can_take(a.space@, oldest, k + 2) implies #[trigger] can_take(
                    c.space@,
                    oldest,
                    k,
                ) by {
                    lemma_can_take_less(a.space@, oldest, k + 2, k + 1);
                }
                assert(!c.freed@.contains(l)) by {
                    if c.freed@.contains(l) {
                        let j = choose|j: int| 0 <= j < c.freed@.len() && c.freed@[j] == l;
                        if j < b.freed@.len() {
                            assert(b.freed@[j] == l);
                            assert(b.freed@.contains(l));
                        }
                    }
                }
                assert(c.grown(a, oldest)) by {
                    assert forall|q: u64| #[trigger] c.took(a, q) implies q >= a.space@.next
                        || exists|x: u64|
                        reclaimable(x, oldest) && #[trigger] a.space@.lists_under(q, x) by {
                        assert(b.took(a, q));
                    }
                }
                assert forall|j: int| a.freed@.len() <= j < c.freed@.len() implies #[trigger] c.freed@[j]
                    == lp || c.freed@[j] == rp by {
                    if j < b.freed@.len() {
                        assert(c.freed@[j] == b.freed@[j]);
                    }
                }
                if l != lp {
                    let j = choose|j: int| 0 <= j < b.freed@.len() && b.freed@[j] == lp;
                    assert(c.freed@[j] == lp);
                }
            }
            (l, None)
        },
    }
}

/// Whether what has changed since the state `a` lies within the trees
/// beneath the links `x` to `x + w` of `ls`: every other page that was not
/// taken is as it was, and nothing was given up but pages of those trees.
#[verifier::opaque]
pub open spec fn within(
    a: Pager,
    b: Pager,
    ma: Pages,
    mb: Pages,
    ls: Seq<Link>,
    x: int,
    w: int,
    k: nat,
    oldest: Option<u64>,
) -> bool {
    &&& b.wf()
    &&& b.grown(a, oldest)
    &&& forall|q: u64|
        !links_have(ma, ls.subrange(x, x + w), k, q) && !b.took(a, q) ==> #[trigger] page(mb, q)
            == page(ma, q)
    &&& forall|j: int|
        a.freed@.len() <= j < b.freed@.len() ==> links_have(
            ma,
            ls.subrange(x, x + w),
            k,
            #[trigger] b.freed@[j],
        ) || b.took(a, b.freed@[j])
}

/// While the trees beneath some links of a branch change, the trees beneath
/// the other links stay as they are.
pub proof fn lemma_outside_same(
    a: Pager,
    b: Pager,
    ma: Pages,
    mb: Pages,
    p: u64,
    h: nat,
    n: nat,
    cap: nat,
    ls: Seq<Link>,
    x: int,
    w: int,
    j: int,
    oldest: Option<u64>,
)
    requires
        sub_ok(ma, p, h, n, cap),
        h > 0,
        page(ma, p) == PageView::Branch(ls),
        live(a, ma, p, h),
        0 <= x,
        1 <= w,
        x + w <= ls.len(),
        0 <= j < ls.len(),
        j < x || j >= x + w,
        within(a, b, ma, mb, ls, x, w, (h - 1) as nat, oldest),
    ensures
        sub_ok(mb, ls[j].pgno, (h - 1) as nat, ls[j].count as nat, cap),
        sub_view(mb, ls[j].pgno, (h - 1) as nat) == sub_view(ma, ls[j].pgno, (h - 1) as nat),
        forall|q: u64| #[trigger]
            sub_has(mb, ls[j].pgno, (h - 1) as nat, q) == sub_has(ma, ls[j].pgno, (h - 1) as nat, q),
        page(mb, ls[j].pgno) == page(ma, ls[j].pgno),
        live(b, mb, ls[j].pgno, (h - 1) as nat),
        forall|q: u64| #[trigger]
            sub_has(ma, ls[j].pgno, (h - 1) as nat, q) ==> !links_have(
                ma,
                ls.subrange(x, x + w),
                (h - 1) as nat,
                q,
            ) && !b.took(a, q) && sub_has(ma, p, h, q),
{
    reveal(live);
    reveal(within);
    let k = (h - 1) as nat;
    let reg = ls.subrange(x, x + w);
    assert forall|q: u64| #[trigger] sub_has(ma, ls[j].pgno, k, q) implies !links_have(
        ma,
        reg,
        k,
        q,
    ) && !b.took(a, q) && sub_has(ma, p, h, q) && page(mb, q) == page(ma, q) by {
        lemma_has_up(ma, p, h, ls, j, q);
        if b.took(a, q) {
            lemma_took_unused(a, b, oldest, ma, p, h, q);
        }
        if links_have(ma, reg, k, q) {
            let y = choose|y: int| 0 <= y < reg.len() && sub_has(ma, (#[trigger] reg[y]).pgno, k, q);
            assert(reg[y] == ls[x + y]);
            assert(apart(ma, ls[j].pgno, ls[x + y].pgno, k));
        }
    }
    lemma_sub_frame(ma, mb, ls[j].pgno, k, ls[j].count as nat, cap);
    assert(sub_has(ma, ls[j].pgno, k, ls[j].pgno));
    assert forall|q: u64| #[trigger] sub_has(mb, ls[j].pgno, k, q) implies !b.freed@.contains(q)
        && !b.space@.lists(q) && q < b.space@.next by {
        assert(sub_has(ma, ls[j].pgno, k, q));
        assert(sub_has(ma, p, h, q));
        if b.space@.lists(q) {
            assert(a.space@.lists(q));
        }
        if b.freed@.contains(q) {
            let z = choose|z: int| 0 <= z < b.freed@.len() && b.freed@[z] == q;
            if z < a.freed@.len() {
                assert(b.freed@.take(a.freed@.len() as int)[z] == a.freed@[z]);
                assert(a.freed@.contains(q));
            } else {
                assert(links_have(ma, reg, k, b.freed@[z]));
            }
        }
    }
}

/// What is given when the trees beneath some links of a branch were changed
/// into one tree or two.
pub open spec fn region_pre(
    a: Pager,
    b: Pager,
    ma: Pages,
    mb: Pages,
    p: u64,
    h: nat,
    n: nat,
    cap: nat,
    ls: Seq<Link>,
    x: int,
    w: int,
    mid: Seq<Link>,
    oldest: Option<u64>,
) -> bool {
    &&& a.wf()
    &&& sub_ok(ma, p, h, n, cap)
    &&& h > 0
    &&& page(ma, p) == PageView::Branch(ls)
    &&& live(a, ma, p, h)
    &&& 0 <= x
    &&& 1 <= w
    &&& x + w <= ls.len()
    &&& within(a, b, ma, mb, ls, x, w, (h - 1) as nat, oldest)
    &&& 1 <= mid.len() <= 2
    &&& 2 <= ls.len() - w + mid.len() <= cap + 1
    &&& forall|y: int|
        0 <= y < mid.len() ==> sub_ok(
            mb,
            (#[trigger] mid[y]).pgno,
            (h - 1) as nat,
            mid[y].count as nat,
            cap,
        ) && live(b, mb, mid[y].pgno, (h - 1) as nat) && half_full(page(mb, mid[y].pgno), cap)
            && from_region(a, b, ma, mb, ls.subrange(x, x + w), (h - 1) as nat, mid[y].pgno)
    &&& mid.len() == 2 ==> apart(mb, mid[0].pgno, mid[1].pgno, (h - 1) as nat)
}

/// Whether every page of the tree beneath `r` was a page of a tree beneath
/// the links `reg`, or was taken.
pub open spec fn from_region(a: Pager, b: Pager, ma: Pages, mb: Pages, reg: Seq<Link>, k: nat, r: u64) -> bool {
    forall|q: u64| #[trigger] sub_has(mb, r, k, q) ==> links_have(ma, reg, k, q) || b.took(a, q)
}

/// The new links of the branch.
pub open spec fn relinked(ls: Seq<Link>, x: int, w: int, mid: Seq<Link>) -> Seq<Link> {
    ls.take(x) + mid + ls.skip(x + w)
}

/// The page of the branch is none of the pages that changed: it is as it
/// was, and in use.
pub proof fn lemma_region_page(
    a: Pager,
    b: Pager,
    ma: Pages,
    mb: Pages,
    p: u64,
    h: nat,
    n: nat,
    cap: nat,
    ls: Seq<Link>,
    x: int,
    w: int,
    mid: Seq<Link>,
    oldest: Option<u64>,
)
    requires
        region_pre(a, b, ma, mb, p, h, n, cap, ls, x, w, mid, oldest),
    ensures
        forall|q: u64| #[trigger]
            links_have(ma, ls.subrange(x, x + w), (h - 1) as nat, q) ==> sub_has(ma, p, h, q) && q
                != p,
        !b.took(a, p),
        page(mb, p) == page(ma, p),
        !b.space@.lists(p),
        !b.freed@.contains(p),
        p < b.space@.next,
        b.wf(),
        b.grown(a, oldest),
{
    reveal(live);
    reveal(within);
    let k = (h - 1) as nat;
    let reg = ls.subrange(x, x + w);
    assert(sub_has(ma, p, h, p));
    assert forall|q: u64| #[trigger] links_have(ma, reg, k, q) implies sub_has(ma, p, h, q) && q
        != p by {
        let y = choose|y: int| 0 <= y < reg.len() && sub_has(ma, (#[trigger] reg[y]).pgno, k, q);
        assert(reg[y] == ls[x + y]);
        lemma_has_up(ma, p, h, ls, x + y, q);
        assert(!sub_has(ma, ls[x + y].pgno, k, p));
    }
    if b.took(a, p) {
        lemma_took_unused(a, b, oldest, ma, p, h, p);
    }
    if b.space@.lists(p) {
        assert(a.space@.lists(p));
    }
    if b.freed@.contains(p) {
        let z = choose|z: int| 0 <= z < b.freed@.len() && b.freed@[z] == p;
        if z < a.freed@.len() {
            assert(b.freed@.take(a.freed@.len() as int)[z] == a.freed@[z]);
            assert(a.freed@.contains(p));
        } else {
            assert(links_have(ma, reg, k, b.freed@[z]));
        }
    }
}

/// What holds of every new link of the branch.
pub open spec fn link_fine(
    a: Pager,
    b: Pager,
    ma: Pages,
    mb: Pages,
    p: u64,
    h: nat,
    cap: nat,
    reg: Seq<Link>,
    l: Link,
    out: bool,
) -> bool {
    let k = (h - 1) as nat;
    &&& sub_ok(mb, l.pgno, k, l.count as nat, cap)
    &&& half_full(page(mb, l.pgno), cap)
    &&& live(b, mb, l.pgno, k)
    &&& !sub_has(mb, l.pgno, k, p)
    &&& forall|q: u64| #[trigger]
        sub_has(mb, l.pgno, k, q) ==> (sub_has(ma, p, h, q) || b.took(a, q)) && (if out {
            sub_has(ma, l.pgno, k, q) && !links_have(ma, reg, k, q) && !b.took(a, q)
        } else {
            links_have(ma, reg, k, q) || b.took(a, q)
        })
}

/// Every new link of the branch is fine.
pub proof fn lemma_region_link(
    a: Pager,
    b: Pager,
    ma: Pages,
    mb: Pages,
    p: u64,
    h: nat,
    n: nat,
    cap: nat,
    ls: Seq<Link>,
    x: int,
    w: int,
    mid: Seq<Link>,
    oldest: Option<u64>,
    j: int,
)
    requires
        region_pre(a, b, ma, mb, p, h, n, cap, ls, x, w, mid, oldest),
        0 <= j < relinked(ls, x, w, mid).len(),
    ensures
        link_fine(
            a,
            b,
            ma,
            mb,
            p,
            h,
            cap,
            ls.subrange(x, x + w),
            relinked(ls, x, w, mid)[j],
            j < x || j >= x + mid.len(),
        ),
        j < x ==> relinked(ls, x, w, mid)[j] == ls[j],
        x <= j < x + mid.len() ==> relinked(ls, x, w, mid)[j] == mid[j - x],
        j >= x + mid.len() ==> relinked(ls, x, w, mid)[j] == ls[j - mid.len() + w],
        j < x || j >= x + mid.len() ==> sub_view(mb, relinked(ls, x, w, mid)[j].pgno, (h - 1) as nat)
            == sub_view(ma, relinked(ls, x, w, mid)[j].pgno, (h - 1) as nat),
{
    let k = (h - 1) as nat;
    let reg = ls.subrange(x, x + w);
    let l2 = relinked(ls, x, w, mid);
    let m = mid.len() as int;
    lemma_region_page(a, b, ma, mb, p, h, n, cap, ls, x, w, mid, oldest);
    if j < x || j >= x + m {
        let j0 = if j < x { j } else { j - m + w };
        assert(l2[j] == ls[j0]);
        lemma_outside_same(a, b, ma, mb, p, h, n, cap, ls, x, w, j0, oldest);
        assert(sub_has(ma, ls[j0].pgno, k, ls[j0].pgno));
        assert(!sub_has(ma, ls[j0].pgno, k, p));
    } else {
        let y = j - x;
        assert(l2[j] == mid[y]);
        assert(from_region(a, b, ma, mb, reg, k, mid[y].pgno));
        if sub_has(mb, l2[j].pgno, k, p) {
            assert(links_have(ma, reg, k, p) || b.took(a, p));
        }
    }
}

/// No two new links of the branch share a page.
pub proof fn lemma_region_apart(
    a: Pager,
    b: Pager,
    ma: Pages,
    mb: Pages,
    p: u64,
    h: nat,
    n: nat,
    cap: nat,
    ls: Seq<Link>,
    x: int,
    w: int,
    mid: Seq<Link>,
    oldest: Option<u64>,
    i: int,
    j: int,
)
    requires
        region_pre(a, b, ma, mb, p, h, n, cap, ls, x, w, mid, oldest),
        0 <= i < relinked(ls, x, w, mid).len(),
        0 <= j < relinked(ls, x, w, mid).len(),
        i != j,
    ensures
        apart(
            mb,
            relinked(ls, x, w, mid)[i].pgno,
            relinked(ls, x, w, mid)[j].pgno,
            (h - 1) as nat,
        ),
{
    let k = (h - 1) as nat;
    let l2 = relinked(ls, x, w, mid);
    let m = mid.len() as int;
    lemma_region_link(a, b, ma, mb, p, h, n, cap, ls, x, w, mid, oldest, i);
    lemma_region_link(a, b, ma, mb, p, h, n, cap, ls, x, w, mid, oldest, j);
    let iout = i < x || i >= x + m;
    let jout = j < x || j >= x + m;
    let i0 = if i < x { i } else { i - m + w };
    let j0 = if j < x { j } else { j - m + w };
    assert forall|q: u64| #[trigger] sub_has(mb, l2[i].pgno, k, q) implies !sub_has(
        mb,
        l2[j].pgno,
        k,
        q,
    ) by {
        if iout && jout {
            assert(apart(ma, ls[i0].pgno, ls[j0].pgno, k));
        } else if !iout && !jout {
            assert(apart(mb, mid[0].pgno, mid[1].pgno, k));
        }
    }
}

/// What a branch is like after the trees beneath some of its links were
/// changed into one tree or two: the new links are ready to be written, and
/// they hold what the links outside held and what the new trees hold.
pub proof fn lemma_region(
    a: Pager,
    b: Pager,
    ma: Pages,
    mb: Pages,
    p: u64,
    h: nat,
    n: nat,
    cap: nat,
    ls: Seq<Link>,
    x: int,
    w: int,
    mid: Seq<Link>,
    oldest: Option<u64>,
)
    requires
        region_pre(a, b, ma, mb, p, h, n, cap, ls, x, w, mid, oldest),
    ensures
        ready(a, b, ma, mb, p, h, cap, relinked(ls, x, w, mid)),
        !b.freed@.contains(p),
        !b.space@.lists(p),
        p < b.space@.next,
        flat(below(mb, relinked(ls, x, w, mid), (h - 1) as nat)) == flat(
            below(ma, ls.take(x), (h - 1) as nat),
        ) + flat(below(mb, mid, (h - 1) as nat)) + flat(below(ma, ls.skip(x + w), (h - 1) as nat)),
        total(relinked(ls, x, w, mid)) == total(ls.take(x)) + total(mid) + total(ls.skip(x + w)),
        b.wf(),
        b.grown(a, oldest),
{
    let k = (h - 1) as nat;
    let reg = ls.subrange(x, x + w);
    let l2 = relinked(ls, x, w, mid);
    let m = mid.len() as int;
    lemma_region_page(a, b, ma, mb, p, h, n, cap, ls, x, w, mid, oldest);
    assert forall|j: int| 0 <= j < l2.len() implies link_fine(
        a,
        b,
        ma,
        mb,
        p,
        h,
        cap,
        reg,
        #[trigger] l2[j],
        j < x || j >= x + m,
    ) by {
        lemma_region_link(a, b, ma, mb, p, h, n, cap, ls, x, w, mid, oldest, j);
    }
    assert(fit(mb, l2, k, cap)) by {
        assert forall|i: int, j: int| 0 <= i < l2.len() && 0 <= j < l2.len() && i != j implies apart(
            mb,
            (#[trigger] l2[i]).pgno,
            (#[trigger] l2[j]).pgno,
            k,
        ) by {
            lemma_region_apart(a, b, ma, mb, p, h, n, cap, ls, x, w, mid, oldest, i, j);
        }
    }
    lemma_region_have(a, b, ma, mb, p, h, cap, reg, l2, x, m);
    lemma_region_view(a, b, ma, mb, p, h, n, cap, ls, x, w, mid, oldest);
    lemma_region_outside(a, b, ma, mb, p, h, n, cap, ls, x, w, mid, oldest);
    reveal(ready);
}

/// The pages beneath the new links are in use, are pages of the old tree
/// or were taken, and the page of the branch is not among them.
pub proof fn lemma_region_have(
    a: Pager,
    b: Pager,
    ma: Pages,
    mb: Pages,
    p: u64,
    h: nat,
    cap: nat,
    reg: Seq<Link>,
    l2: Seq<Link>,
    x: int,
    m: int,
)
    requires
        h > 0,
        forall|j: int|
            0 <= j < l2.len() ==> link_fine(
                a,
                b,
                ma,
                mb,
                p,
                h,
                cap,
                reg,
                #[trigger] l2[j],
                j < x || j >= x + m,
            ),
    ensures
        !links_have(mb, l2, (h - 1) as nat, p),
        forall|q: u64| #[trigger]
            links_have(mb, l2, (h - 1) as nat, q) ==> !b.freed@.contains(q) && !b.space@.lists(q) && q
                < b.space@.next && (sub_has(ma, p, h, q) || b.took(a, q)),
{
    reveal(live);
    let k = (h - 1) as nat;
    if links_have(mb, l2, k, p) {
        let j = choose|j: int| 0 <= j < l2.len() && sub_has(mb, (#[trigger] l2[j]).pgno, k, p);
        assert(link_fine(a, b, ma, mb, p, h, cap, reg, l2[j], j < x || j >= x + m));
    }
    assert forall|q: u64| #[trigger] links_have(mb, l2, k, q) implies !b.freed@.contains(q)
        && !b.space@.lists(q) && q < b.space@.next && (sub_has(ma, p, h, q) || b.took(a, q)) by {
        let j = choose|j: int| 0 <= j < l2.len() && sub_has(mb, (#[trigger] l2[j]).pgno, k, q);
        assert(link_fine(a, b, ma, mb, p, h, cap, reg, l2[j], j < x || j >= x + m));
    }
}

/// What the new links of the branch hold, and how many entries.
pub proof fn lemma_region_view(
    a: Pager,
    b: Pager,
    ma: Pages,
    mb: Pages,
    p: u64,
    h: nat,
    n: nat,
    cap: nat,
    ls: Seq<Link>,
    x: int,
    w: int,
    mid: Seq<Link>,
    oldest: Option<u64>,
)
    requires
        region_pre(a, b, ma, mb, p, h, n, cap, ls, x, w, mid, oldest),
    ensures
        flat(below(mb, relinked(ls, x, w, mid), (h - 1) as nat)) == flat(
            below(ma, ls.take(x), (h - 1) as nat),
        ) + flat(below(mb, mid, (h - 1) as nat)) + flat(below(ma, ls.skip(x + w), (h - 1) as nat)),
        total(relinked(ls, x, w, mid)) == total(ls.take(x)) + total(mid) + total(ls.skip(x + w)),
{
    let k = (h - 1) as nat;
    lemma_below_add(mb, ls.take(x) + mid, ls.skip(x + w), k);
    lemma_below_add(mb, ls.take(x), mid, k);
    assert(below(mb, ls.take(x), k) =~= below(ma, ls.take(x), k)) by {
        assert forall|j: int| 0 <= j < x implies #[trigger] below(mb, ls.take(x), k)[j] == below(
            ma,
            ls.take(x),
            k,
        )[j] by {
            lemma_outside_same(a, b, ma, mb, p, h, n, cap, ls, x, w, j, oldest);
        }
    }
    assert(below(mb, ls.skip(x + w), k) =~= below(ma, ls.skip(x + w), k)) by {
        assert forall|j: int| 0 <= j < ls.len() - x - w implies #[trigger] below(
            mb,
            ls.skip(x + w),
            k,
        )[j] == below(ma, ls.skip(x + w), k)[j] by {
            lemma_outside_same(a, b, ma, mb, p, h, n, cap, ls, x, w, j + x + w, oldest);
        }
    }
    lemma_total_add(ls.take(x) + mid, ls.skip(x + w));
    lemma_total_add(ls.take(x), mid);
}

/// Outside the tree beneath the branch nothing has changed, and nothing
/// was given up but pages of that tree.
pub proof fn lemma_region_outside(
    a: Pager,
    b: Pager,
    ma: Pages,
    mb: Pages,
    p: u64,
    h: nat,
    n: nat,
    cap: nat,
    ls: Seq<Link>,
    x: int,
    w: int,
    mid: Seq<Link>,
    oldest: Option<u64>,
)
    requires
        region_pre(a, b, ma, mb, p, h, n, cap, ls, x, w, mid, oldest),
    ensures
        framed(a, b, ma, mb, p, h),
        gave(a, b, ma, p, h),
{
    reveal(within);
    let k = (h - 1) as nat;
    let reg = ls.subrange(x, x + w);
    lemma_region_page(a, b, ma, mb, p, h, n, cap, ls, x, w, mid, oldest);
    assert forall|q: u64| !sub_has(ma, p, h, q) && !b.took(a, q) implies #[trigger] page(mb, q)
        == page(ma, q) by {}
    assert forall|z: int| a.freed@.len() <= z < b.freed@.len() implies sub_has(
        ma,
        p,
        h,
        #[trigger] b.freed@[z],
    ) || b.took(a, b.freed@[z]) by {}
}

/// The items of two pages of one kind, one after the other.
pub open spec fn glue(pl: PageView, pr: PageView) -> PageView {
    match (pl, pr) {
        (PageView::Leaf(x), PageView::Leaf(y)) => PageView::Leaf(x + y),
        (PageView::Branch(x), PageView::Branch(y)) => PageView::Branch(x + y),
        _ => PageView::Free,
    }
}

/// The items `lo` to `hi` of a page.
pub open spec fn part(pv: PageView, lo: int, hi: int) -> PageView {
    match pv {
        PageView::Leaf(x) => PageView::Leaf(x.subrange(lo, hi)),
        PageView::Branch(x) => PageView::Branch(x.subrange(lo, hi)),
        PageView::Free => PageView::Free,
    }
}

/// The number of entries on or beneath a page, as its leaf or its links
/// say.
pub open spec fn mass(pv: PageView) -> nat {
    match pv {
        PageView::Leaf(x) => x.len(),
        PageView::Branch(x) => total(x),
        PageView::Free => 0,
    }
}

/// The links of two branches that stand side by side fit together: every
/// tree beneath them is in order and at least half full, and no two share a
/// page. None of them holds either of the two branches.
pub proof fn lemma_grand(m: Pages, p: u64, h: nat, n: nat, cap: nat, ls: Seq<Link>, x: int)
    requires
        sub_ok(m, p, h, n, cap),
        h > 1,
        page(m, p) == PageView::Branch(ls),
        0 <= x,
        x + 1 < ls.len(),
    ensures
        page(m, ls[x].pgno) is Branch,
        page(m, ls[x + 1].pgno) is Branch,
        fit(
            m,
            page(m, ls[x].pgno)->Branch_0 + page(m, ls[x + 1].pgno)->Branch_0,
            (h - 2) as nat,
            cap,
        ),
        forall|q: u64| #[trigger]
            links_have(
                m,
                page(m, ls[x].pgno)->Branch_0 + page(m, ls[x + 1].pgno)->Branch_0,
                (h - 2) as nat,
                q,
            ) ==> q != ls[x].pgno && q != ls[x + 1].pgno && (sub_has(m, ls[x].pgno, (h - 1) as nat, q)
                || sub_has(m, ls[x + 1].pgno, (h - 1) as nat, q)),
{
    let k = (h - 1) as nat;
    let g = (h - 2) as nat;
    let l = ls[x];
    let r = ls[x + 1];
    assert(sub_ok(m, l.pgno, k, l.count as nat, cap));
    assert(sub_ok(m, r.pgno, k, r.count as nat, cap));
    let la = page(m, l.pgno)->Branch_0;
    let lb = page(m, r.pgno)->Branch_0;
    let all = la + lb;
    assert(apart(m, l.pgno, r.pgno, k));
    assert(apart(m, r.pgno, l.pgno, k));
    assert(sub_has(m, l.pgno, k, l.pgno));
    assert(sub_has(m, r.pgno, k, r.pgno));
    assert forall|i: int| 0 <= i < all.len() implies #[trigger] all[i] == (if i < la.len() {
        la[i]
    } else {
        lb[i - la.len()]
    }) by {}
    assert forall|i: int, q: u64| 0 <= i < all.len() && #[trigger] sub_has(m, all[i].pgno, g, q) implies q
        != l.pgno && q != r.pgno && (if i < la.len() {
        sub_has(m, l.pgno, k, q) && !sub_has(m, r.pgno, k, q)
    } else {
        sub_has(m, r.pgno, k, q) && !sub_has(m, l.pgno, k, q)
    }) by {
        if i < la.len() {
            lemma_has_up(m, l.pgno, k, la, i, q);
            assert(!sub_has(m, la[i].pgno, g, l.pgno));
        } else {
            lemma_has_up(m, r.pgno, k, lb, i - la.len(), q);
            assert(!sub_has(m, lb[i - la.len()].pgno, g, r.pgno));
        }
    }
    assert forall|i: int, j: int| 0 <= i < all.len() && 0 <= j < all.len() && i != j implies apart(
        m,
        (#[trigger] all[i]).pgno,
        (#[trigger] all[j]).pgno,
        g,
    ) by {
        if i < la.len() && j < la.len() {
            assert(apart(m, la[i].pgno, la[j].pgno, g));
        } else if i >= la.len() && j >= la.len() {
            assert(apart(m, lb[i - la.len()].pgno, lb[j - la.len()].pgno, g));
        } else {
            assert forall|q: u64| #[trigger] sub_has(m, all[i].pgno, g, q) implies !sub_has(
                m,
                all[j].pgno,
                g,
                q,
            ) by {}
        }
    }
    assert forall|i: int| 0 <= i < all.len() implies sub_ok(
        m,
        (#[trigger] all[i]).pgno,
        g,
        all[i].count as nat,
        cap,
    ) && half_full(page(m, all[i].pgno), cap) by {
        if i < la.len() {
            assert(sub_ok(m, la[i].pgno, g, la[i].count as nat, cap));
        } else {
            assert(sub_ok(m, lb[i - la.len()].pgno, g, lb[i - la.len()].count as nat, cap));
        }
    }
    assert forall|q: u64| #[trigger] links_have(m, all, g, q) implies q != l.pgno && q != r.pgno
        && (sub_has(m, l.pgno, k, q) || sub_has(m, r.pgno, k, q)) by {
        let i = choose|i: int| 0 <= i < all.len() && sub_has(m, (#[trigger] all[i]).pgno, g, q);
        assert(sub_has(m, all[i].pgno, g, q));
    }
}

/// The entries on a page, or beneath its links.
pub open spec fn spread(m: Pages, pv: PageView, k: nat) -> Seq<EntryView> {
    match pv {
        PageView::Leaf(x) => x,
        PageView::Branch(x) => flat(below(m, x, (k - 1) as nat)),
        PageView::Free => Seq::empty(),
    }
}

/// The links on a page; none on a leaf.
pub open spec fn links_of(pv: PageView) -> Seq<Link> {
    match pv {
        PageView::Branch(x) => x,
        _ => Seq::empty(),
    }
}

/// What is given when two pages that stand side by side beneath a branch
/// were written anew.
pub open spec fn pair_pre(
    a: Pager,
    b: Pager,
    ma: Pages,
    mb: Pages,
    p: u64,
    h: nat,
    n: nat,
    cap: nat,
    ls: Seq<Link>,
    x: int,
    left: PageView,
    right: Option<PageView>,
    r: (u64, Option<u64>),
    oldest: Option<u64>,
) -> bool {
    &&& a.wf()
    &&& b.wf()
    &&& b.grown(a, oldest)
    &&& 4 <= cap
    &&& sub_ok(ma, p, h, n, cap)
    &&& h > 0
    &&& page(ma, p) == PageView::Branch(ls)
    &&& live(a, ma, p, h)
    &&& 0 <= x
    &&& x + 1 < ls.len()
    &&& joined(a, b, ma, mb, ls[x].pgno, ls[x + 1].pgno, left, right, r)
}

/// A page that was written from items of the two pages is the root of a
/// tree in order: it is in use and at least half full, its pages are itself
/// and pages beneath the old two, and it holds what its items say.
pub proof fn lemma_pair_child(
    a: Pager,
    b: Pager,
    ma: Pages,
    mb: Pages,
    p: u64,
    h: nat,
    n: nat,
    cap: nat,
    ls: Seq<Link>,
    x: int,
    left: PageView,
    right: Option<PageView>,
    r: (u64, Option<u64>),
    oldest: Option<u64>,
    xx: u64,
    lo: int,
    hi: int,
)
    requires
        pair_pre(a, b, ma, mb, p, h, n, cap, ls, x, left, right, r, oldest),
        xx == r.0 || r.1 == Some(xx),
        0 <= lo < hi <= items(glue(page(ma, ls[x].pgno), page(ma, ls[x + 1].pgno))),
        page(mb, xx) == part(glue(page(ma, ls[x].pgno), page(ma, ls[x + 1].pgno)), lo, hi),
        hi - lo <= cap,
        2 * (hi - lo) >= cap,
    ensures
        sub_ok(mb, xx, (h - 1) as nat, mass(page(mb, xx)), cap),
        live(b, mb, xx, (h - 1) as nat),
        half_full(page(mb, xx), cap),
        from_region(a, b, ma, mb, ls.subrange(x, x + 2), (h - 1) as nat, xx),
        sub_view(mb, xx, (h - 1) as nat) == spread(ma, page(mb, xx), (h - 1) as nat),
        forall|q: u64| #[trigger]
            sub_has(mb, xx, (h - 1) as nat, q) ==> q == xx || (h > 1 && links_have(
                ma,
                links_of(page(mb, xx)),
                (h - 2) as nat,
                q,
            )),
        xx == ls[x].pgno || xx == ls[x + 1].pgno || b.took(a, xx),
{
    reveal(live);
    reveal(joined);
    let k = (h - 1) as nat;
    let l = ls[x];
    let rr = ls[x + 1];
    let reg = ls.subrange(x, x + 2);
    assert(reg[0] == l && reg[1] == rr);
    assert(sub_ok(ma, l.pgno, k, l.count as nat, cap));
    assert(sub_ok(ma, rr.pgno, k, rr.count as nat, cap));
    assert(sub_has(ma, l.pgno, k, l.pgno));
    assert(sub_has(ma, rr.pgno, k, rr.pgno));
    assert(links_have(ma, reg, k, l.pgno));
    assert(links_have(ma, reg, k, rr.pgno));
    // The page itself is in use.
    let kx = choose|kx: int| 0 <= kx < b.over@.len() && (#[trigger] b.over@[kx]).pgno == xx;
    assert(!b.space@.lists(b.over@[kx].pgno) && b.over@[kx].pgno < b.space@.next);
    if h == 1 {
        assert(page(mb, xx) is Leaf);
        lemma_leaf_alone(mb, xx);
        assert forall|q: u64| #[trigger] sub_has(mb, xx, k, q) implies links_have(ma, reg, k, q)
            || b.took(a, q) by {}
    } else {
        let g = (h - 2) as nat;
        lemma_grand(ma, p, h, n, cap, ls, x);
        let all = page(ma, l.pgno)->Branch_0 + page(ma, rr.pgno)->Branch_0;
        let mine = all.subrange(lo, hi);
        assert(page(mb, xx) == PageView::Branch(mine));
        // The trees beneath stay as they are.
        assert forall|q: u64| #[trigger] links_have(ma, all, g, q) implies page(mb, q) == page(ma, q)
            && !b.took(a, q) && !b.freed@.contains(q) && !b.space@.lists(q) && q < b.space@.next
            && links_have(ma, reg, k, q) && q != xx by {
            if sub_has(ma, l.pgno, k, q) {
                lemma_has_up(ma, p, h, ls, x, q);
                assert(links_have(ma, reg, k, q));
            } else {
                lemma_has_up(ma, p, h, ls, x + 1, q);
                assert(links_have(ma, reg, k, q));
            }
            if b.took(a, q) {
                lemma_took_unused(a, b, oldest, ma, p, h, q);
            }
            if b.space@.lists(q) {
                assert(a.space@.lists(q));
            }
        }
        lemma_links_frame(ma, mb, all, g, cap);
        lemma_fit_part(mb, all, g, cap, hi);
        lemma_fit_part(mb, all.take(hi), g, cap, lo);
        assert(all.take(hi).skip(lo) =~= mine);
        assert forall|q: u64| #[trigger] links_have(mb, mine, g, q) implies links_have(ma, all, g, q) by {
            assert(links_have(mb, all.take(hi), g, q));
            assert(links_have(mb, all, g, q));
        }
        assert(!links_have(mb, mine, g, xx)) by {
            if links_have(mb, mine, g, xx) {
                assert(links_have(ma, all, g, xx));
            }
        }
        lemma_branch(mb, xx, mine, k, cap);
        assert forall|q: u64| #[trigger] links_have(ma, mine, g, q) implies page(mb, q) == page(
            ma,
            q,
        ) by {
            let i = choose|i: int| 0 <= i < mine.len() && sub_has(ma, (#[trigger] mine[i]).pgno, g, q);
            assert(mine[i] == all[lo + i]);
            assert(sub_has(ma, all[lo + i].pgno, g, q));
            assert(links_have(ma, all, g, q));
        }
        lemma_links_frame(ma, mb, mine, g, cap);
        assert forall|q: u64| #[trigger] sub_has(mb, xx, k, q) implies (q == xx || links_have(
            ma,
            mine,
            g,
            q,
        )) && !b.freed@.contains(q) && !b.space@.lists(q) && q < b.space@.next && (links_have(
            ma,
            reg,
            k,
            q,
        ) || b.took(a, q)) by {
            if q != xx {
                assert(links_have(mb, mine, g, q));
                assert(links_have(ma, all, g, q));
            }
        }
    }
}

/// Where the items of two pages are cut when the pages are written anew:
/// behind all of them if they fit on one page; else one item further than
/// the left page went, or one item less, so that the page that is to lose an
/// item gets one from the other.
pub open spec fn cut_at(pl: PageView, pr: PageView, left_takes: bool, cap: nat) -> int {
    if items(pl) + items(pr) <= cap {
        (items(pl) + items(pr)) as int
    } else if left_takes {
        (items(pl) + 1) as int
    } else {
        items(pl) - 1
    }
}

/// The number of items of a page.
pub fn count_items(pg: &Page) -> (n: usize)
    ensures
        n == items(pg@),
{
    match pg {
        Page::Leaf(es) => es.len(),
        Page::Branch(ls) => ls.len(),
        Page::Free => 0,
    }
}

/// The new pages for two pages that stand side by side: one page with all
/// their items if they fit; else two pages, with one item moved to the page
/// that is to lose one. With the pages come the numbers of entries on or
/// beneath them.
pub fn plan_pair(
    left: &Page,
    right: &Page,
    left_takes: bool,
    cap: usize,
) -> (r: (Page, Option<Page>, usize, usize))
    requires
        left@ is Leaf && right@ is Leaf || left@ is Branch && right@ is Branch,
        items(left@) >= 1,
        items(right@) >= 1,
        items(left@) + items(right@) > cap ==> (left_takes ==> items(right@) >= 2) && (!left_takes
            ==> items(left@) >= 2),
        mass(left@) + mass(right@) <= usize::MAX,
        items(left@) + items(right@) <= usize::MAX,
    ensures
        r.0@ == part(glue(left@, right@), 0, cut_at(left@, right@, left_takes, cap as nat)),
        r.2 == mass(r.0@),
        match r.1 {
            None => items(left@) + items(right@) <= cap && r.3 == 0,
            Some(x) => items(left@) + items(right@) > cap && x@ == part(
                glue(left@, right@),
                cut_at(left@, right@, left_takes, cap as nat),
                (items(left@) + items(right@)) as int,
            ) && r.3 == mass(x@),
        },
        r.2 + r.3 == mass(left@) + mass(right@),
{
    let ghost at = cut_at(left@, right@, left_takes, cap as nat);
    match (left, right) {
        (Page::Leaf(x), Page::Leaf(y)) => {
            let mut all = copy_entries(x);
            let mut other = copy_entries(y);
            let n = all.len();
            all.append(&mut other);
            assert(entries_view(all@) =~= entries_view(x@) + entries_view(y@));
            let ghost whole = entries_view(all@);
            if all.len() <= cap {
                assert(whole.subrange(0, whole.len() as int) =~= whole);
                let k = all.len();
                (Page::Leaf(all), None, k, 0)
            } else {
                let cut = if left_takes { n + 1 } else { n - 1 };
                let rest = all.split_off(cut);
                assert(entries_view(all@) =~= whole.subrange(0, cut as int));
                assert(entries_view(rest@) =~= whole.subrange(cut as int, whole.len() as int));
                let k = all.len();
                let m = rest.len();
                (Page::Leaf(all), Some(Page::Leaf(rest)), k, m)
            }
        },
        (Page::Branch(x), Page::Branch(y)) => {
            let mut all = copy_links(x);
            let mut other = copy_links(y);
            let n = all.len();
            all.append(&mut other);
            let ghost whole = all@;
            assert(whole == x@ + y@);
            proof {
                lemma_total_add(x@, y@);
            }
            if all.len() <= cap {
                assert(whole.subrange(0, whole.len() as int) =~= whole);
                let k = sum(&all);
                (Page::Branch(all), None, k, 0)
            } else {
                let cut = if left_takes { n + 1 } else { n - 1 };
                let rest = all.split_off(cut);
                proof {
                    assert(all@ =~= whole.subrange(0, cut as int));
                    assert(rest@ =~= whole.subrange(cut as int, whole.len() as int));
                    assert(whole =~= all@ + rest@);
                    lemma_total_add(all@, rest@);
                }
                let k = sum(&all);
                let m = sum(&rest);
                (Page::Branch(all), Some(Page::Branch(rest)), k, m)
            }
        },
        _ => (Page::Free, None, 0, 0),
    }
}

/// The links to the new pages.
pub open spec fn pair_mid(r: (u64, Option<u64>), c0: usize, c1: usize) -> Seq<Link> {
    match r.1 {
        None => seq![Link { pgno: r.0, count: c0 }],
        Some(s) => seq![Link { pgno: r.0, count: c0 }, Link { pgno: s, count: c1 }],
    }
}

/// What is given when two pages beneath a branch were written anew as
/// `plan_pair` says.
#[verifier::opaque]
pub open spec fn balance_pre(
    a: Pager,
    b: Pager,
    ma: Pages,
    mb: Pages,
    p: u64,
    h: nat,
    n: nat,
    cap: nat,
    ls: Seq<Link>,
    x: int,
    r: (u64, Option<u64>),
    oldest: Option<u64>,
    left_takes: bool,
    c0: usize,
    c1: usize,
) -> bool {
    let pl = page(ma, ls[x].pgno);
    let pr = page(ma, ls[x + 1].pgno);
    let at = cut_at(pl, pr, left_takes, cap);
    let t = (items(pl) + items(pr)) as int;
    let left = part(glue(pl, pr), 0, at);
    let right = if t <= cap {
        None
    } else {
        Some(part(glue(pl, pr), at, t))
    };
    &&& pair_pre(a, b, ma, mb, p, h, n, cap, ls, x, left, right, r, oldest)
    &&& cap % 2 == 0
    &&& t > cap ==> if left_takes {
        !rich(pl, cap)
    } else {
        !rich(pr, cap)
    }
    &&& c0 == mass(left)
    &&& right matches Some(rv) ==> c1 == mass(rv)
    &&& ls.len() >= 3 || t > cap
}

/// The sizes of the new pages: each is at least half full and not more
/// than full, and the page that took an item has one to spare.
pub proof fn lemma_balance_sizes(m: Pages, p: u64, h: nat, n: nat, cap: nat, ls: Seq<Link>, x: int, left_takes: bool)
    requires
        sub_ok(m, p, h, n, cap),
        h > 0,
        4 <= cap,
        cap % 2 == 0,
        page(m, p) == PageView::Branch(ls),
        0 <= x,
        x + 1 < ls.len(),
        items(page(m, ls[x].pgno)) + items(page(m, ls[x + 1].pgno)) > cap ==> if left_takes {
            !rich(page(m, ls[x].pgno), cap)
        } else {
            !rich(page(m, ls[x + 1].pgno), cap)
        },
    ensures
        ({
            let pl = page(m, ls[x].pgno);
            let pr = page(m, ls[x + 1].pgno);
            let at = cut_at(pl, pr, left_takes, cap);
            let t = (items(pl) + items(pr)) as int;
            &&& 0 < at <= t
            &&& at <= cap
            &&& 2 * at >= cap
            &&& t == items(glue(pl, pr))
            &&& pl is Leaf && pr is Leaf && h == 1 || pl is Branch && pr is Branch && h > 1
            &&& t > cap ==> at < t && t - at <= cap && 2 * (t - at) >= cap && (if left_takes {
                at == items(pl) + 1 && 2 * (at - 1) >= cap
            } else {
                at == items(pl) - 1 && 2 * (t - at - 1) >= cap
            })
            &&& t <= cap ==> at == t && 2 * (t - 1) >= cap
            &&& sub_ok(m, ls[x].pgno, (h - 1) as nat, ls[x].count as nat, cap)
            &&& sub_ok(m, ls[x + 1].pgno, (h - 1) as nat, ls[x + 1].count as nat, cap)
            &&& mass(pl) == ls[x].count
            &&& mass(pr) == ls[x + 1].count
            &&& items(pl) <= cap
            &&& items(pr) <= cap
        }),
{
    let l = ls[x];
    let r = ls[x + 1];
    assert(sub_ok(m, l.pgno, (h - 1) as nat, l.count as nat, cap));
    assert(sub_ok(m, r.pgno, (h - 1) as nat, r.count as nat, cap));
    assert(half_full(page(m, l.pgno), cap));
    assert(half_full(page(m, r.pgno), cap));
}

/// After two pages beneath a branch were written anew, the links to the
/// new pages can take the place of the links to the old: what is required of
/// a changed region holds, and the new pages hold what the old held.
pub proof fn lemma_balanced(
    a: Pager,
    b: Pager,
    ma: Pages,
    mb: Pages,
    p: u64,
    h: nat,
    n: nat,
    cap: nat,
    ls: Seq<Link>,
    x: int,
    r: (u64, Option<u64>),
    oldest: Option<u64>,
    left_takes: bool,
    c0: usize,
    c1: usize,
)
    requires
        balance_pre(a, b, ma, mb, p, h, n, cap, ls, x, r, oldest, left_takes, c0, c1),
    ensures
        region_pre(a, b, ma, mb, p, h, n, cap, ls, x, 2, pair_mid(r, c0, c1), oldest),
        flat(below(mb, pair_mid(r, c0, c1), (h - 1) as nat)) == sub_view(
            ma,
            ls[x].pgno,
            (h - 1) as nat,
        ) + sub_view(ma, ls[x + 1].pgno, (h - 1) as nat),
        total(pair_mid(r, c0, c1)) == ls[x].count + ls[x + 1].count,
        r.1 is None ==> rich(page(mb, r.0), cap) && pair_mid(r, c0, c1).len() == 1,
        r.1 matches Some(s) ==> pair_mid(r, c0, c1).len() == 2 && (if left_takes {
            rich(page(mb, r.0), cap) && c0 >= ls[x].count
        } else {
            rich(page(mb, s), cap) && c0 <= ls[x].count
        }),
{
    reveal(balance_pre);
    let k = (h - 1) as nat;
    let pl = page(ma, ls[x].pgno);
    let pr = page(ma, ls[x + 1].pgno);
    let at = cut_at(pl, pr, left_takes, cap);
    let t = (items(pl) + items(pr)) as int;
    let all = glue(pl, pr);
    let left = part(all, 0, at);
    let right = if t <= cap {
        None
    } else {
        Some(part(all, at, t))
    };
    let mid = pair_mid(r, c0, c1);
    lemma_balance_sizes(ma, p, h, n, cap, ls, x, left_takes);
    lemma_balance_within(a, b, ma, mb, p, h, n, cap, ls, x, left, right, r, oldest);
    assert(page(mb, r.0) == left && (r.1 matches Some(s) ==> Some(page(mb, s)) == right) && (r.1 is None
        <==> right is None)) by {
        reveal(joined);
    }
    lemma_pair_child(a, b, ma, mb, p, h, n, cap, ls, x, left, right, r, oldest, r.0, 0, at);
    lemma_spread(ma, pl, pr, k, at, ls[x], ls[x + 1], p, h, n, cap, ls, x);
    assert(mid[0] == Link { pgno: r.0, count: c0 });
    match r.1 {
        None => {
            assert(mid =~= seq![mid[0]]);
            assert(below(mb, mid, k) =~= seq![sub_view(mb, r.0, k)]);
            lemma_flat_one(sub_view(mb, r.0, k));
            lemma_total_split(mid, 0);
            assert(mid.take(0) =~= Seq::<Link>::empty());
            assert(mid.skip(1) =~= Seq::<Link>::empty());
        },
        Some(s) => {
            lemma_pair_child(a, b, ma, mb, p, h, n, cap, ls, x, left, right, r, oldest, s, at, t);
            assert(mid[1] == Link { pgno: s, count: c1 });
            assert(mid =~= seq![mid[0]] + seq![mid[1]]);
            lemma_below_add(mb, seq![mid[0]], seq![mid[1]], k);
            assert(below(mb, seq![mid[0]], k) =~= seq![sub_view(mb, r.0, k)]);
            assert(below(mb, seq![mid[1]], k) =~= seq![sub_view(mb, s, k)]);
            lemma_flat_one(sub_view(mb, r.0, k));
            lemma_flat_one(sub_view(mb, s, k));
            lemma_total_add(seq![mid[0]], seq![mid[1]]);
            lemma_total_split(seq![mid[0]], 0);
            lemma_total_split(seq![mid[1]], 0);
            assert(seq![mid[0]].take(0) =~= Seq::<Link>::empty());
            assert(seq![mid[0]].skip(1) =~= Seq::<Link>::empty());
            assert(seq![mid[1]].take(0) =~= Seq::<Link>::empty());
            assert(seq![mid[1]].skip(1) =~= Seq::<Link>::empty());
            lemma_pair_apart(a, b, ma, mb, p, h, n, cap, ls, x, left, right, r, oldest, at, t);
        },
    }
}

/// What two pages hold together is what the parts of their items hold.
pub proof fn lemma_spread(
    m: Pages,
    pl: PageView,
    pr: PageView,
    k: nat,
    at: int,
    l: Link,
    r: Link,
    p: u64,
    h: nat,
    n: nat,
    cap: nat,
    ls: Seq<Link>,
    x: int,
)
    requires
        sub_ok(m, p, h, n, cap),
        h > 0,
        k == h - 1,
        page(m, p) == PageView::Branch(ls),
        0 <= x,
        x + 1 < ls.len(),
        l == ls[x],
        r == ls[x + 1],
        pl == page(m, l.pgno),
        pr == page(m, r.pgno),
        0 <= at <= items(pl) + items(pr),
    ensures
        spread(m, part(glue(pl, pr), 0, at), k) + spread(
            m,
            part(glue(pl, pr), at, (items(pl) + items(pr)) as int),
            k,
        ) == sub_view(m, l.pgno, k) + sub_view(m, r.pgno, k),
        mass(part(glue(pl, pr), 0, at)) + mass(
            part(glue(pl, pr), at, (items(pl) + items(pr)) as int),
        ) == l.count + r.count,
        at == items(pl) + items(pr) ==> spread(m, part(glue(pl, pr), 0, at), k) == sub_view(
            m,
            l.pgno,
            k,
        ) + sub_view(m, r.pgno, k) && mass(part(glue(pl, pr), 0, at)) == l.count + r.count,
        at >= items(pl) ==> mass(part(glue(pl, pr), 0, at)) >= l.count,
        at <= items(pl) ==> mass(part(glue(pl, pr), 0, at)) <= l.count,
{
    assert(sub_ok(m, l.pgno, k, l.count as nat, cap));
    assert(sub_ok(m, r.pgno, k, r.count as nat, cap));
    let t = (items(pl) + items(pr)) as int;
    match (pl, pr) {
        (PageView::Leaf(u), PageView::Leaf(v)) => {
            let all = u + v;
            assert(all.subrange(0, at) + all.subrange(at, t) =~= all);
            assert(all.subrange(0, t) =~= all);
        },
        (PageView::Branch(u), PageView::Branch(v)) => {
            let all = u + v;
            let g = (k - 1) as nat;
            assert(all =~= all.subrange(0, at) + all.subrange(at, t));
            assert(all.subrange(0, t) =~= all);
            lemma_below_add(m, all.subrange(0, at), all.subrange(at, t), g);
            lemma_below_add(m, u, v, g);
            lemma_total_add(all.subrange(0, at), all.subrange(at, t));
            lemma_total_add(u, v);
            if at >= u.len() {
                assert(all.subrange(0, at) =~= u + v.subrange(0, at - u.len()));
                lemma_total_add(u, v.subrange(0, at - u.len()));
            }
            if at <= u.len() {
                assert(u =~= all.subrange(0, at) + u.subrange(at, u.len() as int));
                lemma_total_add(all.subrange(0, at), u.subrange(at, u.len() as int));
            }
        },
        _ => {},
    }
}

/// What has changed when two pages beneath a branch were written anew lies
/// within the trees beneath the two.
pub proof fn lemma_balance_within(
    a: Pager,
    b: Pager,
    ma: Pages,
    mb: Pages,
    p: u64,
    h: nat,
    n: nat,
    cap: nat,
    ls: Seq<Link>,
    x: int,
    left: PageView,
    right: Option<PageView>,
    r: (u64, Option<u64>),
    oldest: Option<u64>,
)
    requires
        pair_pre(a, b, ma, mb, p, h, n, cap, ls, x, left, right, r, oldest),
    ensures
        within(a, b, ma, mb, ls, x, 2, (h - 1) as nat, oldest),
{
    reveal(within);
    reveal(joined);
    let k = (h - 1) as nat;
    let reg = ls.subrange(x, x + 2);
    assert(reg[0] == ls[x] && reg[1] == ls[x + 1]);
    assert(sub_has(ma, ls[x].pgno, k, ls[x].pgno));
    assert(sub_has(ma, ls[x + 1].pgno, k, ls[x + 1].pgno));
    assert(links_have(ma, reg, k, ls[x].pgno)) by {
        assert(sub_has(ma, reg[0].pgno, k, ls[x].pgno));
    }
    assert(links_have(ma, reg, k, ls[x + 1].pgno)) by {
        assert(sub_has(ma, reg[1].pgno, k, ls[x + 1].pgno));
    }
    assert forall|q: u64| !links_have(ma, reg, k, q) && !b.took(a, q) implies #[trigger] page(mb, q)
        == page(ma, q) by {}
}

/// The two new pages share no page.
pub proof fn lemma_pair_apart(
    a: Pager,
    b: Pager,
    ma: Pages,
    mb: Pages,
    p: u64,
    h: nat,
    n: nat,
    cap: nat,
    ls: Seq<Link>,
    x: int,
    left: PageView,
    right: Option<PageView>,
    r: (u64, Option<u64>),
    oldest: Option<u64>,
    at: int,
    t: int,
)
    requires
        pair_pre(a, b, ma, mb, p, h, n, cap, ls, x, left, right, r, oldest),
        r.1 is Some,
        0 < at < t,
        t == items(glue(page(ma, ls[x].pgno), page(ma, ls[x + 1].pgno))),
        page(mb, r.0) == part(glue(page(ma, ls[x].pgno), page(ma, ls[x + 1].pgno)), 0, at),
        page(mb, r.1->0) == part(glue(page(ma, ls[x].pgno), page(ma, ls[x + 1].pgno)), at, t),
        forall|q: u64| #[trigger]
            sub_has(mb, r.0, (h - 1) as nat, q) ==> q == r.0 || (h > 1 && links_have(
                ma,
                links_of(page(mb, r.0)),
                (h - 2) as nat,
                q,
            )),
        forall|q: u64| #[trigger]
            sub_has(mb, r.1->0, (h - 1) as nat, q) ==> q == r.1->0 || (h > 1 && links_have(
                ma,
                links_of(page(mb, r.1->0)),
                (h - 2) as nat,
                q,
            )),
    ensures
        apart(mb, r.0, r.1->0, (h - 1) as nat),
{
    reveal(joined);
    reveal(live);
    let k = (h - 1) as nat;
    let s = r.1->0;
    if h > 1 {
        let g = (h - 2) as nat;
        lemma_grand(ma, p, h, n, cap, ls, x);
        let all = page(ma, ls[x].pgno)->Branch_0 + page(ma, ls[x + 1].pgno)->Branch_0;
        lemma_fit_part(ma, all, g, cap, at);
        assert(all.take(at) =~= all.subrange(0, at));
        assert(all.skip(at) =~= all.subrange(at, t));
        assert forall|q: u64| #[trigger] links_have(ma, all, g, q) implies q != r.0 && q != s by {
            assert(sub_has(ma, ls[x].pgno, k, q) || sub_has(ma, ls[x + 1].pgno, k, q));
            if sub_has(ma, ls[x].pgno, k, q) {
                lemma_has_up(ma, p, h, ls, x, q);
            } else {
                lemma_has_up(ma, p, h, ls, x + 1, q);
            }
            if b.took(a, q) {
                lemma_took_unused(a, b, oldest, ma, p, h, q);
            }
        }
    }
    assert forall|q: u64| #[trigger] sub_has(mb, r.0, k, q) implies !sub_has(mb, s, k, q) by {
        if sub_has(mb, s, k, q) {
            if q == r.0 {
                assert(links_have(ma, links_of(page(mb, s)), (h - 2) as nat, q));
            } else if q == s {
                assert(links_have(ma, links_of(page(mb, r.0)), (h - 2) as nat, q));
            }
        }
    }
}

/// The page numbers of links.
pub open spec fn pair_of(r: (Link, Option<Link>)) -> (u64, Option<u64>) {
    (
        r.0.pgno,
        match r.1 {
            Some(s) => Some(s.pgno),
            None => None,
        },
    )
}

/// The number of entries that the second link says; none without one.
pub open spec fn second_count(r: (Link, Option<Link>)) -> usize {
    match r.1 {
        Some(s) => s.count,
        None => 0,
    }
}

/// What `balance` has done: the two pages were written anew as `plan_pair`
/// says, and the links say how many entries stand on or beneath the new
/// pages.
#[verifier::opaque]
pub open spec fn balanced(
    a: Pager,
    b: Pager,
    ma: Pages,
    mb: Pages,
    l: Link,
    r: Link,
    left_takes: bool,
    cap: nat,
    res: (Link, Option<Link>),
) -> bool {
    let pl = page(ma, l.pgno);
    let pr = page(ma, r.pgno);
    let at = cut_at(pl, pr, left_takes, cap);
    let t = (items(pl) + items(pr)) as int;
    &&& joined(
        a,
        b,
        ma,
        mb,
        l.pgno,
        r.pgno,
        part(glue(pl, pr), 0, at),
        if t <= cap {
            None
        } else {
            Some(part(glue(pl, pr), at, t))
        },
        pair_of(res),
    )
    &&& res.0.count == mass(part(glue(pl, pr), 0, at))
    &&& res.1 is None <==> t <= cap
    &&& res.1 matches Some(s) ==> s.count == mass(part(glue(pl, pr), at, t))
}

/// What `balance` has done beneath a branch is what is given to the lemmas
/// on a pair of pages.
pub proof fn lemma_balance_pre(
    a: Pager,
    b: Pager,
    ma: Pages,
    mb: Pages,
    p: u64,
    h: nat,
    n: nat,
    cap: nat,
    ls: Seq<Link>,
    x: int,
    res: (Link, Option<Link>),
    oldest: Option<u64>,
    left_takes: bool,
)
    requires
        a.wf(),
        b.wf(),
        b.grown(a, oldest),
        4 <= cap,
        cap % 2 == 0,
        sub_ok(ma, p, h, n, cap),
        h > 0,
        page(ma, p) == PageView::Branch(ls),
        live(a, ma, p, h),
        0 <= x,
        x + 1 < ls.len(),
        balanced(a, b, ma, mb, ls[x], ls[x + 1], left_takes, cap, res),
        if left_takes {
            !rich(page(ma, ls[x].pgno), cap)
        } else {
            !rich(page(ma, ls[x + 1].pgno), cap)
        },
        ls.len() >= 3 || items(page(ma, ls[x].pgno)) + items(page(ma, ls[x + 1].pgno)) > cap,
    ensures
        balance_pre(
            a,
            b,
            ma,
            mb,
            p,
            h,
            n,
            cap,
            ls,
            x,
            pair_of(res),
            oldest,
            left_takes,
            res.0.count,
            second_count(res),
        ),
{
    reveal(balanced);
    reveal(balance_pre);
}

/// A page of a tree that is in order has at least one item and not more
/// than it can hold, and is one of the pages at hand.
pub proof fn lemma_items(m: Pages, p: u64, h: nat, n: nat, cap: nat)
    requires
        sub_ok(m, p, h, n, cap),
    ensures
        1 <= items(page(m, p)) <= cap,
        m.contains_key(p),
        h == 0 ==> items(page(m, p)) == n,
{
}

/// Fills up one of two pages that stand side by side from the other: the
/// two are joined into one page if their items fit on one, else the page
/// that takes gets one item of the other.
pub fn balance(
    pg: &mut Pager,
    arena: &Vec<Page>,
    l: Link,
    r: Link,
    left_takes: bool,
    cap: usize,
    oldest: Option<u64>,
) -> (res: (Link, Option<Link>))
    requires
        old(pg).wf(),
        old(pg).map(arena@).contains_key(l.pgno),
        old(pg).map(arena@).contains_key(r.pgno),
        page(old(pg).map(arena@), l.pgno) is Leaf && page(old(pg).map(arena@), r.pgno) is Leaf
            || page(old(pg).map(arena@), l.pgno) is Branch && page(old(pg).map(arena@), r.pgno)
            is Branch,
        items(page(old(pg).map(arena@), l.pgno)) >= 2,
        items(page(old(pg).map(arena@), r.pgno)) >= 2,
        mass(page(old(pg).map(arena@), l.pgno)) + mass(page(old(pg).map(arena@), r.pgno))
            <= usize::MAX,
        items(page(old(pg).map(arena@), l.pgno)) + items(page(old(pg).map(arena@), r.pgno))
            <= usize::MAX,
        l.pgno != r.pgno,
        !old(pg).freed@.contains(l.pgno),
        l.pgno < old(pg).space@.next,
        !old(pg).space@.lists(l.pgno),
        !old(pg).freed@.contains(r.pgno),
        r.pgno < old(pg).space@.next,
        !old(pg).space@.lists(r.pgno),
        can_take(old(pg).space@, oldest, 2),
    ensures
        final(pg).wf(),
        final(pg).grown(*old(pg), oldest),
        spent(*old(pg), *final(pg), oldest, 2),
        balanced(
            *old(pg),
            *final(pg),
            old(pg).map(arena@),
            final(pg).map(arena@),
            l,
            r,
            left_takes,
            cap as nat,
            res,
        ),
        left_behind(*final(pg), l.pgno, r.pgno, pair_of(res)),
{
    proof {
        reveal(balanced);
    }
    let (left, right, c0, c1) = plan_pair(
        pg.read(arena, l.pgno),
        pg.read(arena, r.pgno),
        left_takes,
        cap,
    );
    let (x, y) = put_pair(pg, l.pgno, r.pgno, left, right, oldest, Ghost(arena@));
    match y {
        Some(y) => (Link { pgno: x, count: c0 }, Some(Link { pgno: y, count: c1 })),
        None => (Link { pgno: x, count: c0 }, None),
    }
}

/// Puts the links that came of two links' trees in the place of the two,
/// and writes the branch.
pub fn ascend_pair(
    pg: &mut Pager,
    p: u64,
    ls: Vec<Link>,
    x: usize,
    r0: (Link, Option<Link>),
    cap: usize,
    oldest: Option<u64>,
    Ghost(arena): Ghost<Seq<Page>>,
) -> (r: Link)
    requires
        old(pg).wf(),
        x + 1 < ls@.len(),
        ls@.len() <= cap,
        4 <= cap < usize::MAX,
        !old(pg).freed@.contains(p),
        p < old(pg).space@.next,
        !old(pg).space@.lists(p),
        can_take(old(pg).space@, oldest, 2),
        2 <= relinked(ls@, x as int, 2, mid_of(r0)).len(),
        total(relinked(ls@, x as int, 2, mid_of(r0))) <= usize::MAX,
    ensures
        final(pg).wf(),
        final(pg).grown(*old(pg), oldest),
        spent(*old(pg), *final(pg), oldest, 2),
        wrote(
            *old(pg),
            *final(pg),
            old(pg).map(arena),
            final(pg).map(arena),
            p,
            relinked(ls@, x as int, 2, mid_of(r0)),
            (r, None),
            cap as nat,
        ),
        r.count == total(relinked(ls@, x as int, 2, mid_of(r0))),
        page(final(pg).map(arena), r.pgno) == PageView::Branch(relinked(ls@, x as int, 2, mid_of(r0))),
{
    let ghost old_ls = ls@;
    let mut ls = ls;
    ls.remove(x);
    ls.remove(x);
    match r0.1 {
        Some(s) => {
            ls.insert(x, s);
        },
        None => {},
    }
    ls.insert(x, r0.0);
    assert(ls@ =~= relinked(old_ls, x as int, 2, mid_of(r0)));
    let r = finish(pg, p, ls, cap, oldest, Ghost(arena));
    proof {
        reveal(wrote);
    }
    r.0
}

/// Whether the page beneath which entry `i` of the branch `p` stands has an
/// item to spare.
pub open spec fn rich_at(m: Pages, p: u64, i: int, cap: nat) -> bool {
    exists|c: int|
        0 <= c < links_of(page(m, p)).len() && total(links_of(page(m, p)).take(c)) <= i < total(
            links_of(page(m, p)).take(c),
        ) + (#[trigger] links_of(page(m, p))[c]).count && rich(
            page(m, links_of(page(m, p))[c].pgno),
            cap,
        )
}

/// Whether the branch `p` has two links whose pages hold more items
/// together than one page can.
pub open spec fn roomy(m: Pages, p: u64, cap: nat) -> bool {
    let ls = links_of(page(m, p));
    ls.len() == 2 && items(page(m, ls[0].pgno)) + items(page(m, ls[1].pgno)) > cap
}

/// The sums of the numbers of the links ascend, so only one link stands
/// over an index.
pub proof fn lemma_locate_unique(ls: Seq<Link>, c: int, d: int, i: int)
    requires
        0 <= c < ls.len(),
        0 <= d < ls.len(),
        total(ls.take(c)) <= i < total(ls.take(c)) + ls[c].count,
        total(ls.take(d)) <= i < total(ls.take(d)) + ls[d].count,
    ensures
        c == d,
{
    if c < d {
        lemma_total_mono(ls, c + 1, d);
        lemma_total_split(ls, c);
    } else if d < c {
        lemma_total_mono(ls, d + 1, c);
        lemma_total_split(ls, d);
    }
}

/// The sum of the numbers of the first links grows with their number.
pub proof fn lemma_total_mono(ls: Seq<Link>, x: int, y: int)
    requires
        0 <= x <= y <= ls.len(),
    ensures
        total(ls.take(x)) <= total(ls.take(y)),
    decreases y - x,
{
    if x < y {
        lemma_total_mono(ls, x, y - 1);
        lemma_total_split(ls, y - 1);
    }
}

/// A change that changed nothing keeps and builds what was there.
pub proof fn lemma_same(a: Pager, ma: Pages, l: Link, h: nat, cap: nat, oldest: Option<u64>)
    requires
        a.wf(),
        sub_ok(ma, l.pgno, h, l.count as nat, cap),
        live(a, ma, l.pgno, h),
    ensures
        kept(a, a, ma, ma, l.pgno, h, oldest),
        spent(a, a, oldest, 0),
        built(a, a, ma, ma, l.pgno, h, sub_view(ma, l.pgno, h), (l, None), cap),
{
    reveal(kept);
    reveal(built);
    reveal(spent);
    reveal(live);
    assert(a.freed@.take(a.freed@.len() as int) =~= a.freed@);
    assert forall|k: nat| can_take(a.space@, oldest, k + 0) implies #[trigger] can_take(
        a.space@,
        oldest,
        k,
    ) by {}
}

/// A change of a tree and then a change of what was built are one change
/// of the tree.
pub proof fn lemma_chain(
    a: Pager,
    b: Pager,
    c: Pager,
    ma: Pages,
    mb: Pages,
    mc: Pages,
    p: u64,
    h: nat,
    v: Seq<EntryView>,
    r1: Link,
    w: Seq<EntryView>,
    r: (Link, Option<Link>),
    cap: nat,
    oldest: Option<u64>,
)
    requires
        a.wf(),
        live(a, ma, p, h),
        kept(a, b, ma, mb, p, h, oldest),
        built(a, b, ma, mb, p, h, v, (r1, None), cap),
        kept(b, c, mb, mc, r1.pgno, h, oldest),
        built(b, c, mb, mc, r1.pgno, h, w, r, cap),
    ensures
        kept(a, c, ma, mc, p, h, oldest),
        built(a, c, ma, mc, p, h, w, r, cap),
{
    reveal(kept);
    reveal(built);
    reveal(live);
    lemma_grown_trans(a, b, c, oldest);
    assert forall|q: u64| #[trigger] c.took(b, q) implies c.took(a, q) by {}
    assert forall|q: u64| #[trigger] b.took(a, q) implies c.took(a, q) by {}
    assert forall|q: u64| !sub_has(ma, p, h, q) && !c.took(a, q) implies #[trigger] page(mc, q)
        == page(ma, q) by {
        assert(!b.took(a, q));
        assert(!c.took(b, q));
        assert(page(mb, q) == page(ma, q));
        if sub_has(mb, r1.pgno, h, q) {
            assert(sub_has(ma, p, h, q) || b.took(a, q));
        }
    }
    assert forall|j: int| a.freed@.len() <= j < c.freed@.len() implies sub_has(
        ma,
        p,
        h,
        #[trigger] c.freed@[j],
    ) || c.took(a, c.freed@[j]) by {
        if j < b.freed@.len() {
            assert(c.freed@.take(b.freed@.len() as int)[j] == b.freed@[j]);
            if b.took(a, b.freed@[j]) {
                assert(c.took(a, b.freed@[j]));
            }
        } else {
            let q = c.freed@[j];
            if sub_has(mb, r1.pgno, h, q) {
                assert(sub_has(ma, p, h, q) || b.took(a, q));
            }
        }
    }
    assert forall|q: u64| #[trigger] sub_has(mc, r.0.pgno, h, q) implies sub_has(ma, p, h, q)
        || c.took(a, q) by {
        if sub_has(mb, r1.pgno, h, q) {
            assert(sub_has(ma, p, h, q) || b.took(a, q));
        }
    }
    match r.1 {
        Some(s) => {
            assert forall|q: u64| #[trigger] sub_has(mc, s.pgno, h, q) implies sub_has(ma, p, h, q)
                || c.took(a, q) by {
                if sub_has(mb, r1.pgno, h, q) {
                    assert(sub_has(ma, p, h, q) || b.took(a, q));
                }
            }
        },
        None => {},
    }
}

/// What a branch holds: what stands before two of its links, what stands
/// beneath the two, and what stands after them.
pub proof fn lemma_two_index(m: Pages, ls: Seq<Link>, k: nat, cap: nat, x: int)
    requires
        links_ok(m, ls, k, cap),
        0 <= x,
        x + 1 < ls.len(),
    ensures
        flat(below(m, ls, k)) == flat(below(m, ls.take(x), k)) + (sub_view(m, ls[x].pgno, k)
            + sub_view(m, ls[x + 1].pgno, k)) + flat(below(m, ls.skip(x + 2), k)),
        total(ls) == total(ls.take(x)) + (ls[x].count + ls[x + 1].count) + total(ls.skip(x + 2)),
        total(ls.take(x + 1)) == total(ls.take(x)) + ls[x].count,
{
    lemma_child_index(m, ls, k, cap, x);
    let rest = ls.skip(x + 1);
    assert(links_ok(m, rest, k, cap)) by {
        assert forall|i: int| 0 <= i < rest.len() implies sub_ok(
            m,
            (#[trigger] rest[i]).pgno,
            k,
            rest[i].count as nat,
            cap,
        ) by {
            assert(rest[i] == ls[i + x + 1]);
        }
    }
    lemma_child_index(m, rest, k, cap, 0);
    assert(rest.take(0) =~= Seq::<Link>::empty());
    assert(below(m, rest.take(0), k) =~= Seq::<Seq<EntryView>>::empty());
    assert(rest.skip(1) =~= ls.skip(x + 2));
    assert(rest[0] == ls[x + 1]);
    let a = flat(below(m, ls.take(x), k));
    let u = sub_view(m, ls[x].pgno, k);
    let v = sub_view(m, ls[x + 1].pgno, k);
    let z = flat(below(m, ls.skip(x + 2), k));
    assert(flat(below(m, rest, k)) =~= v + z);
    assert(a + u + (v + z) =~= a + (u + v) + z);
    lemma_total_split(ls, x);
}

/// What filling up a page beneath a branch and writing the branch has
/// kept and built: the branch holds what it held.
pub proof fn lemma_prepped(
    a: Pager,
    b: Pager,
    c: Pager,
    ma: Pages,
    mb: Pages,
    mc: Pages,
    p: u64,
    h: nat,
    n: nat,
    cap: nat,
    ls: Seq<Link>,
    x: int,
    r0: (Link, Option<Link>),
    r: Link,
    oldest: Option<u64>,
    left_takes: bool,
)
    requires
        balance_pre(
            a,
            b,
            ma,
            mb,
            p,
            h,
            n,
            cap,
            ls,
            x,
            pair_of(r0),
            oldest,
            left_takes,
            r0.0.count,
            second_count(r0),
        ),
        c.wf(),
        c.grown(b, oldest),
        wrote(b, c, mb, mc, p, relinked(ls, x, 2, mid_of(r0)), (r, None), cap),
        r.count == total(relinked(ls, x, 2, mid_of(r0))),
    ensures
        kept(a, c, ma, mc, p, h, oldest),
        built(a, c, ma, mc, p, h, sub_view(ma, p, h), (r, None), cap),
        r.count == n,
        mid_of(r0) == pair_mid(pair_of(r0), r0.0.count, second_count(r0)),
        ready(a, b, ma, mb, p, h, cap, relinked(ls, x, 2, mid_of(r0))),
{
    reveal(balance_pre);
    let k = (h - 1) as nat;
    let mid = pair_mid(pair_of(r0), r0.0.count, second_count(r0));
    assert(mid_of(r0) =~= mid);
    lemma_balanced(
        a,
        b,
        ma,
        mb,
        p,
        h,
        n,
        cap,
        ls,
        x,
        pair_of(r0),
        oldest,
        left_takes,
        r0.0.count,
        second_count(r0),
    );
    lemma_region(a, b, ma, mb, p, h, n, cap, ls, x, 2, mid, oldest);
    assert(links_ok(ma, ls, k, cap));
    lemma_two_index(ma, ls, k, cap, x);
    assert(sub_has(ma, p, h, p));
    lemma_finished(a, b, c, ma, mb, mc, p, h, cap, relinked(ls, x, 2, mid), (r, None), oldest);
}

/// After a page beneath a branch was filled up and the branch written, the
/// page beneath which the index stands has an item to spare.
pub proof fn lemma_prepped_rich(
    a: Pager,
    b: Pager,
    c: Pager,
    ma: Pages,
    mb: Pages,
    mc: Pages,
    p: u64,
    h: nat,
    n: nat,
    cap: nat,
    ls: Seq<Link>,
    x: int,
    r0: (Link, Option<Link>),
    r: Link,
    oldest: Option<u64>,
    left_takes: bool,
    i: int,
)
    requires
        balance_pre(
            a,
            b,
            ma,
            mb,
            p,
            h,
            n,
            cap,
            ls,
            x,
            pair_of(r0),
            oldest,
            left_takes,
            r0.0.count,
            second_count(r0),
        ),
        c.grown(b, oldest),
        ready(a, b, ma, mb, p, h, cap, relinked(ls, x, 2, mid_of(r0))),
        wrote(b, c, mb, mc, p, relinked(ls, x, 2, mid_of(r0)), (r, None), cap),
        if left_takes {
            total(ls.take(x)) <= i < total(ls.take(x)) + ls[x].count
        } else {
            total(ls.take(x + 1)) <= i < total(ls.take(x + 1)) + ls[x + 1].count
        },
    ensures
        rich_at(mc, r.pgno, i, cap),
        items(page(mc, r.pgno)) + 1 >= items(page(ma, p)),
        page(mc, r.pgno) is Branch,
{
    reveal(balance_pre);
    reveal(wrote);
    reveal(ready);
    let k = (h - 1) as nat;
    let mid = pair_mid(pair_of(r0), r0.0.count, second_count(r0));
    assert(mid_of(r0) =~= mid);
    let l2 = relinked(ls, x, 2, mid);
    lemma_balanced(
        a,
        b,
        ma,
        mb,
        p,
        h,
        n,
        cap,
        ls,
        x,
        pair_of(r0),
        oldest,
        left_takes,
        r0.0.count,
        second_count(r0),
    );
    assert(links_ok(ma, ls, k, cap));
    lemma_two_index(ma, ls, k, cap, x);
    assert(page(mc, r.pgno) == PageView::Branch(l2));
    assert(l2.take(x) =~= ls.take(x));
    let c2 = if r0.1 is None || left_takes { x } else { x + 1 };
    assert(l2[x] == mid[0]);
    if r0.1 is Some {
        assert(l2[x + 1] == mid[1]);
        lemma_total_split(l2, x);
        lemma_total_split(mid, 0);
        lemma_total_split(mid, 1);
        assert(mid.take(0) =~= Seq::<Link>::empty());
        assert(mid.skip(2) =~= Seq::<Link>::empty());
        assert(mid.take(1) =~= seq![mid[0]]);
        assert(mid.skip(1) =~= seq![mid[1]]);
        lemma_total_split(seq![mid[0]], 0);
        lemma_total_split(seq![mid[1]], 0);
        assert(seq![mid[0]].take(0) =~= Seq::<Link>::empty());
        assert(seq![mid[0]].skip(1) =~= Seq::<Link>::empty());
        assert(seq![mid[1]].take(0) =~= Seq::<Link>::empty());
        assert(seq![mid[1]].skip(1) =~= Seq::<Link>::empty());
    } else {
        lemma_total_split(mid, 0);
        assert(mid.take(0) =~= Seq::<Link>::empty());
        assert(mid.skip(1) =~= Seq::<Link>::empty());
    }
    // The page beneath the link is as it was when it was written.
    let q = l2[c2].pgno;
    assert(sub_has(mb, l2[c2].pgno, k, q));
    assert(links_have(mb, l2, k, q));
    assert(q != r.pgno) by {
        if q == r.pgno {
            if r.pgno != p {
                assert(c.took(b, q));
                if q >= b.space@.next {
                } else {
                    let y = choose|y: u64|
                        reclaimable(y, oldest) && #[trigger] b.space@.lists_under(q, y);
                    lemma_lists(b.space@, q, y);
                }
            }
        }
    }
    assert(page(mc, q) == page(mb, q));
    assert(links_of(page(mc, r.pgno)) == l2);
    assert(total(l2.take(c2)) <= i < total(l2.take(c2)) + l2[c2].count && rich(page(mc, l2[c2].pgno), cap));
}

/// Makes sure that the page beneath which entry `i` of the branch `p`
/// stands has an item to spare, by filling it up from the page beside it if
/// it has none. Returns the link to the branch as it is written afterwards.
pub fn prep(
    pg: &mut Pager,
    arena: &Vec<Page>,
    p: u64,
    h: usize,
    i: usize,
    count: usize,
    cap: usize,
    oldest: Option<u64>,
) -> (r: Link)
    requires
        old(pg).wf(),
        h > 0,
        sub_ok(old(pg).map(arena@), p, h as nat, count as nat, cap as nat),
        live(*old(pg), old(pg).map(arena@), p, h as nat),
        i < count,
        4 <= cap,
        2 * cap <= usize::MAX,
        cap % 2 == 0,
        can_take(old(pg).space@, oldest, 4),
        items(page(old(pg).map(arena@), p)) >= 3 || rich_at(old(pg).map(arena@), p, i as int, cap as nat)
            || roomy(old(pg).map(arena@), p, cap as nat),
    ensures
        kept(*old(pg), *final(pg), old(pg).map(arena@), final(pg).map(arena@), p, h as nat, oldest),
        spent(*old(pg), *final(pg), oldest, 4),
        built(
            *old(pg),
            *final(pg),
            old(pg).map(arena@),
            final(pg).map(arena@),
            p,
            h as nat,
            sub_view(old(pg).map(arena@), p, h as nat),
            (r, None),
            cap as nat,
        ),
        r.count == count,
        rich_at(final(pg).map(arena@), r.pgno, i as int, cap as nat),
        items(page(final(pg).map(arena@), r.pgno)) + 1 >= items(page(old(pg).map(arena@), p)),
        page(final(pg).map(arena@), r.pgno) is Branch,
        whole(*old(pg), *final(pg), old(pg).map(arena@), final(pg).map(arena@), p, h as nat, (r, None)),
{
    let ghost a = *pg;
    let ghost ma = pg.map(arena@);
    let (ls, c, off) = descend(pg, arena, p, i, false, Ghost(h as nat), Ghost(count as nat), Ghost(cap as nat));
    proof {
        lemma_items(ma, ls@[c as int].pgno, (h - 1) as nat, ls@[c as int].count as nat, cap as nat);
        assert(links_of(page(ma, p)) == ls@);
    }
    let ci = count_items(pg.read(arena, ls[c].pgno));
    if ci - 1 >= cap / 2 {
        proof {
            lemma_same(a, ma, Link { pgno: p, count }, h as nat, cap as nat, oldest);
            lemma_spent_less(a, a, oldest, 0, 4);
            crate::grow::lemma_whole_same(a, ma, p, h as nat, Link { pgno: p, count });
        }
        return Link { pgno: p, count };
    }
    proof {
        if rich_at(ma, p, i as int, cap as nat) {
            let d = choose|d: int|
                0 <= d < ls@.len() && total(ls@.take(d)) <= i < total(ls@.take(d)) + (
                #[trigger] ls@[d]).count && rich(page(ma, ls@[d].pgno), cap as nat);
            lemma_locate_unique(ls@, c as int, d, i as int);
        }
    }
    fill(pg, arena, p, h, i, count, ls, c, cap, oldest)
}

/// Taking at most `x` pages is taking at most `y`, where `y` is not less.
pub proof fn lemma_spent_less(a: Pager, b: Pager, oldest: Option<u64>, x: nat, y: nat)
    requires
        spent(a, b, oldest, x),
        x <= y,
    ensures
        spent(a, b, oldest, y),
{
    reveal(spent);
    assert forall|k: nat| can_take(a.space@, oldest, k + y) implies #[trigger] can_take(
        b.space@,
        oldest,
        k,
    ) by {
        lemma_can_take_less(a.space@, oldest, k + y, k + x);
    }
}

/// A page that stood beneath one of two branches that were written anew
/// stands beneath one of the new pages.
proof fn lemma_pair_below(
    a: Pager,
    b: Pager,
    ma: Pages,
    mb: Pages,
    p: u64,
    h: nat,
    n: nat,
    cap: nat,
    ls: Seq<Link>,
    x: int,
    left: PageView,
    right: Option<PageView>,
    r: (u64, Option<u64>),
    oldest: Option<u64>,
    at: int,
    q: u64,
)
    requires
        pair_pre(a, b, ma, mb, p, h, n, cap, ls, x, left, right, r, oldest),
        h > 1,
        0 < at <= items(glue(page(ma, ls[x].pgno), page(ma, ls[x + 1].pgno))),
        left == part(glue(page(ma, ls[x].pgno), page(ma, ls[x + 1].pgno)), 0, at),
        right == (if at == items(glue(page(ma, ls[x].pgno), page(ma, ls[x + 1].pgno))) {
            None
        } else {
            Some(
                part(
                    glue(page(ma, ls[x].pgno), page(ma, ls[x + 1].pgno)),
                    at,
                    items(glue(page(ma, ls[x].pgno), page(ma, ls[x + 1].pgno))) as int,
                ),
            )
        }),
        sub_has(ma, ls[x].pgno, (h - 1) as nat, q) || sub_has(ma, ls[x + 1].pgno, (h - 1) as nat, q),
        q != ls[x].pgno,
        q != ls[x + 1].pgno,
    ensures
        sub_has(mb, r.0, (h - 1) as nat, q) || (r.1 matches Some(s) && sub_has(mb, s, (h - 1) as nat, q)),
{
    reveal(joined);
    reveal(live);
    let k = (h - 1) as nat;
    let g = (h - 2) as nat;
    let lp = ls[x].pgno;
    let rp = ls[x + 1].pgno;
    lemma_grand(ma, p, h, n, cap, ls, x);
    let ll = page(ma, lp)->Branch_0;
    let rl = page(ma, rp)->Branch_0;
    let gl = ll + rl;
    let t = gl.len() as int;
    // The link beneath which the page stands.
    let i = if sub_has(ma, lp, k, q) {
        let i0 = choose|i: int| 0 <= i < ll.len() && sub_has(ma, (#[trigger] ll[i]).pgno, g, q);
        assert(gl[i0] == ll[i0]);
        i0
    } else {
        let i0 = choose|i: int| 0 <= i < rl.len() && sub_has(ma, (#[trigger] rl[i]).pgno, g, q);
        assert(gl[i0 + ll.len()] == rl[i0]);
        i0 + ll.len()
    };
    assert(sub_has(ma, gl[i].pgno, g, q));
    // The trees beneath the links are as they were.
    assert forall|y: u64| #[trigger] links_have(ma, gl, g, y) implies page(mb, y) == page(ma, y) by {
        assert(y != lp && y != rp);
        if sub_has(ma, lp, k, y) {
            lemma_has_up(ma, p, h, ls, x, y);
        } else {
            lemma_has_up(ma, p, h, ls, x + 1, y);
        }
        if b.took(a, y) {
            lemma_took_unused(a, b, oldest, ma, p, h, y);
        }
    }
    lemma_links_frame(ma, mb, gl, g, cap);
    assert(sub_has(mb, gl[i].pgno, g, q));
    if i < at {
        let nl = gl.subrange(0, at);
        assert(page(mb, r.0) == PageView::Branch(nl));
        assert(nl[i] == gl[i]);
        lemma_has_up(mb, r.0, k, nl, i, q);
    } else {
        let s = r.1->0;
        let nl = gl.subrange(at, t);
        assert(page(mb, s) == PageView::Branch(nl));
        assert(nl[i - at] == gl[i]);
        lemma_has_up(mb, s, k, nl, i - at, q);
    }
}

/// No page beneath a branch is lost where two pages beneath it were
/// written anew.
pub proof fn lemma_pair_whole(
    a: Pager,
    b: Pager,
    ma: Pages,
    mb: Pages,
    p: u64,
    h: nat,
    n: nat,
    cap: nat,
    ls: Seq<Link>,
    x: int,
    r: (u64, Option<u64>),
    oldest: Option<u64>,
    left_takes: bool,
    c0: usize,
    c1: usize,
)
    requires
        balance_pre(a, b, ma, mb, p, h, n, cap, ls, x, r, oldest, left_takes, c0, c1),
        left_behind(b, ls[x].pgno, ls[x + 1].pgno, r),
    ensures
        all_placed(a, b, ma, mb, p, h, relinked(ls, x, 2, pair_mid(r, c0, c1))),
{
    reveal(balance_pre);
    lemma_pair_all(a, b, ma, mb, p, h, n, cap, ls, x, r, oldest, left_takes, c0, c1);
}

/// No page beneath a branch is lost where two pages beneath it were
/// written anew, be it as one page or as two.
pub proof fn lemma_pair_all(
    a: Pager,
    b: Pager,
    ma: Pages,
    mb: Pages,
    p: u64,
    h: nat,
    n: nat,
    cap: nat,
    ls: Seq<Link>,
    x: int,
    r: (u64, Option<u64>),
    oldest: Option<u64>,
    left_takes: bool,
    c0: usize,
    c1: usize,
)
    requires
        pair_pre(
            a,
            b,
            ma,
            mb,
            p,
            h,
            n,
            cap,
            ls,
            x,
            part(
                glue(page(ma, ls[x].pgno), page(ma, ls[x + 1].pgno)),
                0,
                cut_at(page(ma, ls[x].pgno), page(ma, ls[x + 1].pgno), left_takes, cap),
            ),
            if items(page(ma, ls[x].pgno)) + items(page(ma, ls[x + 1].pgno)) <= cap {
                None
            } else {
                Some(
                    part(
                        glue(page(ma, ls[x].pgno), page(ma, ls[x + 1].pgno)),
                        cut_at(page(ma, ls[x].pgno), page(ma, ls[x + 1].pgno), left_takes, cap),
                        (items(page(ma, ls[x].pgno)) + items(page(ma, ls[x + 1].pgno))) as int,
                    ),
                )
            },
            r,
            oldest,
        ),
        items(page(ma, ls[x].pgno)) + items(page(ma, ls[x + 1].pgno)) > cap ==> if left_takes {
            !rich(page(ma, ls[x].pgno), cap)
        } else {
            !rich(page(ma, ls[x + 1].pgno), cap)
        },
        left_behind(b, ls[x].pgno, ls[x + 1].pgno, r),
        cap % 2 == 0,
    ensures
        all_placed(a, b, ma, mb, p, h, relinked(ls, x, 2, pair_mid(r, c0, c1))),
{
    reveal(all_placed);
    let k = (h - 1) as nat;
    let lp = ls[x].pgno;
    let rp = ls[x + 1].pgno;
    let pl = page(ma, lp);
    let pr = page(ma, rp);
    let at = cut_at(pl, pr, left_takes, cap);
    let t = (items(pl) + items(pr)) as int;
    let left = part(glue(pl, pr), 0, at);
    let right = if t <= cap {
        None
    } else {
        Some(part(glue(pl, pr), at, t))
    };
    let mid = pair_mid(r, c0, c1);
    let l2 = relinked(ls, x, 2, mid);
    let w = mid.len() as int;
    lemma_balance_sizes(ma, p, h, n, cap, ls, x, left_takes);
    assert(pair_pre(a, b, ma, mb, p, h, n, cap, ls, x, left, right, r, oldest));
    assert(mid[0].pgno == r.0);
    assert forall|j: int| 0 <= j < l2.len() implies #[trigger] l2[j] == (if j < x {
        ls[j]
    } else if j < x + w {
        mid[j - x]
    } else {
        ls[j - w + 2]
    }) by {}
    assert(r.1 is Some <==> t > cap) by {
        reveal(joined);
    }
    assert forall|q: u64| (sub_has(ma, p, h, q) && q != p) || b.took(a, q) implies #[trigger] among(
        b,
        mb,
        l2,
        k,
        q,
    ) by {
        assert(sub_has(mb, l2[x].pgno, k, l2[x].pgno));
        if r.1 is Some {
            assert(mid[1].pgno == r.1->0);
            assert(l2[x + 1] == mid[1]);
            assert(sub_has(mb, l2[x + 1].pgno, k, l2[x + 1].pgno));
        }
        if b.took(a, q) {
            reveal(joined);
            assert(q == r.0 || r.1 == Some(q));
        } else {
            assert(page(ma, p)->Branch_0 == ls);
            let j = choose|j: int| 0 <= j < ls.len() && sub_has(ma, (#[trigger] ls[j]).pgno, k, q);
            assert(sub_has(ma, ls[j].pgno, k, q));
            if j == x || j == x + 1 {
                if q == lp {
                } else if q == rp {
                } else {
                    if h == 1 {
                        lemma_leaf_alone(ma, lp);
                        lemma_leaf_alone(ma, rp);
                    } else {
                        lemma_pair_below(a, b, ma, mb, p, h, n, cap, ls, x, left, right, r, oldest, at, q);
                    }
                }
            } else {
                // A page beneath another link: as it was.
                reveal(joined);
                reveal(live);
                assert forall|y: u64| sub_has(ma, ls[j].pgno, k, y) implies page(mb, y) == page(ma, y) by {
                    lemma_has_up(ma, p, h, ls, j, y);
                    assert(apart(ma, ls[j].pgno, lp, k));
                    assert(apart(ma, ls[j].pgno, rp, k));
                    assert(sub_has(ma, lp, k, lp));
                    assert(sub_has(ma, rp, k, rp));
                    if b.took(a, y) {
                        lemma_took_unused(a, b, oldest, ma, p, h, y);
                    }
                }
                crate::tree::lemma_sub_frame(ma, mb, ls[j].pgno, k, ls[j].count as nat, cap);
                let j2 = if j < x {
                    j
                } else {
                    j + w - 2
                };
                assert(l2[j2] == ls[j]);
                assert(sub_has(mb, l2[j2].pgno, k, q));
            }
        }
    }
}

/// Fills up the page beneath the link `c` of the branch `p` from the page
/// beside it, and writes the branch.
pub fn fill(
    pg: &mut Pager,
    arena: &Vec<Page>,
    p: u64,
    h: usize,
    i: usize,
    count: usize,
    ls: Vec<Link>,
    c: usize,
    cap: usize,
    oldest: Option<u64>,
) -> (r: Link)
    requires
        old(pg).wf(),
        h > 0,
        sub_ok(old(pg).map(arena@), p, h as nat, count as nat, cap as nat),
        live(*old(pg), old(pg).map(arena@), p, h as nat),
        page(old(pg).map(arena@), p) == PageView::Branch(ls@),
        c < ls@.len(),
        total(ls@.take(c as int)) <= i < total(ls@.take(c as int)) + ls@[c as int].count,
        4 <= cap,
        2 * cap <= usize::MAX,
        cap % 2 == 0,
        can_take(old(pg).space@, oldest, 4),
        !rich(page(old(pg).map(arena@), ls@[c as int].pgno), cap as nat),
        ls@.len() >= 3 || roomy(old(pg).map(arena@), p, cap as nat),
    ensures
        kept(*old(pg), *final(pg), old(pg).map(arena@), final(pg).map(arena@), p, h as nat, oldest),
        spent(*old(pg), *final(pg), oldest, 4),
        built(
            *old(pg),
            *final(pg),
            old(pg).map(arena@),
            final(pg).map(arena@),
            p,
            h as nat,
            sub_view(old(pg).map(arena@), p, h as nat),
            (r, None),
            cap as nat,
        ),
        r.count == count,
        rich_at(final(pg).map(arena@), r.pgno, i as int, cap as nat),
        items(page(final(pg).map(arena@), r.pgno)) + 1 >= items(page(old(pg).map(arena@), p)),
        page(final(pg).map(arena@), r.pgno) is Branch,
        whole(*old(pg), *final(pg), old(pg).map(arena@), final(pg).map(arena@), p, h as nat, (r, None)),
{
    let ghost a = *pg;
    let ghost ma = pg.map(arena@);
    let x = if c + 1 < ls.len() { c } else { c - 1 };
    let left_takes = x == c;
    proof {
        lemma_balance_sizes(ma, p, h as nat, count as nat, cap as nat, ls@, x as int, left_takes);
        lemma_pair_live(a, ma, p, h as nat, count as nat, cap as nat, ls@, x as int);
        lemma_can_take_less(a.space@, oldest, 4, 2);
        lemma_two_index(ma, ls@, (h - 1) as nat, cap as nat, x as int);
        lemma_items(ma, ls@[x as int].pgno, (h - 1) as nat, ls@[x as int].count as nat, cap as nat);
        lemma_items(ma, ls@[x + 1].pgno, (h - 1) as nat, ls@[x + 1].count as nat, cap as nat);
    }
    let r0 = balance(pg, arena, ls[x], ls[x + 1], left_takes, cap, oldest);
    let ghost b = *pg;
    let ghost mb = pg.map(arena@);
    proof {
        lemma_balance_pre(
            a,
            b,
            ma,
            mb,
            p,
            h as nat,
            count as nat,
            cap as nat,
            ls@,
            x as int,
            r0,
            oldest,
            left_takes,
        );
        lemma_fill_ready(
            a,
            b,
            ma,
            mb,
            p,
            h as nat,
            count as nat,
            cap as nat,
            ls@,
            x as int,
            r0,
            oldest,
            left_takes,
        );
    }
    let r = ascend_pair(pg, p, ls, x, r0, cap, oldest, Ghost(arena@));
    proof {
        lemma_prepped(
            a,
            b,
            *pg,
            ma,
            mb,
            pg.map(arena@),
            p,
            h as nat,
            count as nat,
            cap as nat,
            ls@,
            x as int,
            r0,
            r,
            oldest,
            left_takes,
        );
        lemma_prepped_rich(
            a,
            b,
            *pg,
            ma,
            mb,
            pg.map(arena@),
            p,
            h as nat,
            count as nat,
            cap as nat,
            ls@,
            x as int,
            r0,
            r,
            oldest,
            left_takes,
            i as int,
        );
        lemma_spent_add(a, b, *pg, oldest, 2, 2);
        lemma_pair_whole(
            a,
            b,
            ma,
            mb,
            p,
            h as nat,
            count as nat,
            cap as nat,
            ls@,
            x as int,
            pair_of(r0),
            oldest,
            left_takes,
            r0.0.count,
            second_count(r0),
        );
        lemma_whole_up(
            a,
            b,
            *pg,
            ma,
            mb,
            pg.map(arena@),
            p,
            h as nat,
            cap as nat,
            relinked(ls@, x as int, 2, mid_of(r0)),
            (r, None),
            oldest,
        );
    }
    r
}

/// After two pages beneath a branch were written anew, the branch can be
/// written.
pub proof fn lemma_fill_ready(
    a: Pager,
    b: Pager,
    ma: Pages,
    mb: Pages,
    p: u64,
    h: nat,
    n: nat,
    cap: nat,
    ls: Seq<Link>,
    x: int,
    r0: (Link, Option<Link>),
    oldest: Option<u64>,
    left_takes: bool,
)
    requires
        balance_pre(
            a,
            b,
            ma,
            mb,
            p,
            h,
            n,
            cap,
            ls,
            x,
            pair_of(r0),
            oldest,
            left_takes,
            r0.0.count,
            second_count(r0),
        ),
        spent(a, b, oldest, 2),
        can_take(a.space@, oldest, 4),
        n <= usize::MAX,
        ls.len() <= cap,
    ensures
        b.wf(),
        !b.freed@.contains(p),
        p < b.space@.next,
        !b.space@.lists(p),
        can_take(b.space@, oldest, 2),
        2 <= relinked(ls, x, 2, mid_of(r0)).len(),
        total(relinked(ls, x, 2, mid_of(r0))) <= usize::MAX,
        x + 1 < ls.len(),
{
    reveal(balance_pre);
    reveal(spent);
    let mid = pair_mid(pair_of(r0), r0.0.count, second_count(r0));
    assert(mid_of(r0) =~= mid);
    lemma_balanced(
        a,
        b,
        ma,
        mb,
        p,
        h,
        n,
        cap,
        ls,
        x,
        pair_of(r0),
        oldest,
        left_takes,
        r0.0.count,
        second_count(r0),
    );
    lemma_region(a, b, ma, mb, p, h, n, cap, ls, x, 2, mid, oldest);
    assert(links_ok(ma, ls, (h - 1) as nat, cap));
    lemma_two_index(ma, ls, (h - 1) as nat, cap, x);
    assert(can_take(a.space@, oldest, 2 + 2));
}

/// Two pages beneath a branch that is in use are in use, and are two
/// pages.
pub proof fn lemma_pair_live(a: Pager, ma: Pages, p: u64, h: nat, n: nat, cap: nat, ls: Seq<Link>, x: int)
    requires
        sub_ok(ma, p, h, n, cap),
        h > 0,
        page(ma, p) == PageView::Branch(ls),
        live(a, ma, p, h),
        0 <= x,
        x + 1 < ls.len(),
    ensures
        ls[x].pgno != ls[x + 1].pgno,
        !a.freed@.contains(ls[x].pgno),
        ls[x].pgno < a.space@.next,
        !a.space@.lists(ls[x].pgno),
        !a.freed@.contains(ls[x + 1].pgno),
        ls[x + 1].pgno < a.space@.next,
        !a.space@.lists(ls[x + 1].pgno),
        ma.contains_key(ls[x].pgno),
        ma.contains_key(ls[x + 1].pgno),
{
    reveal(live);
    let k = (h - 1) as nat;
    assert(sub_ok(ma, ls[x].pgno, k, ls[x].count as nat, cap));
    assert(sub_ok(ma, ls[x + 1].pgno, k, ls[x + 1].count as nat, cap));
    assert(sub_has(ma, ls[x].pgno, k, ls[x].pgno));
    assert(sub_has(ma, ls[x + 1].pgno, k, ls[x + 1].pgno));
    lemma_has_up(ma, p, h, ls, x, ls[x].pgno);
    lemma_has_up(ma, p, h, ls, x + 1, ls[x + 1].pgno);
    assert(apart(ma, ls[x].pgno, ls[x + 1].pgno, k));
}

/// Takes entry `i` out of the leaf `p`, which has at least two entries.
pub fn rem_leaf(
    pg: &mut Pager,
    arena: &Vec<Page>,
    p: u64,
    i: usize,
    cap: usize,
    oldest: Option<u64>,
) -> (r: Link)
    requires
        old(pg).wf(),
        page(old(pg).map(arena@), p) is Leaf,
        sub_ok(old(pg).map(arena@), p, 0, items(page(old(pg).map(arena@), p)), cap as nat),
        live(*old(pg), old(pg).map(arena@), p, 0),
        i < items(page(old(pg).map(arena@), p)),
        items(page(old(pg).map(arena@), p)) >= 2,
        4 <= cap < usize::MAX,
        can_take(old(pg).space@, oldest, 2),
    ensures
        kept(*old(pg), *final(pg), old(pg).map(arena@), final(pg).map(arena@), p, 0, oldest),
        spent(*old(pg), *final(pg), oldest, 2),
        built(
            *old(pg),
            *final(pg),
            old(pg).map(arena@),
            final(pg).map(arena@),
            p,
            0,
            sub_view(old(pg).map(arena@), p, 0).remove(i as int),
            (r, None),
            cap as nat,
        ),
        r.count + 1 == items(page(old(pg).map(arena@), p)),
        items(page(final(pg).map(arena@), r.pgno)) + 1 == items(page(old(pg).map(arena@), p)),
        whole(*old(pg), *final(pg), old(pg).map(arena@), final(pg).map(arena@), p, 0, (r, None)),
{
    proof {
        reveal(live);
        reveal(spent);
    }
    let ghost a = *pg;
    let ghost ma = pg.map(arena@);
    let ghost old_view = sub_view(ma, p, 0);
    let ghost new_view = old_view.remove(i as int);
    let mut es = match pg.read(arena, p) {
        Page::Leaf(es) => copy_entries(es),
        _ => Vec::new(),
    };
    assert(entries_view(es@) == old_view);
    es.remove(i);
    assert(entries_view(es@) =~= new_view);
    assert(sub_has(ma, p, 0, p));
    proof {
        lemma_can_take_less(a.space@, oldest, 2, 1);
    }
    let n = es.len();
    let r = store(pg, p, Page::Leaf(es), oldest, Ghost(arena@));
    proof {
        reveal(built);
        reveal(kept);
        let b = *pg;
        let mb = b.map(arena@);
        assert(page(mb, r) == PageView::Leaf(new_view));
        lemma_leaf_alone(mb, r);
        lemma_leaf_alone(ma, p);
        lemma_stored(a, b, ma, mb, p, r, oldest);
        assert forall|k: nat| can_take(a.space@, oldest, k + 2) implies #[trigger] can_take(
            b.space@,
            oldest,
            k,
        ) by {
            lemma_can_take_less(a.space@, oldest, k + 2, k + 1);
        }
        crate::grow::lemma_whole_stored(a, b, ma, mb, p, Link { pgno: r, count: n });
    }
    Link { pgno: r, count: n }
}

/// Takes entry `i` out of the tree beneath page `p`. The page must be able
/// to lose an item: a leaf has two entries at least, and a branch has three
/// links at least, or stands over a page with an item to spare, or over two
/// pages that do not fit on one. Returns the link to the new tree.
#[verifier::rlimit(50)]
pub fn rem(
    pg: &mut Pager,
    arena: &Vec<Page>,
    p: u64,
    h: usize,
    i: usize,
    count: usize,
    cap: usize,
    oldest: Option<u64>,
) -> (r: Link)
    requires
        old(pg).wf(),
        sub_ok(old(pg).map(arena@), p, h as nat, count as nat, cap as nat),
        live(*old(pg), old(pg).map(arena@), p, h as nat),
        i < count,
        4 <= cap,
        2 * cap <= usize::MAX,
        cap % 2 == 0,
        can_take(old(pg).space@, oldest, 6 * (h as nat + 1)),
        h == 0 ==> count >= 2,
        h > 0 ==> items(page(old(pg).map(arena@), p)) >= 3 || rich_at(
            old(pg).map(arena@),
            p,
            i as int,
            cap as nat,
        ) || roomy(old(pg).map(arena@), p, cap as nat),
    ensures
        kept(*old(pg), *final(pg), old(pg).map(arena@), final(pg).map(arena@), p, h as nat, oldest),
        spent(*old(pg), *final(pg), oldest, 6 * (h as nat + 1)),
        built(
            *old(pg),
            *final(pg),
            old(pg).map(arena@),
            final(pg).map(arena@),
            p,
            h as nat,
            sub_view(old(pg).map(arena@), p, h as nat).remove(i as int),
            (r, None),
            cap as nat,
        ),
        r.count + 1 == count,
        items(page(final(pg).map(arena@), r.pgno)) + 1 >= items(page(old(pg).map(arena@), p)),
        whole(*old(pg), *final(pg), old(pg).map(arena@), final(pg).map(arena@), p, h as nat, (r, None)),
    decreases h,
{
    let ghost a = *pg;
    let ghost ma = pg.map(arena@);
    if h == 0 {
        proof {
            lemma_can_take_less(a.space@, oldest, 6 * (h as nat + 1), 2);
            lemma_items(ma, p, 0, count as nat, cap as nat);
        }
        let r = rem_leaf(pg, arena, p, i, cap, oldest);
        proof {
            lemma_spent_less(a, *pg, oldest, 2, 6);
        }
        return r;
    }
    proof {
        lemma_can_take_less(a.space@, oldest, 6 * (h as nat + 1), 4);
    }
    let r1 = prep(pg, arena, p, h, i, count, cap, oldest);
    let ghost b = *pg;
    let ghost mb = pg.map(arena@);
    proof {
        lemma_built_one(a, b, ma, mb, p, h as nat, sub_view(ma, p, h as nat), r1, cap as nat, oldest);
        lemma_budget(a, b, oldest, 4, 6 * h as nat + 2);
    }
    let (ls, c, off) = descend(pg, arena, r1.pgno, i, false, Ghost(h as nat), Ghost(count as nat), Ghost(cap as nat));
    proof {
        assert(links_of(page(mb, r1.pgno)) == ls@);
        let d = choose|d: int|
            0 <= d < ls@.len() && total(ls@.take(d)) <= i < total(ls@.take(d)) + (
            #[trigger] ls@[d]).count && rich(page(mb, ls@[d].pgno), cap as nat);
        lemma_locate_unique(ls@, c as int, d, i as int);
        lemma_items(mb, ls@[c as int].pgno, (h - 1) as nat, ls@[c as int].count as nat, cap as nat);
        lemma_can_take_less(b.space@, oldest, 6 * h as nat + 2, 6 * h as nat);
        if h > 1 {
            lemma_branch_items(mb, ls@[c as int].pgno, (h - 1) as nat, ls@[c as int].count as nat, cap as nat);
        }
    }
    let l = rem(pg, arena, ls[c].pgno, h - 1, i - off, ls[c].count, cap, oldest);
    let ghost c2 = *pg;
    let ghost mc = pg.map(arena@);
    let r0 = (l, None);
    proof {
        let cv = sub_view(mb, ls@[c as int].pgno, (h - 1) as nat);
        lemma_ready(
            b,
            c2,
            mb,
            mc,
            r1.pgno,
            h as nat,
            count as nat,
            cap as nat,
            ls@,
            c as int,
            cv.remove(i - off),
            r0,
            oldest,
            6 * h as nat,
            2,
        );
        let before = flat(below(mb, ls@.take(c as int), (h - 1) as nat));
        let after = flat(below(mb, ls@.skip(c + 1), (h - 1) as nat));
        lemma_total_split(ls@, c as int);
        lemma_sub_len(
            mb,
            ls@[c as int].pgno,
            (h - 1) as nat,
            ls@[c as int].count as nat,
            cap as nat,
        );
        assert(before.len() == off);
        assert((before + cv + after).remove(i as int) =~= before + cv.remove(i - off) + after);
    }
    let r = ascend(pg, r1.pgno, ls, c, r0, cap, oldest, Ghost(arena@));
    proof {
        let d = *pg;
        let md = pg.map(arena@);
        assert(sub_has(mb, r1.pgno, h as nat, r1.pgno));
        lemma_finished(
            b,
            c2,
            d,
            mb,
            mc,
            md,
            r1.pgno,
            h as nat,
            cap as nat,
            ls@.take(c as int) + mid_of(r0) + ls@.skip(c + 1),
            r,
            oldest,
        );
        lemma_spent_add(b, c2, d, oldest, 6 * h as nat, 2);
        lemma_spent_add(a, b, d, oldest, 4, 6 * h as nat + 2);
        crate::grow::lemma_one(mb, mc, md, ls@, c as int, r0, r, cap as nat);
        lemma_chain(
            a,
            b,
            d,
            ma,
            mb,
            md,
            p,
            h as nat,
            sub_view(ma, p, h as nat),
            r1,
            sub_view(ma, p, h as nat).remove(i as int),
            r,
            cap as nat,
            oldest,
        );
        lemma_rem_whole(
            a,
            b,
            c2,
            d,
            ma,
            mb,
            mc,
            md,
            p,
            h as nat,
            count as nat,
            cap as nat,
            ls@,
            c as int,
            r1,
            l,
            r,
            oldest,
        );
        assert(r == (r.0, None::<Link>));
    }
    r.0
}

/// What was built as one tree is in order and in use, and holds what it
/// was built to hold.
pub proof fn lemma_built_one(
    a: Pager,
    b: Pager,
    ma: Pages,
    mb: Pages,
    p: u64,
    h: nat,
    v: Seq<EntryView>,
    r: Link,
    cap: nat,
    oldest: Option<u64>,
)
    requires
        built(a, b, ma, mb, p, h, v, (r, None), cap),
        kept(a, b, ma, mb, p, h, oldest),
    ensures
        sub_ok(mb, r.pgno, h, r.count as nat, cap),
        live(b, mb, r.pgno, h),
        sub_view(mb, r.pgno, h) == v,
        b.wf(),
        b.grown(a, oldest),
{
    reveal(built);
    reveal(kept);
}

/// No page is lost where a branch was made ready for an entry to go, the
/// entry was taken out beneath one of its links without loss, and the branch
/// was written anew.
pub proof fn lemma_rem_whole(
    a: Pager,
    b: Pager,
    c2: Pager,
    d: Pager,
    ma: Pages,
    mb: Pages,
    mc: Pages,
    md: Pages,
    p: u64,
    h: nat,
    n: nat,
    cap: nat,
    ls: Seq<Link>,
    c: int,
    r1: Link,
    l: Link,
    r: (Link, Option<Link>),
    oldest: Option<u64>,
)
    requires
        h > 0,
        whole(a, b, ma, mb, p, h, (r1, None)),
        sub_ok(mb, r1.pgno, h, n, cap),
        page(mb, r1.pgno) == PageView::Branch(ls),
        live(b, mb, r1.pgno, h),
        0 <= c < ls.len(),
        kept(b, c2, mb, mc, ls[c].pgno, (h - 1) as nat, oldest),
        whole(b, c2, mb, mc, ls[c].pgno, (h - 1) as nat, (l, None)),
        ready(b, c2, mb, mc, r1.pgno, h, cap, ls.take(c) + mid_of((l, None)) + ls.skip(c + 1)),
        b.wf(),
        c2.wf(),
        d.wf(),
        b.grown(a, oldest),
        c2.grown(b, oldest),
        d.grown(c2, oldest),
        wrote(c2, d, mc, md, r1.pgno, ls.take(c) + mid_of((l, None)) + ls.skip(c + 1), r, cap),
    ensures
        whole(a, d, ma, md, p, h, r),
{
    let l2 = ls.take(c) + mid_of((l, None)) + ls.skip(c + 1);
    crate::grow::lemma_rebuilt_whole(b, c2, mb, mc, r1.pgno, h, n, cap, ls, c, (l, None), oldest);
    lemma_whole_up(b, c2, d, mb, mc, md, r1.pgno, h, cap, l2, r, oldest);
    crate::pager::lemma_grown_trans(b, c2, d, oldest);
    crate::grow::lemma_whole_chain(a, b, d, ma, mb, md, p, h, r1, r, oldest);
}

/// Where pages can be taken and some were, the rest can be taken still.
pub proof fn lemma_budget(a: Pager, b: Pager, oldest: Option<u64>, x: nat, y: nat)
    requires
        spent(a, b, oldest, x),
        can_take(a.space@, oldest, x + y),
    ensures
        can_take(b.space@, oldest, y),
{
    reveal(spent);
    assert(can_take(a.space@, oldest, y + x));
}

/// A branch with an item to spare has three links at least.
pub proof fn lemma_branch_items(m: Pages, p: u64, h: nat, n: nat, cap: nat)
    requires
        sub_ok(m, p, h, n, cap),
        h > 0,
        4 <= cap,
        rich(page(m, p), cap),
    ensures
        items(page(m, p)) >= 3,
{
}

} // verus!
