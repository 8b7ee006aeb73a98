//! The tree of pages that holds a sub-database.
//!
//! A leaf page holds entries; a branch page holds links to the pages below
//! it, each with the number of entries beneath. An entry is found by its
//! index: a branch tells from the numbers of its links which page holds it.
//! Every page but the root is at least half full, so the height of the tree
//! grows with the logarithm of the number of entries.
use crate::leaf::{entries_view, Entry};
use crate::pager::Pager;
use crate::model::EntryView;
use vstd::prelude::*;

verus! {

/// A link of a branch page: the page below, and the number of entries
/// beneath it.
#[derive(Debug, Copy, Clone, PartialEq, Eq, Structural)]
pub struct Link {
    pub pgno: u64,
    pub count: usize,
}

/// A page.
pub enum Page {
    /// A page that holds nothing.
    Free,
    /// A page of entries, in the order of their keys.
    Leaf(Vec<Entry>),
    /// A page of links, in the order of the entries beneath them.
    Branch(Vec<Link>),
}

/// What a page holds.
pub enum PageView {
    Free,
    Leaf(Seq<EntryView>),
    Branch(Seq<Link>),
}

impl View for Page {
    type V = PageView;

    open spec fn view(&self) -> PageView {
        match self {
            Page::Free => PageView::Free,
            Page::Leaf(es) => PageView::Leaf(entries_view(es@)),
            Page::Branch(ls) => PageView::Branch(ls@),
        }
    }
}

/// The pages that a transaction sees, by their numbers.
pub type Pages = Map<u64, PageView>;

/// The page with the number `p`; an absent page holds nothing.
pub open spec fn page(m: Pages, p: u64) -> PageView {
    if m.contains_key(p) {
        m[p]
    } else {
        PageView::Free
    }
}

/// The number of items of a page: entries or links.
pub open spec fn items(pg: PageView) -> nat {
    match pg {
        PageView::Leaf(es) => es.len(),
        PageView::Branch(ls) => ls.len(),
        PageView::Free => 0,
    }
}

/// Whether a page is at least half full.
pub open spec fn half_full(pg: PageView, cap: nat) -> bool {
    2 * items(pg) >= cap
}

/// The sequences one after the other.
pub open spec fn flat(vs: Seq<Seq<EntryView>>) -> Seq<EntryView>
    decreases vs.len(),
{
    if vs.len() == 0 {
        Seq::empty()
    } else {
        flat(vs.drop_last()) + vs.last()
    }
}

/// The sum of the numbers of the links.
pub open spec fn total(ls: Seq<Link>) -> nat
    decreases ls.len(),
{
    if ls.len() == 0 {
        0
    } else {
        total(ls.drop_last()) + ls.last().count as nat
    }
}

/// The entries beneath each of the links.
pub open spec fn below(m: Pages, ls: Seq<Link>, h: nat) -> Seq<Seq<EntryView>>
    decreases h, 1nat,
{
    Seq::new(ls.len(), |i: int| sub_view(m, ls[i].pgno, h))
}

/// The entries beneath page `p`, which stands `h` levels above the leaves.
pub open spec fn sub_view(m: Pages, p: u64, h: nat) -> Seq<EntryView>
    decreases h, 0nat,
{
    match page(m, p) {
        PageView::Leaf(es) => es,
        PageView::Branch(ls) => if h > 0 {
            flat(below(m, ls, (h - 1) as nat))
        } else {
            Seq::empty()
        },
        PageView::Free => Seq::empty(),
    }
}

/// Whether page `q` belongs to the tree beneath page `p`.
pub open spec fn sub_has(m: Pages, p: u64, h: nat, q: u64) -> bool
    decreases h,
{
    q == p || match page(m, p) {
        PageView::Branch(ls) => h > 0 && exists|i: int|
            0 <= i < ls.len() && sub_has(m, (#[trigger] ls[i]).pgno, (h - 1) as nat, q),
        _ => false,
    }
}

/// Whether the trees beneath the pages `a` and `b` share no page.
pub open spec fn apart(m: Pages, a: u64, b: u64, h: nat) -> bool {
    forall|q: u64| #[trigger] sub_has(m, a, h, q) ==> !sub_has(m, b, h, q)
}

/// The invariant of the tree beneath page `p`, which holds `n` entries and
/// stands `h` levels above the leaves, with pages of at most `cap` items: a
/// leaf holds its entries, at least one; a branch holds at least two links;
/// every page below a branch is in order, at least half full, and holds as
/// many entries as its link says; and no page occurs twice.
pub open spec fn sub_ok(m: Pages, p: u64, h: nat, n: nat, cap: nat) -> bool
    decreases h,
{
    match page(m, p) {
        PageView::Leaf(es) => h == 0 && n == es.len() && 1 <= n <= cap,
        PageView::Branch(ls) => {
            &&& h > 0
            &&& 2 <= ls.len() <= cap
            &&& n == total(ls)
            &&& forall|i: int|
                0 <= i < ls.len() ==> sub_ok(
                    m,
                    (#[trigger] ls[i]).pgno,
                    (h - 1) as nat,
                    ls[i].count as nat,
                    cap,
                ) && half_full(page(m, ls[i].pgno), cap) && !sub_has(
                    m,
                    ls[i].pgno,
                    (h - 1) as nat,
                    p,
                )
            &&& forall|i: int, j: int|
                0 <= i < ls.len() && 0 <= j < ls.len() && i != j ==> apart(
                    m,
                    (#[trigger] ls[i]).pgno,
                    (#[trigger] ls[j]).pgno,
                    (h - 1) as nat,
                )
        },
        PageView::Free => false,
    }
}

/// Flattening goes through concatenation.
pub proof fn lemma_flat_add(a: Seq<Seq<EntryView>>, b: Seq<Seq<EntryView>>)
    ensures
        flat(a + b) == flat(a) + flat(b),
    decreases b.len(),
{
    if b.len() == 0 {
        assert(a + b =~= a);
        assert(flat(a) + flat(b) =~= flat(a));
    } else {
        lemma_flat_add(a, b.drop_last());
        assert((a + b).drop_last() =~= a + b.drop_last());
        assert((a + b).last() == b.last());
        assert(flat(a) + (flat(b.drop_last()) + b.last()) =~= (flat(a) + flat(b.drop_last()))
            + b.last());
    }
}

/// Flattening one sequence gives the sequence.
pub proof fn lemma_flat_one(x: Seq<EntryView>)
    ensures
        flat(seq![x]) == x,
{
    assert(seq![x].drop_last() =~= Seq::<Seq<EntryView>>::empty());
    assert(flat(seq![x].drop_last()) + x =~= x);
}

/// A sequence of sequences flattens to what stands before one of them,
/// that one, and what stands after it.
pub proof fn lemma_flat_split(vs: Seq<Seq<EntryView>>, c: int)
    requires
        0 <= c < vs.len(),
    ensures
        flat(vs) == flat(vs.take(c)) + vs[c] + flat(vs.skip(c + 1)),
{
    assert(vs =~= vs.take(c) + seq![vs[c]] + vs.skip(c + 1));
    lemma_flat_add(vs.take(c) + seq![vs[c]], vs.skip(c + 1));
    lemma_flat_add(vs.take(c), seq![vs[c]]);
    lemma_flat_one(vs[c]);
}

/// The sum of the numbers goes through concatenation.
pub proof fn lemma_total_add(a: Seq<Link>, b: Seq<Link>)
    ensures
        total(a + b) == total(a) + total(b),
    decreases b.len(),
{
    if b.len() == 0 {
        assert(a + b =~= a);
    } else {
        lemma_total_add(a, b.drop_last());
        assert((a + b).drop_last() =~= a + b.drop_last());
        assert((a + b).last() == b.last());
    }
}

/// The sum of the numbers is the sum before a link, the number of the
/// link, and the sum after it.
pub proof fn lemma_total_split(ls: Seq<Link>, c: int)
    requires
        0 <= c < ls.len(),
    ensures
        total(ls) == total(ls.take(c)) + ls[c].count + total(ls.skip(c + 1)),
        total(ls.take(c + 1)) == total(ls.take(c)) + ls[c].count,
{
    assert(ls =~= ls.take(c) + seq![ls[c]] + ls.skip(c + 1));
    lemma_total_add(ls.take(c) + seq![ls[c]], ls.skip(c + 1));
    lemma_total_add(ls.take(c), seq![ls[c]]);
    assert(seq![ls[c]].drop_last() =~= Seq::<Link>::empty());
    assert(seq![ls[c]].last() == ls[c]);
    assert(total(Seq::<Link>::empty()) == 0);
    assert(total(seq![ls[c]]) == ls[c].count);
    assert(ls.take(c + 1) =~= ls.take(c) + seq![ls[c]]);
}

/// The entries beneath the links are as many as the numbers of the links
/// say, where every link says how many are beneath it.
pub proof fn lemma_flat_len(m: Pages, ls: Seq<Link>, h: nat)
    requires
        forall|i: int| 0 <= i < ls.len() ==> sub_view(m, (#[trigger] ls[i]).pgno, h).len() == ls[i].count,
    ensures
        flat(below(m, ls, h)).len() == total(ls),
    decreases ls.len(),
{
    if ls.len() > 0 {
        let d = ls.drop_last();
        assert forall|i: int| 0 <= i < d.len() implies sub_view(m, (#[trigger] d[i]).pgno, h).len()
            == d[i].count by {
            assert(d[i] == ls[i]);
        }
        lemma_flat_len(m, d, h);
        assert(below(m, ls, h).drop_last() =~= below(m, d, h));
        assert(below(m, ls, h).last() == sub_view(m, ls.last().pgno, h));
        assert(ls.last() == ls[ls.len() - 1]);
    }
}

/// A tree that is in order holds as many entries as it says.
pub proof fn lemma_sub_len(m: Pages, p: u64, h: nat, n: nat, cap: nat)
    requires
        sub_ok(m, p, h, n, cap),
    ensures
        sub_view(m, p, h).len() == n,
    decreases h,
{
    match page(m, p) {
        PageView::Branch(ls) => {
            assert forall|i: int| 0 <= i < ls.len() implies sub_view(
                m,
                (#[trigger] ls[i]).pgno,
                (h - 1) as nat,
            ).len() == ls[i].count by {
                lemma_sub_len(m, ls[i].pgno, (h - 1) as nat, ls[i].count as nat, cap);
            }
            lemma_flat_len(m, ls, (h - 1) as nat);
        },
        _ => {},
    }
}

/// A tree reads the same, and is in order alike, in every set of pages
/// that has the pages of the tree as they are.
pub proof fn lemma_sub_frame(m: Pages, m2: Pages, p: u64, h: nat, n: nat, cap: nat)
    requires
        forall|q: u64| sub_has(m, p, h, q) ==> page(m2, q) == page(m, q),
    ensures
        sub_view(m2, p, h) == sub_view(m, p, h),
        forall|q: u64| sub_has(m2, p, h, q) == sub_has(m, p, h, q),
        sub_ok(m2, p, h, n, cap) == sub_ok(m, p, h, n, cap),
    decreases h,
{
    assert(sub_has(m, p, h, p));
    match page(m, p) {
        PageView::Branch(ls) => {
            if h > 0 {
                let k = (h - 1) as nat;
                assert forall|i: int| 0 <= i < ls.len() implies sub_view(m2, (#[trigger] ls[i]).pgno, k)
                    == sub_view(m, ls[i].pgno, k) && (forall|q: u64|
                    sub_has(m2, ls[i].pgno, k, q) == sub_has(m, ls[i].pgno, k, q)) && sub_ok(
                    m2,
                    ls[i].pgno,
                    k,
                    ls[i].count as nat,
                    cap,
                ) == sub_ok(m, ls[i].pgno, k, ls[i].count as nat, cap) && page(m2, ls[i].pgno)
                    == page(m, ls[i].pgno) by {
                    assert forall|q: u64| sub_has(m, ls[i].pgno, k, q) implies page(m2, q) == page(
                        m,
                        q,
                    ) by {
                        assert(sub_has(m, p, h, q));
                    }
                    lemma_sub_frame(m, m2, ls[i].pgno, k, ls[i].count as nat, cap);
                    assert(sub_has(m, ls[i].pgno, k, ls[i].pgno));
                }
                assert(below(m2, ls, k) =~= below(m, ls, k));
                assert forall|q: u64| sub_has(m2, p, h, q) == sub_has(m, p, h, q) by {
                    if sub_has(m, p, h, q) && q != p {
                        let i = choose|i: int|
                            0 <= i < ls.len() && sub_has(m, (#[trigger] ls[i]).pgno, k, q);
                        assert(sub_has(m2, ls[i].pgno, k, q));
                    }
                    if sub_has(m2, p, h, q) && q != p {
                        let i = choose|i: int|
                            0 <= i < ls.len() && sub_has(m2, (#[trigger] ls[i]).pgno, k, q);
                        assert(sub_has(m, ls[i].pgno, k, q));
                    }
                }
            }
        },
        _ => {},
    }
}

/// The entries beneath the first links are the first of the entries
/// beneath all links.
pub proof fn lemma_below_take(m: Pages, ls: Seq<Link>, h: nat, c: int)
    requires
        0 <= c <= ls.len(),
    ensures
        below(m, ls.take(c), h) == below(m, ls, h).take(c),
        below(m, ls.skip(c), h) == below(m, ls, h).skip(c),
{
    assert(below(m, ls.take(c), h) =~= below(m, ls, h).take(c));
    assert(below(m, ls.skip(c), h) =~= below(m, ls, h).skip(c));
}

/// What holds of every link of a branch that is in order.
pub open spec fn links_ok(m: Pages, ls: Seq<Link>, h: nat, cap: nat) -> bool {
    forall|i: int|
        0 <= i < ls.len() ==> sub_ok(m, (#[trigger] ls[i]).pgno, h, ls[i].count as nat, cap)
}

/// The entries beneath a branch are those before one of its links, those
/// beneath the link, and those after it; those before it are as many as the
/// numbers of the links before it say.
pub proof fn lemma_child_index(m: Pages, ls: Seq<Link>, h: nat, cap: nat, c: int)
    requires
        links_ok(m, ls, h, cap),
        0 <= c < ls.len(),
    ensures
        flat(below(m, ls, h)) == flat(below(m, ls.take(c), h)) + sub_view(m, ls[c].pgno, h) + flat(
            below(m, ls.skip(c + 1), h),
        ),
        flat(below(m, ls.take(c), h)).len() == total(ls.take(c)),
        flat(below(m, ls.skip(c + 1), h)).len() == total(ls.skip(c + 1)),
        sub_view(m, ls[c].pgno, h).len() == ls[c].count,
        flat(below(m, ls, h)).len() == total(ls),
        total(ls) == total(ls.take(c)) + ls[c].count + total(ls.skip(c + 1)),
{
    let vs = below(m, ls, h);
    lemma_flat_split(vs, c);
    lemma_below_take(m, ls, h, c);
    lemma_below_take(m, ls, h, c + 1);
    assert forall|i: int| 0 <= i < ls.len() implies sub_view(m, (#[trigger] ls[i]).pgno, h).len()
        == ls[i].count by {
        lemma_sub_len(m, ls[i].pgno, h, ls[i].count as nat, cap);
    }
    let a = ls.take(c);
    let b = ls.skip(c + 1);
    assert forall|i: int| 0 <= i < a.len() implies sub_view(m, (#[trigger] a[i]).pgno, h).len()
        == a[i].count by {
        assert(a[i] == ls[i]);
    }
    assert forall|i: int| 0 <= i < b.len() implies sub_view(m, (#[trigger] b[i]).pgno, h).len()
        == b[i].count by {
        assert(b[i] == ls[i + c + 1]);
    }
    lemma_flat_len(m, a, h);
    lemma_flat_len(m, b, h);
    lemma_flat_len(m, ls, h);
    lemma_total_split(ls, c);
}

/// Whether index `i` lies beyond the entries that end at `end`.
fn past(i: usize, end: usize, at_end: bool) -> (b: bool)
    ensures
        b == if at_end {
            i > end
        } else {
            i >= end
        },
{
    if at_end {
        i > end
    } else {
        i >= end
    }
}

/// The link beneath which entry `i` stands, and the number of entries
/// before that link. With `at_end` the entry may also be the one that would
/// follow the last entry beneath a link.
pub fn locate(ls: &Vec<Link>, i: usize, at_end: bool) -> (r: (usize, usize))
    requires
        ls@.len() > 0,
        total(ls@) <= usize::MAX,
        at_end ==> i <= total(ls@),
        !at_end ==> i < total(ls@),
    ensures
        r.0 < ls@.len(),
        r.1 == total(ls@.take(r.0 as int)),
        r.1 <= i,
        at_end ==> i <= r.1 + ls@[r.0 as int].count,
        !at_end ==> i < r.1 + ls@[r.0 as int].count,
{
    let mut c: usize = 0;
    let mut off: usize = 0;
    assert(ls@.take(0) =~= Seq::<Link>::empty());
    proof {
        lemma_total_split(ls@, 0);
    }
    let mut go = c + 1 < ls.len() && past(i, off + ls[c].count, at_end);
    while go
        invariant
            c < ls@.len(),
            off == total(ls@.take(c as int)),
            off <= i,
            total(ls@) <= usize::MAX,
            off + ls@[c as int].count <= total(ls@),
            at_end ==> i <= total(ls@),
            !at_end ==> i < total(ls@),
            ls@.len() <= usize::MAX,
            go ==> c + 1 < ls@.len() && (at_end ==> i > off + ls@[c as int].count) && (!at_end ==> i
                >= off + ls@[c as int].count),
            !go && at_end ==> c + 1 == ls@.len() || i <= off + ls@[c as int].count,
            !go && !at_end ==> c + 1 == ls@.len() || i < off + ls@[c as int].count,
        decreases ls@.len() - c,
    {
        proof {
            lemma_total_split(ls@, c as int);
            lemma_total_split(ls@, c + 1);
        }
        off = off + ls[c].count;
        c = c + 1;
        go = c + 1 < ls.len() && past(i, off + ls[c].count, at_end);
    }
    proof {
        lemma_total_split(ls@, c as int);
        if c + 1 == ls@.len() {
            assert(ls@.skip(c + 1) =~= Seq::<Link>::empty());
        }
    }
    (c, off)
}

/// Entry `i` of the tree beneath page `root`.
pub fn entry_at<'a>(
    pg: &'a Pager,
    arena: &'a Vec<Page>,
    root: u64,
    height: usize,
    i: usize,
    Ghost(n): Ghost<nat>,
    Ghost(cap): Ghost<nat>,
) -> (e: &'a Entry)
    requires
        pg.wf(),
        sub_ok(pg.map(arena@), root, height as nat, n, cap),
        i < n,
        n <= usize::MAX,
    ensures
        e@ == sub_view(pg.map(arena@), root, height as nat)[i as int],
{
    let ghost m = pg.map(arena@);
    let mut p = root;
    let mut h = height;
    let mut at = i;
    let ghost mut count = n;
    loop
        invariant
            pg.wf(),
            m == pg.map(arena@),
            sub_ok(m, p, h as nat, count, cap),
            at < count,
            count <= usize::MAX,
            sub_view(m, p, h as nat)[at as int] == sub_view(m, root, height as nat)[i as int],
        decreases h,
    {
        match pg.read(arena, p) {
            Page::Leaf(es) => {
                return &es[at];
            },
            Page::Branch(ls) => {
                let (c, off) = locate(ls, at, false);
                proof {
                    assert(links_ok(m, ls@, (h - 1) as nat, cap));
                    lemma_child_index(m, ls@, (h - 1) as nat, cap, c as int);
                    count = ls@[c as int].count as nat;
                }
                p = ls[c].pgno;
                at = at - off;
                h = h - 1;
            },
            Page::Free => {
                proof {
                    assert(false);
                }
                vstd::pervasive::unreached()
            },
        }
    }
}

/// Every page of a tree that is in order is a page at hand.
pub proof fn lemma_has_page(m: Pages, p: u64, h: nat, n: nat, cap: nat, q: u64)
    requires
        sub_ok(m, p, h, n, cap),
        sub_has(m, p, h, q),
    ensures
        m.contains_key(q),
    decreases h,
{
    if q != p {
        let ls = page(m, p)->Branch_0;
        let i = choose|i: int| 0 <= i < ls.len() && sub_has(m, (#[trigger] ls[i]).pgno, (h - 1) as nat, q);
        lemma_has_page(m, ls[i].pgno, (h - 1) as nat, ls[i].count as nat, cap, q);
    }
}

/// The numbers of leaf pages and of branch pages of the tree beneath page
/// `p`.
pub open spec fn census(m: Pages, p: u64, h: nat) -> (nat, nat)
    decreases h, 0nat, 0nat,
{
    match page(m, p) {
        PageView::Leaf(_) => (1, 0),
        PageView::Branch(ls) => if h > 0 {
            let c = tally(m, ls, (h - 1) as nat);
            (c.0, c.1 + 1)
        } else {
            (0, 1)
        },
        PageView::Free => (0, 0),
    }
}

/// The numbers of leaf pages and of branch pages of the trees beneath the
/// links.
pub open spec fn tally(m: Pages, ls: Seq<Link>, h: nat) -> (nat, nat)
    decreases h, 1nat, ls.len(),
{
    if ls.len() == 0 {
        (0, 0)
    } else {
        let a = tally(m, ls.drop_last(), h);
        let b = census(m, ls.last().pgno, h);
        (a.0 + b.0, a.1 + b.1)
    }
}

/// A tree has as many pages in every set of pages that has the pages of
/// the tree as they are.
pub proof fn lemma_census_frame(m: Pages, m2: Pages, p: u64, h: nat)
    requires
        forall|q: u64| sub_has(m, p, h, q) ==> page(m2, q) == page(m, q),
    ensures
        census(m2, p, h) == census(m, p, h),
    decreases h, 0nat, 0nat,
{
    assert(sub_has(m, p, h, p));
    match page(m, p) {
        PageView::Branch(ls) => {
            if h > 0 {
                assert forall|i: int, q: u64|
                    0 <= i < ls.len() && sub_has(m, (#[trigger] ls[i]).pgno, (h - 1) as nat, q) implies #[trigger] page(
                    m2,
                    q,
                ) == page(m, q) by {
                    assert(sub_has(m, p, h, q));
                }
                lemma_tally_frame(m, m2, ls, (h - 1) as nat);
            }
        },
        _ => {},
    }
}

/// The trees beneath some links have as many pages in every set of pages
/// that has their pages as they are.
pub proof fn lemma_tally_frame(m: Pages, m2: Pages, ls: Seq<Link>, h: nat)
    requires
        forall|i: int, q: u64|
            0 <= i < ls.len() && sub_has(m, (#[trigger] ls[i]).pgno, h, q) ==> #[trigger] page(m2, q)
                == page(m, q),
    ensures
        tally(m2, ls, h) == tally(m, ls, h),
    decreases h, 1nat, ls.len(),
{
    if ls.len() > 0 {
        let front = ls.drop_last();
        assert forall|i: int, q: u64|
            0 <= i < front.len() && sub_has(m, (#[trigger] front[i]).pgno, h, q) implies #[trigger] page(
            m2,
            q,
        ) == page(m, q) by {
            assert(front[i] == ls[i]);
        }
        lemma_tally_frame(m, m2, front, h);
        assert forall|q: u64| sub_has(m, ls.last().pgno, h, q) implies page(m2, q) == page(m, q) by {
            assert(ls.last() == ls[ls.len() - 1]);
        }
        lemma_census_frame(m, m2, ls.last().pgno, h);
    }
}

/// The trees beneath some links have a leaf at least each, not more
/// leaves than entries, and fewer branches than leaves.
pub proof fn lemma_tally(m: Pages, ls: Seq<Link>, h: nat, cap: nat)
    requires
        links_ok(m, ls, h, cap),
    ensures
        ls.len() <= tally(m, ls, h).0 <= total(ls),
        tally(m, ls, h).1 + ls.len() <= tally(m, ls, h).0,
    decreases h, 1nat, ls.len(),
{
    if ls.len() > 0 {
        let front = ls.drop_last();
        assert(links_ok(m, front, h, cap)) by {
            assert forall|i: int| 0 <= i < front.len() implies sub_ok(
                m,
                (#[trigger] front[i]).pgno,
                h,
                front[i].count as nat,
                cap,
            ) by {
                assert(front[i] == ls[i]);
            }
        }
        lemma_tally(m, front, h, cap);
        assert(ls.last() == ls[ls.len() - 1]);
        lemma_census(m, ls.last().pgno, h, ls.last().count as nat, cap);
    }
}

/// A tree that is in order has a leaf at least, not more leaves than
/// entries, and fewer branches than leaves; a single leaf is a tree without
/// branches, and a tree with levels has a branch and two leaves at least.
pub proof fn lemma_census(m: Pages, p: u64, h: nat, n: nat, cap: nat)
    requires
        sub_ok(m, p, h, n, cap),
    ensures
        1 <= census(m, p, h).0 <= n,
        census(m, p, h).1 < census(m, p, h).0,
        h == 0 ==> census(m, p, h) == (1nat, 0nat),
        h > 0 ==> census(m, p, h).1 >= 1 && census(m, p, h).0 >= 2,
    decreases h, 0nat, 0nat,
{
    match page(m, p) {
        PageView::Branch(ls) => {
            assert(links_ok(m, ls, (h - 1) as nat, cap));
            lemma_tally(m, ls, (h - 1) as nat, cap);
        },
        _ => {},
    }
}

/// A number as far as 64 bits can tell it.
pub open spec fn capped(n: nat) -> u64 {
    if n > u64::MAX {
        u64::MAX
    } else {
        n as u64
    }
}

/// Counts the leaf pages and the branch pages of the tree beneath page
/// `p`; a number that does not fit in 64 bits stops at the largest that
/// does.
pub fn survey(pg: &Pager, arena: &Vec<Page>, p: u64, h: usize, Ghost(n): Ghost<nat>, Ghost(cap): Ghost<nat>) -> (r:
    (u64, u64))
    requires
        pg.wf(),
        sub_ok(pg.map(arena@), p, h as nat, n, cap),
    ensures
        r.0 == capped(census(pg.map(arena@), p, h as nat).0),
        r.1 == capped(census(pg.map(arena@), p, h as nat).1),
    decreases h,
{
    let ghost m = pg.map(arena@);
    match pg.read(arena, p) {
        Page::Leaf(_) => (1, 0),
        Page::Branch(ls) => {
            let mut a: u64 = 0;
            let mut b: u64 = 0;
            let mut k: usize = 0;
            let ghost g = (h - 1) as nat;
            assert(ls@.take(0) =~= Seq::<Link>::empty());
            while k < ls.len()
                invariant
                    pg.wf(),
                    m == pg.map(arena@),
                    h > 0,
                    g == h - 1,
                    k <= ls@.len(),
                    forall|i: int|
                        0 <= i < ls@.len() ==> sub_ok(
                            m,
                            (#[trigger] ls@[i]).pgno,
                            g,
                            ls@[i].count as nat,
                            cap,
                        ),
                    a == capped(tally(m, ls@.take(k as int), g).0),
                    b == capped(tally(m, ls@.take(k as int), g).1),
                decreases ls@.len() - k,
            {
                let c = survey(pg, arena, ls[k].pgno, h - 1, Ghost(ls@[k as int].count as nat), Ghost(cap));
                proof {
                    let next = ls@.take(k + 1);
                    assert(next.drop_last() =~= ls@.take(k as int));
                    assert(next.last() == ls@[k as int]);
                }
                a = a.saturating_add(c.0);
                b = b.saturating_add(c.1);
                k = k + 1;
            }
            assert(ls@.take(k as int) =~= ls@);
            (a, b.saturating_add(1))
        },
        Page::Free => (0, 0),
    }
}

} // verus!
