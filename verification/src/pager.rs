//! The pages of a write transaction: what it reads, what it has written
//! and not yet committed, the page numbers it may take, and the pages it has
//! given up.
//!
//! A page that is committed is never written. A transaction that changes
//! such a page takes a new page number for the changed page and gives the
//! old one up. The changed pages wait here until the commit writes them out;
//! a read looks here first and then among the committed pages.
use crate::error::MdbxError;
use crate::space::{
    is_reclaimable, lemma_take_keeps, lemma_take_respects_readers, lemma_take_wf, reclaimable,
    Space, SpaceView,
};
use crate::tree::{capped, page, Page, Pages};
use vstd::prelude::*;

verus! {

/// A page that is written and not yet committed.
pub struct Dirty {
    pub pgno: u64,
    pub page: Page,
}

/// Whether the uncommitted pages hold a page with the number `p`.
pub open spec fn holds(over: Seq<Dirty>, p: u64) -> bool {
    exists|k: int| 0 <= k < over.len() && (#[trigger] over[k]).pgno == p
}

/// The index of the uncommitted page with the number `p`.
pub open spec fn index_of(over: Seq<Dirty>, p: u64) -> int {
    choose|k: int| 0 <= k < over.len() && (#[trigger] over[k]).pgno == p
}

/// The committed pages, by their numbers.
pub open spec fn arena_map(arena: Seq<Page>) -> Pages {
    Map::new(|p: u64| p < arena.len(), |p: u64| arena[p as int]@)
}

/// The pages that a transaction sees: the uncommitted ones, and behind
/// them the committed ones.
pub open spec fn over_map(arena: Seq<Page>, over: Seq<Dirty>) -> Pages {
    Map::new(
        |p: u64| holds(over, p) || p < arena.len(),
        |p: u64|
            if holds(over, p) {
                over[index_of(over, p)].page@
            } else {
                arena[p as int]@
            },
    )
}

/// Whether `n` pages can be taken one after the other.
pub open spec fn can_take(s: SpaceView, oldest: Option<u64>, n: nat) -> bool
    decreases n,
{
    n == 0 || (s.take(oldest) matches Ok((t, p)) && can_take(t, oldest, (n - 1) as nat))
}

/// Where pages can be taken, fewer pages can be taken too.
pub proof fn lemma_can_take_less(s: SpaceView, oldest: Option<u64>, n: nat, k: nat)
    requires
        can_take(s, oldest, n),
        k <= n,
    ensures
        can_take(s, oldest, k),
    decreases n,
{
    if k > 0 {
        let t = s.take(oldest)->Ok_0.0;
        lemma_can_take_less(t, oldest, (n - 1) as nat, (k - 1) as nat);
    }
}

/// The pages of a write transaction.
pub struct Pager {
    /// The pages that are written and not yet committed.
    pub over: Vec<Dirty>,
    /// The page numbers as the transaction has taken them.
    pub space: Space,
    /// The pages that the transaction has given up; they go onto the free
    /// list when it commits.
    pub freed: Vec<u64>,
}

impl Pager {
    /// The pages that the transaction sees.
    pub open spec fn map(self, arena: Seq<Page>) -> Pages {
        over_map(arena, self.over@)
    }

    /// The invariant: no two uncommitted pages have one number; their
    /// numbers are numbers of the file and are not free; and what was given
    /// up was given up once, is of the file, and is not on the free list.
    pub open spec fn wf(self) -> bool {
        &&& self.space@.wf()
        &&& forall|k: int, j: int|
            0 <= k < self.over@.len() && 0 <= j < self.over@.len() && k != j ==> (
            #[trigger] self.over@[k]).pgno != (#[trigger] self.over@[j]).pgno
        &&& forall|k: int|
            0 <= k < self.over@.len() ==> (#[trigger] self.over@[k]).pgno < self.space@.next
                && !self.space@.lists(self.over@[k].pgno)
        &&& self.freed@.no_duplicates()
        &&& forall|j: int|
            0 <= j < self.freed@.len() ==> (#[trigger] self.freed@[j]) < self.space@.next
                && !self.space@.lists(self.freed@[j])
    }

    /// Whether page `p` was taken since the state `a`: it is held now and
    /// was not held then. Such a page was new, or was on the free list under
    /// a transaction whose pages may be used again.
    pub open spec fn took(self, a: Pager, p: u64) -> bool {
        holds(self.over@, p) && !holds(a.over@, p)
    }

    /// Whether this state has come from the state `a` by taking pages,
    /// writing pages and giving pages up.
    pub open spec fn grown(self, a: Pager, oldest: Option<u64>) -> bool {
        &&& self.space@.limit == a.space@.limit
        &&& self.space@.next >= a.space@.next
        &&& forall|p: u64| self.space@.lists(p) ==> a.space@.lists(p)
        &&& forall|p: u64, x: u64| self.space@.lists_under(p, x) ==> a.space@.lists_under(p, x)
        &&& forall|p: u64, x: u64|
            a.space@.lists_under(p, x) && !reclaimable(x, oldest) ==> self.space@.lists_under(p, x)
        &&& forall|p: u64| holds(a.over@, p) ==> holds(self.over@, p)
        &&& forall|p: u64| a.space@.lists(p) ==> self.space@.lists(p) || holds(self.over@, p)
        &&& forall|p: u64| a.space@.next <= p < self.space@.next ==> #[trigger] holds(self.over@, p)
        &&& forall|p: u64|
            #[trigger] self.took(a, p) ==> p >= a.space@.next || exists|x: u64|
                reclaimable(x, oldest) && #[trigger] a.space@.lists_under(p, x)
        &&& self.freed@.len() >= a.freed@.len()
        &&& self.freed@.take(a.freed@.len() as int) == a.freed@
    }

    /// The index of the uncommitted page with the number `p`, if there is
    /// one.
    pub fn find(&self, p: u64) -> (r: Option<usize>)
        requires
            self.wf(),
        ensures
            match r {
                Some(k) => k < self.over@.len() && self.over@[k as int].pgno == p && holds(
                    self.over@,
                    p,
                ) && index_of(self.over@, p) == k,
                None => !holds(self.over@, p),
            },
    {
        let mut k: usize = 0;
        while k < self.over.len()
            invariant
                self.wf(),
                k <= self.over.len(),
                forall|j: int| 0 <= j < k ==> (#[trigger] self.over@[j]).pgno != p,
            decreases self.over.len() - k,
        {
            if self.over[k].pgno == p {
                proof {
                    let j = index_of(self.over@, p);
                    assert(self.over@[k as int].pgno == p);
                    assert(self.over@[j].pgno == p);
                }
                return Some(k);
            }
            k += 1;
        }
        None
    }

    /// The page with the number `p`.
    pub fn read<'a>(&'a self, arena: &'a Vec<Page>, p: u64) -> (r: &'a Page)
        requires
            self.wf(),
            self.map(arena@).contains_key(p),
        ensures
            r@ == page(self.map(arena@), p),
    {
        match self.find(p) {
            Some(k) => &self.over[k].page,
            None => {
                let n = arena.len();
                assert(p < n);
                &arena[p as usize]
            },
        }
    }

    /// Writes the uncommitted page at index `k` anew.
    pub fn rewrite(&mut self, k: usize, pg: Page, Ghost(arena): Ghost<Seq<Page>>)
        requires
            old(self).wf(),
            k < old(self).over@.len(),
        ensures
            final(self).wf(),
            final(self).map(arena) == old(self).map(arena).insert(old(self).over@[k as int].pgno, pg@),
            final(self).space == old(self).space,
            final(self).freed == old(self).freed,
            final(self).over@.len() == old(self).over@.len(),
            forall|q: u64| holds(final(self).over@, q) == holds(old(self).over@, q),
    {
        let ghost before = *self;
        let ghost p = self.over@[k as int].pgno;
        self.over[k].page = pg;
        proof {
            let a = before.over@;
            let b = self.over@;
            assert forall|j: int| 0 <= j < b.len() implies (#[trigger] b[j]).pgno == a[j].pgno by {}
            assert forall|q: u64| holds(b, q) == holds(a, q) by {
                if holds(a, q) {
                    let j = choose|j: int| 0 <= j < a.len() && (#[trigger] a[j]).pgno == q;
                    assert(b[j].pgno == q);
                }
                if holds(b, q) {
                    let j = choose|j: int| 0 <= j < b.len() && (#[trigger] b[j]).pgno == q;
                    assert(a[j].pgno == q);
                }
            }
            assert forall|q: u64| holds(b, q) implies #[trigger] index_of(b, q) == index_of(a, q) by {
                let j = index_of(b, q);
                let i = index_of(a, q);
                assert(b[j].pgno == q && a[i].pgno == q);
                assert(a[j].pgno == q);
            }
            assert(self.map(arena) =~= before.map(arena).insert(p, pg@)) by {
                assert forall|q: u64| self.map(arena).contains_key(q) implies #[trigger] self.map(arena)[q]
                    == before.map(arena).insert(p, pg@)[q] by {
                    if holds(b, q) {
                        let j = index_of(b, q);
                        assert(b[j].pgno == q);
                        if q == p {
                            assert(a[j].pgno == a[k as int].pgno);
                        } else {
                            assert(b[j] == a[j]);
                        }
                    }
                }
            }
        }
    }

    /// Takes a page number and holds the given page under it.
    pub fn fresh(&mut self, pg: Page, oldest: Option<u64>, Ghost(arena): Ghost<Seq<Page>>) -> (p: u64)
        requires
            old(self).wf(),
            old(self).space@.has_room(oldest),
        ensures
            final(self).wf(),
            final(self).grown(*old(self), oldest),
            final(self).map(arena) == old(self).map(arena).insert(p, pg@),
            final(self).took(*old(self), p),
            forall|q: u64| holds(final(self).over@, q) == (holds(old(self).over@, q) || q == p),
            old(self).space@.take(oldest) == Ok::<(SpaceView, u64), MdbxError>(
                (final(self).space@, p),
            ),
            final(self).freed == old(self).freed,
            !old(self).freed@.contains(p),
    {
        let ghost before = *self;
        proof {
            lemma_take_wf(before.space@, oldest);
        }
        let p = match self.space.take(oldest) {
            Ok(p) => p,
            Err(_) => 0,
        };
        proof {
            let a = before.over@;
            if holds(a, p) {
                let j = choose|j: int| 0 <= j < a.len() && (#[trigger] a[j]).pgno == p;
                assert(a[j].pgno < before.space@.next && !before.space@.lists(a[j].pgno));
                if !(p == before.space@.next) {
                    let x = choose|x: u64|
                        reclaimable(x, oldest) && #[trigger] before.space@.lists_under(p, x);
                    lemma_lists(before.space@, p, x);
                }
            }
            if before.freed@.contains(p) {
                let j = choose|j: int| 0 <= j < before.freed@.len() && before.freed@[j] == p;
                assert(before.freed@[j] < before.space@.next && !before.space@.lists(before.freed@[j]));
                if !(p == before.space@.next) {
                    let x = choose|x: u64|
                        reclaimable(x, oldest) && #[trigger] before.space@.lists_under(p, x);
                    lemma_lists(before.space@, p, x);
                }
            }
        }
        self.over.push(Dirty { pgno: p, page: pg });
        proof {
            let a = before.over@;
            let b = self.over@;
            let n = a.len() as int;
            assert(b[n].pgno == p);
            assert forall|j: int| 0 <= j < n implies #[trigger] b[j] == a[j] by {}
            assert forall|q: u64| holds(b, q) == (holds(a, q) || q == p) by {
                if holds(a, q) {
                    let j = choose|j: int| 0 <= j < a.len() && (#[trigger] a[j]).pgno == q;
                    assert(b[j].pgno == q);
                }
                if holds(b, q) && q != p {
                    let j = choose|j: int| 0 <= j < b.len() && (#[trigger] b[j]).pgno == q;
                    assert(a[j].pgno == q);
                }
            }
            assert forall|q: u64| holds(a, q) implies #[trigger] index_of(b, q) == index_of(a, q) by {
                let j = index_of(b, q);
                let i = index_of(a, q);
                assert(b[j].pgno == q && a[i].pgno == q);
                assert(b[i].pgno == q);
            }
            assert(index_of(b, p) == n) by {
                let j = index_of(b, p);
                assert(b[j].pgno == p);
            }
            assert(self.map(arena) =~= before.map(arena).insert(p, pg@));
            assert forall|k: int| 0 <= k < b.len() implies (#[trigger] b[k]).pgno < self.space@.next
                && !self.space@.lists(b[k].pgno) by {
                if k < n {
                    assert(a[k].pgno < before.space@.next && !before.space@.lists(a[k].pgno));
                }
            }
            assert forall|j: int| 0 <= j < self.freed@.len() implies (#[trigger] self.freed@[j])
                < self.space@.next && !self.space@.lists(self.freed@[j]) by {
                assert(before.freed@[j] < before.space@.next && !before.space@.lists(before.freed@[j]));
            }
            assert(self.freed@.take(before.freed@.len() as int) =~= before.freed@);
            if let Some(t) = oldest {
                lemma_take_respects_readers(before.space@, t);
            }
            lemma_take_keeps(before.space@, oldest);
        }
        p
    }

    /// Gives page `p` up.
    pub fn retire(&mut self, p: u64)
        requires
            old(self).wf(),
            !old(self).freed@.contains(p),
            p < old(self).space@.next,
            !old(self).space@.lists(p),
        ensures
            final(self).wf(),
            final(self).freed@ == old(self).freed@.push(p),
            final(self).over == old(self).over,
            final(self).space == old(self).space,
    {
        let ghost before = self.freed@;
        self.freed.push(p);
        proof {
            assert forall|i: int, j: int|
                0 <= i < self.freed@.len() && 0 <= j < self.freed@.len() && i != j implies self.freed@[i]
                != self.freed@[j] by {
                if i < before.len() {
                    assert(before.contains(before[i]));
                }
                if j < before.len() {
                    assert(before.contains(before[j]));
                }
            }
        }
    }
}

/// A page that is on the free list under some transaction is on the free
/// list.
pub proof fn lemma_lists(s: SpaceView, p: u64, x: u64)
    requires
        s.lists_under(p, x),
    ensures
        s.lists(p),
{
    let (r, j) = choose|r: int, j: int|
        0 <= r < s.free.len() && 0 <= j < s.free[r].pages.len() && s.free[r].txnid == x
            && #[trigger] s.free[r].pages[j] == p;
    assert(s.free[r].pages[j] == p);
}

/// Growing after growing is growing.
pub proof fn lemma_grown_trans(a: Pager, b: Pager, c: Pager, oldest: Option<u64>)
    requires
        b.grown(a, oldest),
        c.grown(b, oldest),
        b.wf(),
    ensures
        c.grown(a, oldest),
{
    assert forall|p: u64| #[trigger] c.took(a, p) implies p >= a.space@.next || exists|x: u64|
        reclaimable(x, oldest) && #[trigger] a.space@.lists_under(p, x) by {
        if b.took(a, p) {
        } else {
            assert(c.took(b, p));
            if p >= b.space@.next {
            } else {
                let x = choose|x: u64|
                    reclaimable(x, oldest) && #[trigger] b.space@.lists_under(p, x);
                assert(a.space@.lists_under(p, x));
            }
        }
    }
    assert(c.freed@.take(a.freed@.len() as int) =~= a.freed@) by {
        assert forall|j: int| 0 <= j < a.freed@.len() implies c.freed@[j] == a.freed@[j] by {
            assert(c.freed@.take(b.freed@.len() as int)[j] == b.freed@[j]);
            assert(b.freed@.take(a.freed@.len() as int)[j] == a.freed@[j]);
        }
    }
}

/// The number of pages that can be taken one after the other: the pages of
/// the records at the head of the free list that may be used again, and the
/// pages that the file may still grow by.
pub open spec fn ready(s: SpaceView, oldest: Option<u64>) -> nat
    decreases s.free.len(),
{
    if s.free.len() > 0 && reclaimable(s.free[0].txnid, oldest) {
        s.free[0].pages.len() + ready(SpaceView { free: s.free.skip(1), ..s }, oldest)
    } else {
        (s.limit - s.next) as nat
    }
}

/// As many pages can be taken as are ready.
pub proof fn lemma_ready_pages(s: SpaceView, oldest: Option<u64>, n: nat)
    requires
        s.wf(),
    ensures
        can_take(s, oldest, n) <==> n <= ready(s, oldest),
    decreases n,
{
    if n > 0 {
        lemma_take_wf(s, oldest);
        if s.free.len() > 0 && reclaimable(s.free[0].txnid, oldest) {
            let t = s.take(oldest)->Ok_0.0;
            let rest = SpaceView { free: s.free.skip(1), ..s };
            if s.free[0].pages.len() == 1 {
                assert(t.free =~= s.free.skip(1));
                assert(t == rest);
            } else {
                assert(t.free.skip(1) =~= s.free.skip(1));
                assert(SpaceView { free: t.free.skip(1), ..t } == rest);
            }
            assert(ready(t, oldest) + 1 == ready(s, oldest));
            lemma_ready_pages(t, oldest, (n - 1) as nat);
        } else if s.next < s.limit {
            let t = s.take(oldest)->Ok_0.0;
            assert(ready(t, oldest) + 1 == ready(s, oldest));
            lemma_ready_pages(t, oldest, (n - 1) as nat);
        }
    }
}

/// The pages of the records from `k` on that may be used again count with
/// the pages of the records before them, if those may all be used again.
proof fn lemma_ready_skip(s: SpaceView, oldest: Option<u64>, k: int)
    requires
        0 <= k < s.free.len(),
        reclaimable(s.free[k].txnid, oldest),
    ensures
        ready(SpaceView { free: s.free.skip(k), ..s }, oldest) == s.free[k].pages.len() + ready(
            SpaceView { free: s.free.skip(k + 1), ..s },
            oldest,
        ),
{
    let a = SpaceView { free: s.free.skip(k), ..s };
    assert(a.free[0] == s.free[k]);
    assert(a.free.skip(1) =~= s.free.skip(k + 1));
}

/// Whether `n` pages can be taken one after the other.
pub fn has_room_for(space: &Space, oldest: Option<u64>, n: usize) -> (b: bool)
    requires
        space@.wf(),
    ensures
        b == can_take(space@, oldest, n as nat),
{
    let ghost s = space@;
    let mut have: u64 = space.limit - space.next;
    let ghost mut sum: nat = 0;
    let mut k: usize = 0;
    let mut go = true;
    proof {
        assert(s.free.skip(0) =~= s.free);
    }
    while go && k < space.free.len()
        invariant
            s == space@,
            k <= space.free@.len(),
            s.free.len() == space.free@.len(),
            ready(s, oldest) == sum + ready(SpaceView { free: s.free.skip(k as int), ..s }, oldest),
            !go ==> k < space.free@.len() && !reclaimable(s.free[k as int].txnid, oldest),
            have == capped(sum + (s.limit - s.next) as nat),
        decreases space.free@.len() - k + (if go { 1int } else { 0int }),
    {
        assert(s.free[k as int] == space.free@[k as int]@);
        if is_reclaimable(space.free[k].txnid, oldest) {
            proof {
                lemma_ready_skip(s, oldest, k as int);
                sum = sum + s.free[k as int].pages.len();
            }
            let m = space.free[k].pages.len() as u64;
            have = have.saturating_add(m);
            k = k + 1;
        } else {
            go = false;
        }
    }
    proof {
        let rest = SpaceView { free: s.free.skip(k as int), ..s };
        if k < s.free.len() {
            assert(rest.free[0] == s.free[k as int]);
        }
        assert(ready(rest, oldest) == (s.limit - s.next) as nat);
        lemma_ready_pages(s, oldest, n as nat);
    }
    n as u64 <= have
}

/// Whether two pagers hold the same pages under the same numbers, with
/// the same page numbers taken and given up.
pub open spec fn same_pager(a: Pager, b: Pager) -> bool {
    &&& a.over@.len() == b.over@.len()
    &&& forall|k: int|
        0 <= k < a.over@.len() ==> (#[trigger] a.over@[k]).pgno == b.over@[k].pgno && a.over@[k].page@
            == b.over@[k].page@
    &&& a.space@ == b.space@
    &&& a.freed@ == b.freed@
}

/// A pager that holds the same as a pager in order is in order and shows
/// the same pages.
pub proof fn lemma_same_pager(a: Pager, b: Pager, arena: Seq<Page>)
    requires
        same_pager(a, b),
        a.wf(),
    ensures
        a.map(arena) == b.map(arena),
        b.wf(),
        forall|p: u64| holds(a.over@, p) == holds(b.over@, p),
{
    assert forall|p: u64| holds(a.over@, p) == holds(b.over@, p) by {
        if holds(a.over@, p) {
            let k = choose|k: int| 0 <= k < a.over@.len() && (#[trigger] a.over@[k]).pgno == p;
            assert(b.over@[k].pgno == p);
        }
        if holds(b.over@, p) {
            let k = choose|k: int| 0 <= k < b.over@.len() && (#[trigger] b.over@[k]).pgno == p;
            assert(a.over@[k].pgno == p);
        }
    }
    assert forall|k: int, j: int|
        0 <= k < b.over@.len() && 0 <= j < b.over@.len() && k != j implies (#[trigger] b.over@[k]).pgno
        != (#[trigger] b.over@[j]).pgno by {
        assert(a.over@[k].pgno != a.over@[j].pgno);
    }
    assert forall|k: int| 0 <= k < b.over@.len() implies (#[trigger] b.over@[k]).pgno < b.space@.next
        && !b.space@.lists(b.over@[k].pgno) by {
        assert(a.over@[k].pgno == b.over@[k].pgno);
    }
    assert forall|p: u64| holds(a.over@, p) implies a.over@[index_of(a.over@, p)].page@
        == b.over@[index_of(b.over@, p)].page@ by {
        let i = index_of(a.over@, p);
        let j = index_of(b.over@, p);
        assert(a.over@[i].pgno == p);
        assert(b.over@[j].pgno == p);
        assert(a.over@[j].pgno == p);
        assert(i == j);
    }
    assert(a.map(arena) =~= b.map(arena));
}

} // verus!
