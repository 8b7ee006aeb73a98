//! Page numbers: which are in use, which are free, and which of the free
//! ones may be handed out again.
//!
//! A write transaction that replaces a page frees the old one, which readers
//! of older snapshots may still see. The free list keeps each freed page
//! under the number of the transaction that freed it. A page is handed out
//! again only when every reader's snapshot is newer than that transaction;
//! until then new pages extend the file, up to its limit.
use crate::error::MdbxError;
use vstd::prelude::*;

verus! {

/// The pages that one transaction freed.
pub struct FreeRecord {
    pub txnid: u64,
    pub pages: Vec<u64>,
}

/// The pages that one transaction freed, as a mathematical value.
pub struct FreeView {
    pub txnid: u64,
    pub pages: Seq<u64>,
}

impl View for FreeRecord {
    type V = FreeView;

    open spec fn view(&self) -> FreeView {
        FreeView { txnid: self.txnid, pages: self.pages@ }
    }
}

/// The records that the vector holds, as mathematical values.
pub open spec fn free_view(rs: Seq<FreeRecord>) -> Seq<FreeView> {
    Seq::new(rs.len(), |i: int| rs[i]@)
}

/// The state of the page numbers: how many pages the file has, how many it
/// may have, and the free list, oldest record first.
pub struct SpaceView {
    /// The number of pages of the file; the next new page gets this number.
    pub next: u64,
    /// The number of pages that the file may have at most.
    pub limit: u64,
    /// The freed pages, by the transaction that freed them.
    pub free: Seq<FreeView>,
}

/// Whether pages that transaction `txnid` freed may be used again while the
/// oldest snapshot that a reader holds is `oldest`: with no reader any page
/// may; with readers only pages freed before the oldest snapshot.
pub open spec fn reclaimable(txnid: u64, oldest: Option<u64>) -> bool {
    match oldest {
        None => true,
        Some(t) => txnid < t,
    }
}

impl SpaceView {
    /// Whether page `p` is on the free list.
    pub open spec fn lists(self, p: u64) -> bool {
        exists|r: int, j: int|
            0 <= r < self.free.len() && 0 <= j < self.free[r].pages.len()
                && #[trigger] self.free[r].pages[j] == p
    }

    /// Whether page `p` is on the free list under transaction `txnid`.
    pub open spec fn lists_under(self, p: u64, txnid: u64) -> bool {
        exists|r: int, j: int|
            0 <= r < self.free.len() && 0 <= j < self.free[r].pages.len()
                && self.free[r].txnid == txnid && #[trigger] self.free[r].pages[j] == p
    }

    /// The invariant: the file is within its limit; no record is empty; the
    /// records are in the order of their transactions; every free page is a
    /// page of the file; and no page is listed twice.
    pub open spec fn wf(self) -> bool {
        &&& self.next <= self.limit
        &&& forall|r: int| 0 <= r < self.free.len() ==> (#[trigger] self.free[r]).pages.len() > 0
        &&& forall|r: int, s: int|
            0 <= r < s < self.free.len() ==> (#[trigger] self.free[r]).txnid
                < (#[trigger] self.free[s]).txnid
        &&& forall|r: int, j: int|
            0 <= r < self.free.len() && 0 <= j < self.free[r].pages.len()
                ==> #[trigger] self.free[r].pages[j] < self.next
        &&& forall|r: int, j: int, s: int, k: int|
            0 <= r < self.free.len() && 0 <= j < self.free[r].pages.len() && 0 <= s
                < self.free.len() && 0 <= k < self.free[s].pages.len() && (r != s || j != k)
                ==> #[trigger] self.free[r].pages[j] != #[trigger] self.free[s].pages[k]
    }

    /// Whether a page can be had: one that may be used again, or a new one.
    pub open spec fn has_room(self, oldest: Option<u64>) -> bool {
        (self.free.len() > 0 && reclaimable(self.free[0].txnid, oldest)) || self.next < self.limit
    }

    /// What taking a page does: the state afterwards and the page, or
    /// map-full. The oldest record is looked at first: if its pages may be
    /// used again, its last page is taken, and the record goes when it is
    /// empty. Only otherwise the file grows by one page, and only below its
    /// limit.
    pub open spec fn take(self, oldest: Option<u64>) -> Result<(SpaceView, u64), MdbxError> {
        if self.free.len() > 0 && reclaimable(self.free[0].txnid, oldest) {
            let rec = self.free[0];
            let rest = FreeView { txnid: rec.txnid, pages: rec.pages.drop_last() };
            let free = if rest.pages.len() == 0 {
                self.free.remove(0)
            } else {
                self.free.update(0, rest)
            };
            Ok((SpaceView { next: self.next, limit: self.limit, free }, rec.pages.last()))
        } else if self.next < self.limit {
            Ok(
                (
                    SpaceView { next: (self.next + 1) as u64, limit: self.limit, free: self.free },
                    self.next,
                ),
            )
        } else {
            Err(MdbxError::MapFull)
        }
    }

    /// The free list after transaction `txnid` gave back `pages`: a new
    /// record at the end, or the list as it was if there are no pages.
    pub open spec fn give(self, txnid: u64, pages: Seq<u64>) -> SpaceView {
        if pages.len() == 0 {
            self
        } else {
            SpaceView {
                next: self.next,
                limit: self.limit,
                free: self.free.push(FreeView { txnid, pages }),
            }
        }
    }
}

/// Taking a page keeps the invariant. The page is a page of the file
/// afterwards and is no longer free.
pub proof fn lemma_take_wf(s: SpaceView, oldest: Option<u64>)
    requires
        s.wf(),
    ensures
        s.take(oldest) matches Ok((t, p)) ==> t.wf() && p < t.next && !t.lists(p) && t.limit
            == s.limit && t.next >= s.next && (forall|q: u64|
            t.lists(q) ==> s.lists(q)) && (forall|q: u64, x: u64|
            t.lists_under(q, x) ==> s.lists_under(q, x)) && ((p == s.next && t.next == s.next + 1)
            || (t.next == s.next && exists|x: u64|
            reclaimable(x, oldest) && #[trigger] s.lists_under(p, x))),
{
    if let Ok((t, p)) = s.take(oldest) {
        if s.free.len() > 0 && reclaimable(s.free[0].txnid, oldest) {
            let rec = s.free[0];
            let n = rec.pages.len() - 1;
            assert(s.free[0].pages[n] == p);
            assert(s.lists_under(p, rec.txnid));
            let gone = rec.pages.len() == 1;
            assert forall|r: int, j: int|
                0 <= r < t.free.len() && 0 <= j < t.free[r].pages.len() implies {
                let r0 = if gone { r + 1 } else { r };
                &&& 0 <= r0 < s.free.len()
                &&& 0 <= j < s.free[r0].pages.len()
                &&& #[trigger] t.free[r].pages[j] == s.free[r0].pages[j]
                &&& t.free[r].txnid == s.free[r0].txnid
                &&& (r0 != 0 || j != n)
            } by {}
            assert forall|r: int, j: int, u: int, k: int|
                0 <= r < t.free.len() && 0 <= j < t.free[r].pages.len() && 0 <= u < t.free.len()
                    && 0 <= k < t.free[u].pages.len() && (r != u || j != k) implies #[trigger] t.free[r].pages[j]
                != #[trigger] t.free[u].pages[k] by {
                let r0 = if gone { r + 1 } else { r };
                let u0 = if gone { u + 1 } else { u };
                assert(t.free[r].pages[j] == s.free[r0].pages[j]);
                assert(t.free[u].pages[k] == s.free[u0].pages[k]);
            }
            assert forall|r: int, u: int| 0 <= r < u < t.free.len() implies (#[trigger] t.free[r]).txnid
                < (#[trigger] t.free[u]).txnid by {
                let r0 = if gone { r + 1 } else { r };
                let u0 = if gone { u + 1 } else { u };
                assert(t.free[r].txnid == s.free[r0].txnid);
                assert(t.free[u].txnid == s.free[u0].txnid);
            }
            assert forall|r: int| 0 <= r < t.free.len() implies (#[trigger] t.free[r]).pages.len()
                > 0 by {
                let r0 = if gone { r + 1 } else { r };
                assert(t.free[r].pages.len() > 0 || s.free[r0].pages.len() > 0);
            }
            assert forall|r: int, j: int|
                0 <= r < t.free.len() && 0 <= j < t.free[r].pages.len() implies #[trigger] t.free[r].pages[j]
                < t.next by {
                let r0 = if gone { r + 1 } else { r };
                assert(t.free[r].pages[j] == s.free[r0].pages[j]);
            }
            if t.lists(p) {
                let (r, j) = choose|r: int, j: int|
                    0 <= r < t.free.len() && 0 <= j < t.free[r].pages.len()
                        && #[trigger] t.free[r].pages[j] == p;
                let r0 = if gone { r + 1 } else { r };
                assert(t.free[r].pages[j] == s.free[r0].pages[j]);
            }
            assert forall|q: u64| t.lists(q) implies s.lists(q) by {
                let (r, j) = choose|r: int, j: int|
                    0 <= r < t.free.len() && 0 <= j < t.free[r].pages.len()
                        && #[trigger] t.free[r].pages[j] == q;
                let r0 = if gone { r + 1 } else { r };
                assert(s.free[r0].pages[j] == q);
            }
            assert forall|q: u64, x: u64| t.lists_under(q, x) implies s.lists_under(q, x) by {
                let (r, j) = choose|r: int, j: int|
                    0 <= r < t.free.len() && 0 <= j < t.free[r].pages.len() && t.free[r].txnid
                        == x && #[trigger] t.free[r].pages[j] == q;
                let r0 = if gone { r + 1 } else { r };
                assert(s.free[r0].pages[j] == q);
            }
        } else {
            if t.lists(p) {
                let (r, j) = choose|r: int, j: int|
                    0 <= r < t.free.len() && 0 <= j < t.free[r].pages.len()
                        && #[trigger] t.free[r].pages[j] == p;
                assert(s.free[r].pages[j] < s.next);
            }
        }
    }
}

/// Giving pages back keeps the invariant, if the pages are pages of the
/// file, are not free already, are named once, and come from a transaction
/// later than every one on the list. Afterwards exactly they have joined the
/// free list, under that transaction.
pub proof fn lemma_give_wf(s: SpaceView, txnid: u64, pages: Seq<u64>)
    requires
        s.wf(),
        pages.no_duplicates(),
        forall|j: int| 0 <= j < pages.len() ==> (#[trigger] pages[j]) < s.next,
        forall|p: u64| pages.contains(p) ==> !s.lists(p),
        forall|r: int| 0 <= r < s.free.len() ==> (#[trigger] s.free[r]).txnid < txnid,
    ensures
        s.give(txnid, pages).wf(),
        s.give(txnid, pages).next == s.next,
        s.give(txnid, pages).limit == s.limit,
        forall|p: u64| s.give(txnid, pages).lists(p) <==> s.lists(p) || pages.contains(p),
        forall|p: u64, x: u64|
            (#[trigger] s.give(txnid, pages).lists_under(p, x)) <==> s.lists_under(p, x) || (x
                == txnid && pages.contains(p)),
        forall|r: int|
            0 <= r < s.give(txnid, pages).free.len() ==> (#[trigger] s.give(txnid, pages).free[r]).txnid
                <= txnid,
{
    let t = s.give(txnid, pages);
    let n = s.free.len() as int;
    if pages.len() > 0 {
        assert forall|r: int, j: int| 0 <= r < n && 0 <= j < s.free[r].pages.len() implies #[trigger] t.free[r].pages[j]
            == s.free[r].pages[j] by {}
        assert forall|r: int, j: int, u: int, k: int|
            0 <= r < t.free.len() && 0 <= j < t.free[r].pages.len() && 0 <= u < t.free.len() && 0
                <= k < t.free[u].pages.len() && (r != u || j != k) implies #[trigger] t.free[r].pages[j]
            != #[trigger] t.free[u].pages[k] by {
            if r < n && u < n {
                assert(s.free[r].pages[j] != s.free[u].pages[k]);
            } else if r == n && u == n {
                assert(pages[j] != pages[k]);
            } else if r == n {
                assert(pages.contains(pages[j]));
                assert(s.free[u].pages[k] == t.free[u].pages[k]);
                assert(s.lists(s.free[u].pages[k]));
            } else {
                assert(pages.contains(pages[k]));
                assert(s.free[r].pages[j] == t.free[r].pages[j]);
                assert(s.lists(s.free[r].pages[j]));
            }
        }
        assert forall|r: int, j: int|
            0 <= r < t.free.len() && 0 <= j < t.free[r].pages.len() implies #[trigger] t.free[r].pages[j]
            < t.next by {
            if r < n {
                assert(s.free[r].pages[j] < s.next);
            } else {
                assert(pages[j] < s.next);
            }
        }
        assert forall|r: int, u: int| 0 <= r < u < t.free.len() implies (#[trigger] t.free[r]).txnid
            < (#[trigger] t.free[u]).txnid by {
            assert(t.free[r] == s.free[r]);
            if u < n {
                assert(t.free[u] == s.free[u]);
            }
        }
        assert forall|r: int| 0 <= r < t.free.len() implies (#[trigger] t.free[r]).pages.len() > 0
            && t.free[r].txnid <= txnid by {
            if r < n {
                assert(t.free[r] == s.free[r]);
            }
        }
    }
    assert forall|p: u64| t.lists(p) <==> s.lists(p) || pages.contains(p) by {
        if t.lists(p) {
            let (r, j) = choose|r: int, j: int|
                0 <= r < t.free.len() && 0 <= j < t.free[r].pages.len()
                    && #[trigger] t.free[r].pages[j] == p;
            if r < n {
                assert(s.free[r].pages[j] == p);
            } else {
                assert(pages[j] == p);
            }
        }
        if s.lists(p) {
            let (r, j) = choose|r: int, j: int|
                0 <= r < s.free.len() && 0 <= j < s.free[r].pages.len()
                    && #[trigger] s.free[r].pages[j] == p;
            assert(t.free[r].pages[j] == p);
        }
        if pages.contains(p) {
            let j = choose|j: int| 0 <= j < pages.len() && pages[j] == p;
            assert(t.free[n].pages[j] == p);
        }
    }
    assert forall|p: u64, x: u64| (#[trigger] t.lists_under(p, x)) <==> s.lists_under(p, x) || (x
        == txnid && pages.contains(p)) by {
        if t.lists_under(p, x) {
            let (r, j) = choose|r: int, j: int|
                0 <= r < t.free.len() && 0 <= j < t.free[r].pages.len() && t.free[r].txnid == x
                    && #[trigger] t.free[r].pages[j] == p;
            if r < n {
                assert(s.free[r].pages[j] == p);
            } else {
                assert(pages[j] == p);
            }
        }
        if s.lists_under(p, x) {
            let (r, j) = choose|r: int, j: int|
                0 <= r < s.free.len() && 0 <= j < s.free[r].pages.len() && s.free[r].txnid == x
                    && #[trigger] s.free[r].pages[j] == p;
            assert(t.free[r].pages[j] == p);
        }
        if x == txnid && pages.contains(p) {
            let j = choose|j: int| 0 <= j < pages.len() && pages[j] == p;
            assert(t.free[n].pages[j] == p);
        }
    }
}

/// A page is taken from the free list whenever the oldest record may be
/// used again; the file grows only when it may not.
pub proof fn law_free_pages_are_taken_first(s: SpaceView, oldest: Option<u64>)
    requires
        s.wf(),
        s.free.len() > 0,
        reclaimable(s.free[0].txnid, oldest),
    ensures
        s.take(oldest) is Ok,
        s.take(oldest)->Ok_0.0.next == s.next,
        s.lists_under(s.take(oldest)->Ok_0.1, s.free[0].txnid),
{
    let n = s.free[0].pages.len() - 1;
    assert(s.free[0].pages[n] == s.take(oldest)->Ok_0.1);
}

/// Taking a page takes that page alone: every other free page stays on
/// the free list.
pub proof fn lemma_take_keeps(s: SpaceView, oldest: Option<u64>)
    requires
        s.wf(),
    ensures
        s.take(oldest) matches Ok((t, p)) ==> forall|q: u64| s.lists(q) && q != p ==> t.lists(q),
{
    if let Ok((t, p)) = s.take(oldest) {
        if s.free.len() > 0 && reclaimable(s.free[0].txnid, oldest) {
            let n = s.free[0].pages.len() - 1;
            let gone = s.free[0].pages.len() == 1;
            assert forall|q: u64| s.lists(q) && q != p implies t.lists(q) by {
                let (r, j) = choose|r: int, j: int|
                    0 <= r < s.free.len() && 0 <= j < s.free[r].pages.len()
                        && #[trigger] s.free[r].pages[j] == q;
                if r == 0 {
                    assert(j != n);
                    assert(!gone);
                    assert(t.free[0].pages[j] == q);
                } else {
                    let r1 = if gone {
                        r - 1
                    } else {
                        r
                    };
                    assert(t.free[r1].pages[j] == q);
                }
            }
        } else {
            assert forall|q: u64| s.lists(q) implies t.lists(q) by {
                let (r, j) = choose|r: int, j: int|
                    0 <= r < s.free.len() && 0 <= j < s.free[r].pages.len()
                        && #[trigger] s.free[r].pages[j] == q;
                assert(t.free[r].pages[j] == q);
            }
        }
    }
}

/// While a reader holds the snapshot `t`, no page that was freed by
/// transaction `t` or a later one is handed out: the page taken is new or
/// was freed before `t`, and every record of `t` or later stays as it is.
pub proof fn lemma_take_respects_readers(s: SpaceView, t: u64)
    requires
        s.wf(),
    ensures
        s.take(Some(t)) matches Ok((a, p)) ==> {
            &&& p == s.next || exists|x: u64| x < t && s.lists_under(p, x)
            &&& forall|q: u64, x: u64| x >= t && s.lists_under(q, x) ==> a.lists_under(q, x)
        },
{
    if let Ok((a, p)) = s.take(Some(t)) {
        if s.free.len() > 0 && reclaimable(s.free[0].txnid, Some(t)) {
            let n = s.free[0].pages.len() - 1;
            assert(s.free[0].pages[n] == p);
            assert(s.lists_under(p, s.free[0].txnid));
            let gone = s.free[0].pages.len() == 1;
            assert forall|q: u64, x: u64| x >= t && s.lists_under(q, x) implies a.lists_under(
                q,
                x,
            ) by {
                let (r, j) = choose|r: int, j: int|
                    0 <= r < s.free.len() && 0 <= j < s.free[r].pages.len() && s.free[r].txnid
                        == x && #[trigger] s.free[r].pages[j] == q;
                assert(r != 0);
                let r1 = if gone { r - 1 } else { r };
                assert(a.free[r1].pages[j] == q);
                assert(a.free[r1].txnid == x);
            }
        } else {
            assert(a.free == s.free);
            assert forall|q: u64, x: u64| x >= t && s.lists_under(q, x) implies a.lists_under(
                q,
                x,
            ) by {
                let (r, j) = choose|r: int, j: int|
                    0 <= r < s.free.len() && 0 <= j < s.free[r].pages.len() && s.free[r].txnid
                        == x && #[trigger] s.free[r].pages[j] == q;
                assert(a.free[r].pages[j] == q);
            }
        }
    }
}

/// The page numbers of a file and its free list.
pub struct Space {
    pub next: u64,
    pub limit: u64,
    pub free: Vec<FreeRecord>,
}

impl View for Space {
    type V = SpaceView;

    open spec fn view(&self) -> SpaceView {
        SpaceView { next: self.next, limit: self.limit, free: free_view(self.free@) }
    }
}

/// Whether pages that transaction `txnid` freed may be used again while the
/// oldest snapshot that a reader holds is `oldest`.
pub fn is_reclaimable(txnid: u64, oldest: Option<u64>) -> (b: bool)
    ensures
        b == reclaimable(txnid, oldest),
{
    match oldest {
        None => true,
        Some(t) => txnid < t,
    }
}

impl Space {
    /// An empty file that may grow to `limit` pages.
    pub fn new(limit: u64) -> (s: Space)
        ensures
            s@ == (SpaceView { next: 0, limit, free: Seq::empty() }),
            s@.wf(),
    {
        let s = Space { next: 0, limit, free: Vec::new() };
        assert(s@.free =~= Seq::empty());
        s
    }

    /// Whether a page can be had.
    pub fn has_room(&self, oldest: Option<u64>) -> (b: bool)
        ensures
            b == self@.has_room(oldest),
    {
        if self.free.len() > 0 {
            assert(self@.free[0] == self.free@[0]@);
            if is_reclaimable(self.free[0].txnid, oldest) {
                return true;
            }
        }
        self.next < self.limit
    }

    /// Takes a page: one from the free list that no reader can see any
    /// more, else a new one, else fails with map-full.
    pub fn take(&mut self, oldest: Option<u64>) -> (r: Result<u64, MdbxError>)
        requires
            old(self)@.wf(),
        ensures
            final(self)@.wf(),
            match old(self)@.take(oldest) {
                Ok((s, p)) => r == Ok::<u64, MdbxError>(p) && final(self)@ == s,
                Err(e) => r == Err::<u64, MdbxError>(e) && final(self)@ == old(self)@,
            },
            r is Ok <==> old(self)@.has_room(oldest),
    {
        let ghost before = self@;
        proof {
            lemma_take_wf(before, oldest);
        }
        if self.free.len() > 0 {
            assert(before.free[0] == self.free@[0]@);
            if is_reclaimable(self.free[0].txnid, oldest) {
                let n = self.free[0].pages.len();
                let p = self.free[0].pages[n - 1];
                if n == 1 {
                    self.free.remove(0);
                    assert(self@.free =~= before.free.remove(0));
                } else {
                    self.free[0].pages.pop();
                    assert(self@.free =~= before.free.update(
                        0,
                        FreeView { txnid: before.free[0].txnid, pages: before.free[0].pages.drop_last() },
                    ));
                }
                return Ok(p);
            }
        }
        if self.next < self.limit {
            let p = self.next;
            self.next = self.next + 1;
            Ok(p)
        } else {
            Err(MdbxError::MapFull)
        }
    }

    /// Puts the pages that transaction `txnid` freed on the free list.
    pub fn give(&mut self, txnid: u64, pages: Vec<u64>)
        ensures
            final(self)@ == old(self)@.give(txnid, pages@),
    {
        let ghost before = self@;
        if pages.len() > 0 {
            let rec = FreeRecord { txnid, pages };
            self.free.push(rec);
            assert(self@.free =~= before.free.push(rec@));
        }
    }

    /// A copy of the state.
    pub fn copy(&self) -> (s: Space)
        ensures
            s@ == self@,
    {
        let mut free: Vec<FreeRecord> = Vec::new();
        let mut i: usize = 0;
        while i < self.free.len()
            invariant
                i <= self.free.len(),
                free.len() == i,
                forall|j: int| 0 <= j < i ==> free@[j]@ == self.free@[j]@,
            decreases self.free.len() - i,
        {
            free.push(FreeRecord { txnid: self.free[i].txnid, pages: self.free[i].pages.clone() });
            i += 1;
        }
        let s = Space { next: self.next, limit: self.limit, free };
        assert(s@.free =~= self@.free);
        s
    }

    /// The number of pages on the free list; it stops at the largest
    /// number that fits.
    pub fn free_pages(&self) -> (n: u64)
        ensures
            n == free_count(self@.free) || (n == u64::MAX && free_count(self@.free) > u64::MAX),
    {
        let mut n: u64 = 0;
        let mut i: usize = 0;
        let ghost fv = self@.free;
        assert(fv.take(0) =~= Seq::<FreeView>::empty());
        while i < self.free.len()
            invariant
                i <= self.free.len(),
                fv == self@.free,
                fv.len() == self.free.len(),
                n == free_count(fv.take(i as int)) || (n == u64::MAX && free_count(fv.take(i as int))
                    > u64::MAX),
            decreases self.free.len() - i,
        {
            let m = self.free[i].pages.len() as u64;
            proof {
                assert(fv.take(i + 1).drop_last() =~= fv.take(i as int));
                assert(fv.take(i + 1).last() == self.free@[i as int]@);
            }
            n = if m > u64::MAX - n { u64::MAX } else { n + m };
            i += 1;
        }
        assert(fv.take(i as int) =~= fv);
        n
    }
}

/// The number of pages in the given records.
pub open spec fn free_count(free: Seq<FreeView>) -> nat
    decreases free.len(),
{
    if free.len() == 0 {
        0
    } else {
        free_count(free.drop_last()) + free.last().pages.len()
    }
}

} // verus!
