//! The entries of a sub-database as a transaction reads them from its tree,
//! and the plans of the changes that a put or a delete makes to them.
//!
//! A change is first planned against the entries as they are, which may
//! refuse it, and then carried out on the tree. Between the two the caller
//! can make sure that the pages may be written.
use crate::btree::{get, Tree};
use crate::constants::MDBX_MAXDATASIZE;
use crate::error::MdbxError;
use crate::flags::{DbFlags, PutFlags};
use crate::leaf::{copy_vals, find_val, key_len_fits, vals_view, DelPlan, Entry, PutPlan};
use crate::model::{
    entry_ok, keys_of, lemma_lower_bound, lemma_lower_bound_unique, lemma_position, lower_bound,
    position, sorted, DbView, EntryView,
};
use crate::order::{bytes_lt, compare_bytes, lemma_order_transitive, ByteOrder};
use crate::pager::Pager;
use crate::tree::Page;
use vstd::prelude::*;
use vstd::slice::slice_to_vec;

verus! {

/// The entries of a tree, as a transaction reads them.
pub struct Rows<'a> {
    /// The pages of the transaction.
    pub pg: &'a Pager,
    /// The committed pages.
    pub arena: &'a Vec<Page>,
    /// The tree.
    pub tree: Tree,
    /// The number of items that a page holds at most.
    pub cap: Ghost<nat>,
}

impl<'a> View for Rows<'a> {
    type V = Seq<EntryView>;

    open spec fn view(&self) -> Seq<EntryView> {
        self.tree.entries(self.pg.map(self.arena@))
    }
}

impl<'a> Rows<'a> {
    /// The invariant: the pages and the tree are in order.
    pub open spec fn ok(&self) -> bool {
        &&& self.pg.wf()
        &&& self.tree.ok(self.pg.map(self.arena@), self.cap@)
        &&& self.tree.count == self@.len()
    }

    /// The sub-database that the entries make with the flags.
    pub open spec fn db(&self, flags: DbFlags) -> DbView {
        DbView { flags, entries: self@ }
    }

    /// The number of entries.
    pub fn len(&self) -> (n: usize)
        requires
            self.ok(),
        ensures
            n == self@.len(),
    {
        self.tree.count
    }

    /// Entry `i`.
    pub fn at(&self, i: usize) -> (e: &'a Entry)
        requires
            self.ok(),
            i < self@.len(),
        ensures
            e@ == self@[i as int],
    {
        get(&self.tree, self.pg, self.arena, i, Ghost(self.cap@))
    }
}

/// The index of the first key that does not sort before `k`, and whether
/// that key is `k`.
pub fn find_key(ord: ByteOrder, rows: &Rows, k: &[u8]) -> (r: (usize, bool))
    requires
        rows.ok(),
        sorted(ord, keys_of(rows@)),
    ensures
        r.0 == lower_bound(ord, keys_of(rows@), k@),
        r.1 == (position(ord, keys_of(rows@), k@) is Some),
        r.0 <= rows@.len(),
{
    let ghost ks = keys_of(rows@);
    let mut lo: usize = 0;
    let mut hi: usize = rows.len();
    while lo < hi
        invariant
            0 <= lo <= hi <= rows@.len(),
            rows.ok(),
            ks == keys_of(rows@),
            sorted(ord, ks),
            forall|j: int| 0 <= j < lo ==> bytes_lt(ord, #[trigger] ks[j], k@),
            forall|j: int| hi <= j < ks.len() ==> !bytes_lt(ord, #[trigger] ks[j], k@),
        decreases hi - lo,
    {
        let mid: usize = lo + (hi - lo) / 2;
        let c = compare_bytes(ord, rows.at(mid).key.as_slice(), k);
        assert(ks[mid as int] == rows@[mid as int].key);
        if c < 0 {
            proof {
                assert forall|j: int| 0 <= j < mid + 1 implies bytes_lt(ord, #[trigger] ks[j], k@) by {
                    if j < mid {
                        lemma_order_transitive(ord, ks[j], ks[mid as int], k@);
                    }
                }
            }
            lo = mid + 1;
        } else {
            proof {
                assert forall|j: int| mid <= j < ks.len() implies !bytes_lt(
                    ord,
                    #[trigger] ks[j],
                    k@,
                ) by {
                    if j > mid && bytes_lt(ord, ks[j], k@) {
                        lemma_order_transitive(ord, ks[mid as int], ks[j], k@);
                    }
                }
            }
            hi = mid;
        }
    }
    proof {
        lemma_lower_bound_unique(ord, ks, k@, lo as int);
    }
    if lo < rows.len() {
        assert(ks[lo as int] == rows@[lo as int].key);
        let c = compare_bytes(ord, rows.at(lo).key.as_slice(), k);
        (lo, c == 0)
    } else {
        (lo, false)
    }
}

/// Whether a sub-database with these flags and entries takes a value of
/// `len` bytes.
pub fn val_len_fits(flags: &DbFlags, rows: &Rows, len: usize) -> (b: bool)
    requires
        rows.ok(),
        rows.db(*flags).wf(),
    ensures
        forall|v: Seq<u8>| v.len() == len ==> b == #[trigger] rows.db(*flags).val_fits(v),
{
    if len > MDBX_MAXDATASIZE as usize {
        return false;
    }
    if flags.integer_dup && len != 4 && len != 8 {
        return false;
    }
    if flags.dup_fixed && rows.len() > 0 {
        proof {
            let es = rows@;
            assert(entry_ok(*flags, es[0]));
        }
        let first = rows.at(0);
        assert(rows@[0].vals[0] == first.vals@[0]@);
        return first.vals[0].len() == len;
    }
    true
}

/// Decides what a put of `k`, `v` with the flags `pf` does to `entries`, or
/// why it fails.
pub fn plan_put(flags: &DbFlags, rows: &Rows, k: &[u8], v: &[u8], pf: &PutFlags) -> (r:
    Result<PutPlan, MdbxError>)
    requires
        rows.ok(),
        rows.db(*flags).wf(),
    ensures
        match rows.db(*flags).put(k@, v@, *pf) {
            Ok(d) => r is Ok && r->Ok_0.fits(rows@) && r->Ok_0.result(
                rows@,
                k@,
                v@,
            ) == d.entries && (r->Ok_0 is Keep <==> rows.db(*flags).put_keeps(k@, v@, *pf)),
            Err(e) => r == Err::<PutPlan, MdbxError>(e),
        },
{
    let ghost db = rows.db(*flags);
    let ghost es = rows@;
    let ghost ks = keys_of(es);
    if !pf.check(flags) {
        return Err(MdbxError::Incompatible);
    }
    if !key_len_fits(flags, k.len()) {
        return Err(MdbxError::BadValSize);
    }
    let ko = flags.get_key_order();
    let vo = flags.get_dup_order();
    let n = rows.len();
    if pf.append && n > 0 {
        assert(ks.last() == rows@[n - 1].key);
        if compare_bytes(ko, rows.at(n - 1).key.as_slice(), k) >= 0 {
            return Err(MdbxError::KeyMismatch);
        }
    }
    let (i, found) = find_key(ko, rows, k);
    if found && pf.no_overwrite {
        return Err(MdbxError::KeyExist);
    }
    if !val_len_fits(flags, rows, v.len()) {
        return Err(MdbxError::BadValSize);
    }
    if !found {
        if pf.current {
            Err(MdbxError::NotFound)
        } else {
            Ok(PutPlan::Insert { at: i })
        }
    } else {
        let e = rows.at(i);
        proof {
            assert(entry_ok(*flags, es[i as int]));
            assert(es[i as int].vals == vals_view(e.vals@));
            lemma_position(vo, es[i as int].vals, v@);
        }
        if !flags.dup_sort || pf.all_dups {
            Ok(PutPlan::Replace { at: i })
        } else if pf.current {
            if e.vals.len() > 1 {
                Err(MdbxError::Multival)
            } else {
                Ok(PutPlan::Replace { at: i })
            }
        } else {
            let m = e.vals.len();
            assert(vals_view(e.vals@).last() == e.vals@[m - 1]@);
            if pf.append_dup && compare_bytes(vo, e.vals[m - 1].as_slice(), v) >= 0 {
                return Err(MdbxError::KeyMismatch);
            }
            let (j, vfound) = find_val(vo, &e.vals, v);
            if vfound {
                if pf.no_dup_data {
                    Err(MdbxError::KeyExist)
                } else {
                    Ok(PutPlan::Keep)
                }
            } else {
                Ok(PutPlan::Join { at: i, val_at: j })
            }
        }
    }
}

/// Decides whether the value `old` of the key `k` can be replaced with `v`
/// in its place, and where.
pub fn plan_swap(flags: &DbFlags, rows: &Rows, k: &[u8], old: &[u8], v: &[u8]) -> (r:
    Result<PutPlan, MdbxError>)
    requires
        rows.ok(),
        rows.db(*flags).wf(),
    ensures
        match rows.db(*flags).swap(k@, old@, v@) {
            Ok(d) => r is Ok && r->Ok_0 is Swap && r->Ok_0.fits(rows@)
                && r->Ok_0.result(rows@, k@, v@) == d.entries,
            Err(e) => r == Err::<PutPlan, MdbxError>(e),
        },
{
    let ghost es = rows@;
    let ko = flags.get_key_order();
    let vo = flags.get_dup_order();
    let (i, found) = find_key(ko, rows, k);
    if !found {
        return Err(MdbxError::NotFound);
    }
    let e = rows.at(i);
    proof {
        lemma_lower_bound(ko, keys_of(es), k@);
        assert(entry_ok(*flags, es[i as int]));
        assert(es[i as int].vals == vals_view(e.vals@));
        lemma_lower_bound(vo, es[i as int].vals, old@);
    }
    let (j, vfound) = find_val(vo, &e.vals, old);
    if !vfound {
        return Err(MdbxError::NotFound);
    }
    if !val_len_fits(flags, rows, v.len()) {
        return Err(MdbxError::BadValSize);
    }
    if j > 0 {
        assert(es[i as int].vals[j - 1] == e.vals@[j - 1]@);
        if compare_bytes(vo, e.vals[j - 1].as_slice(), v) >= 0 {
            return Err(MdbxError::KeyMismatch);
        }
    }
    if j + 1 < e.vals.len() {
        assert(es[i as int].vals[j + 1] == e.vals@[j + 1]@);
        if compare_bytes(vo, v, e.vals[j + 1].as_slice()) >= 0 {
            return Err(MdbxError::KeyMismatch);
        }
    }
    Ok(PutPlan::Swap { at: i, val_at: j })
}

/// Decides what a delete of `k`, or of the pair `k`, `v`, does to
/// `entries`, or why it fails.
pub fn plan_del(flags: &DbFlags, rows: &Rows, k: &[u8], v: Option<&[u8]>) -> (r: Result<
    DelPlan,
    MdbxError,
>)
    requires
        rows.ok(),
        rows.db(*flags).wf(),
    ensures
        match rows.db(*flags).del(
            k@,
            match v {
                Some(x) => Some(x@),
                None => None,
            },
        ) {
            Ok(d) => r is Ok && r->Ok_0.fits(rows@) && r->Ok_0.result(
                rows@,
            ) == d.entries,
            Err(e) => r == Err::<DelPlan, MdbxError>(e),
        },
{
    let ghost es = rows@;
    let ko = flags.get_key_order();
    let vo = flags.get_dup_order();
    let (i, found) = find_key(ko, rows, k);
    if !found {
        return Err(MdbxError::NotFound);
    }
    let e = rows.at(i);
    proof {
        assert(entry_ok(*flags, es[i as int]));
        assert(es[i as int].vals == vals_view(e.vals@));
    }
    match v {
        None => Ok(DelPlan::Entry { at: i }),
        Some(x) => {
            if !flags.dup_sort {
                Ok(DelPlan::Entry { at: i })
            } else {
                let (j, vfound) = find_val(vo, &e.vals, x);
                if !vfound {
                    Err(MdbxError::NotFound)
                } else if e.vals.len() == 1 {
                    Ok(DelPlan::Entry { at: i })
                } else {
                    Ok(DelPlan::Value { at: i, val_at: j })
                }
            }
        },
    }
}

/// The entry that a put makes of the entry `old`: the entry with the one
/// value `v`, with `v` among its values, or with `v` in the place of one of
/// them.
pub fn put_entry(old: &Entry, plan: PutPlan, v: &[u8]) -> (e: Entry)
    requires
        match plan {
            PutPlan::Replace { at } => true,
            PutPlan::Join { at, val_at } => val_at <= old@.vals.len(),
            PutPlan::Swap { at, val_at } => val_at < old@.vals.len(),
            _ => false,
        },
    ensures
        e@.key == old@.key,
        e@.vals == match plan {
            PutPlan::Join { at, val_at } => old@.vals.insert(val_at as int, v@),
            PutPlan::Swap { at, val_at } => old@.vals.update(val_at as int, v@),
            _ => seq![v@],
        },
{
    let key = old.key.clone();
    match plan {
        PutPlan::Join { at, val_at } => {
            let mut vals = copy_vals(&old.vals);
            let ghost before = vals@;
            vals.insert(val_at, slice_to_vec(v));
            assert(vals_view(vals@) =~= vals_view(before).insert(val_at as int, v@));
            Entry { key, vals }
        },
        PutPlan::Swap { at, val_at } => {
            let mut vals = copy_vals(&old.vals);
            let ghost before = vals@;
            vals[val_at] = slice_to_vec(v);
            assert(vals_view(vals@) =~= vals_view(before).update(val_at as int, v@));
            Entry { key, vals }
        },
        _ => {
            let mut vals: Vec<Vec<u8>> = Vec::new();
            vals.push(slice_to_vec(v));
            assert(vals_view(vals@) =~= seq![v@]);
            Entry { key, vals }
        },
    }
}

/// A new entry of the key `k` with the one value `v`.
pub fn new_entry(k: &[u8], v: &[u8]) -> (e: Entry)
    ensures
        e@ == (EntryView { key: k@, vals: seq![v@] }),
{
    let mut vals: Vec<Vec<u8>> = Vec::new();
    vals.push(slice_to_vec(v));
    assert(vals_view(vals@) =~= seq![v@]);
    Entry { key: slice_to_vec(k), vals }
}

/// The entry `old` without its value `val_at`.
pub fn cut_entry(old: &Entry, val_at: usize) -> (e: Entry)
    requires
        val_at < old@.vals.len(),
    ensures
        e@ == (EntryView { key: old@.key, vals: old@.vals.remove(val_at as int) }),
{
    let mut vals = copy_vals(&old.vals);
    let ghost before = vals@;
    vals.remove(val_at);
    assert(vals_view(vals@) =~= vals_view(before).remove(val_at as int));
    Entry { key: old.key.clone(), vals }
}

} // verus!
