//! The entries of a leaf page, and the plans of the changes that a put or
//! a delete makes to the entries of a sub-database.
use crate::constants::MDBX_MAXDATASIZE;
use crate::flags::DbFlags;
use crate::model::{key_fits, lemma_lower_bound_unique, lower_bound, position, sorted, EntryView};
use crate::order::{bytes_lt, compare_bytes, lemma_order_transitive, ByteOrder};
use vstd::prelude::*;

verus! {

/// A key with its values, as a page holds them.
pub struct Entry {
    pub key: Vec<u8>,
    pub vals: Vec<Vec<u8>>,
}

/// The byte strings that the vectors hold.
pub open spec fn vals_view(v: Seq<Vec<u8>>) -> Seq<Seq<u8>> {
    Seq::new(v.len(), |i: int| v[i]@)
}

impl View for Entry {
    type V = EntryView;

    open spec fn view(&self) -> EntryView {
        EntryView { key: self.key@, vals: vals_view(self.vals@) }
    }
}

/// The entries that the vector holds, as mathematical values.
pub open spec fn entries_view(es: Seq<Entry>) -> Seq<EntryView> {
    Seq::new(es.len(), |i: int| es[i]@)
}

/// The index of the first value that does not sort before `v`, and whether
/// that value is `v`.
pub fn find_val(ord: ByteOrder, vals: &Vec<Vec<u8>>, v: &[u8]) -> (r: (usize, bool))
    requires
        sorted(ord, vals_view(vals@)),
    ensures
        r.0 == lower_bound(ord, vals_view(vals@), v@),
        r.1 == (position(ord, vals_view(vals@), v@) is Some),
        r.0 <= vals.len(),
{
    let ghost vs = vals_view(vals@);
    let mut lo: usize = 0;
    let mut hi: usize = vals.len();
    while lo < hi
        invariant
            0 <= lo <= hi <= vals.len(),
            vs == vals_view(vals@),
            sorted(ord, vs),
            forall|j: int| 0 <= j < lo ==> bytes_lt(ord, #[trigger] vs[j], v@),
            forall|j: int| hi <= j < vs.len() ==> !bytes_lt(ord, #[trigger] vs[j], v@),
        decreases hi - lo,
    {
        let mid: usize = lo + (hi - lo) / 2;
        let c = compare_bytes(ord, vals[mid].as_slice(), v);
        assert(vs[mid as int] == vals@[mid as int]@);
        if c < 0 {
            proof {
                assert forall|j: int| 0 <= j < mid + 1 implies bytes_lt(ord, #[trigger] vs[j], v@) by {
                    if j < mid {
                        lemma_order_transitive(ord, vs[j], vs[mid as int], v@);
                    }
                }
            }
            lo = mid + 1;
        } else {
            proof {
                assert forall|j: int| mid <= j < vs.len() implies !bytes_lt(
                    ord,
                    #[trigger] vs[j],
                    v@,
                ) by {
                    if j > mid && bytes_lt(ord, vs[j], v@) {
                        lemma_order_transitive(ord, vs[mid as int], vs[j], v@);
                    }
                }
            }
            hi = mid;
        }
    }
    proof {
        lemma_lower_bound_unique(ord, vs, v@, lo as int);
    }
    if lo < vals.len() {
        assert(vs[lo as int] == vals@[lo as int]@);
        let c = compare_bytes(ord, vals[lo].as_slice(), v);
        (lo, c == 0)
    } else {
        (lo, false)
    }
}

/// Whether a sub-database with these flags takes a key of `len` bytes.
pub fn key_len_fits(flags: &DbFlags, len: usize) -> (b: bool)
    ensures
        forall|k: Seq<u8>| k.len() == len ==> b == #[trigger] key_fits(*flags, k),
{
    len <= MDBX_MAXDATASIZE as usize && (!flags.integer_key || len == 4 || len == 8)
}

/// What a put does to the entries.
#[derive(Debug, Copy, Clone, PartialEq, Eq, Structural)]
pub enum PutPlan {
    /// Nothing: the pair is there already.
    Keep,
    /// A new entry with the one value goes in at `at`.
    Insert { at: usize },
    /// The values of the entry at `at` are replaced with the one value.
    Replace { at: usize },
    /// The value joins the values of the entry at `at`, at `val_at`.
    Join { at: usize, val_at: usize },
    /// The value takes the place of value `val_at` of the entry at `at`.
    Swap { at: usize, val_at: usize },
}

impl PutPlan {
    /// Whether the indices of the plan lie within the entries.
    pub open spec fn fits(self, entries: Seq<EntryView>) -> bool {
        match self {
            PutPlan::Keep => true,
            PutPlan::Insert { at } => at <= entries.len(),
            PutPlan::Replace { at } => at < entries.len(),
            PutPlan::Join { at, val_at } => at < entries.len() && val_at <= entries[at as int].vals.len(),
            PutPlan::Swap { at, val_at } => at < entries.len() && val_at < entries[at as int].vals.len(),
        }
    }

    /// The entries after the plan was carried out for the pair `k`, `v`.
    pub open spec fn result(self, entries: Seq<EntryView>, k: Seq<u8>, v: Seq<u8>) -> Seq<
        EntryView,
    > {
        match self {
            PutPlan::Keep => entries,
            PutPlan::Insert { at } => entries.insert(at as int, EntryView { key: k, vals: seq![v] }),
            PutPlan::Replace { at } => entries.update(
                at as int,
                EntryView { key: entries[at as int].key, vals: seq![v] },
            ),
            PutPlan::Join { at, val_at } => entries.update(
                at as int,
                EntryView {
                    key: entries[at as int].key,
                    vals: entries[at as int].vals.insert(val_at as int, v),
                },
            ),
            PutPlan::Swap { at, val_at } => entries.update(
                at as int,
                EntryView {
                    key: entries[at as int].key,
                    vals: entries[at as int].vals.update(val_at as int, v),
                },
            ),
        }
    }
}

/// What a delete does to the entries.
#[derive(Debug, Copy, Clone, PartialEq, Eq, Structural)]
pub enum DelPlan {
    /// The entry at `at` goes, with all its values.
    Entry { at: usize },
    /// The value at `val_at` of the entry at `at` goes; others stay.
    Value { at: usize, val_at: usize },
}

impl DelPlan {
    /// Whether the indices of the plan lie within the entries.
    pub open spec fn fits(self, entries: Seq<EntryView>) -> bool {
        match self {
            DelPlan::Entry { at } => at < entries.len(),
            DelPlan::Value { at, val_at } => at < entries.len() && val_at
                < entries[at as int].vals.len(),
        }
    }

    /// The entries after the plan was carried out.
    pub open spec fn result(self, entries: Seq<EntryView>) -> Seq<EntryView> {
        match self {
            DelPlan::Entry { at } => entries.remove(at as int),
            DelPlan::Value { at, val_at } => entries.update(
                at as int,
                EntryView {
                    key: entries[at as int].key,
                    vals: entries[at as int].vals.remove(val_at as int),
                },
            ),
        }
    }
}

/// A copy of the byte strings.
pub fn copy_vals(vals: &Vec<Vec<u8>>) -> (r: Vec<Vec<u8>>)
    ensures
        vals_view(r@) == vals_view(vals@),
{
    let mut r: Vec<Vec<u8>> = Vec::new();
    let mut i: usize = 0;
    while i < vals.len()
        invariant
            i <= vals.len(),
            r.len() == i,
            forall|j: int| 0 <= j < i ==> r@[j]@ == vals@[j]@,
        decreases vals.len() - i,
    {
        r.push(vals[i].clone());
        i += 1;
    }
    assert(vals_view(r@) =~= vals_view(vals@));
    r
}

/// A copy of the entries.
pub fn copy_entries(entries: &Vec<Entry>) -> (r: Vec<Entry>)
    ensures
        entries_view(r@) == entries_view(entries@),
{
    let mut r: Vec<Entry> = Vec::new();
    let mut i: usize = 0;
    while i < entries.len()
        invariant
            i <= entries.len(),
            r.len() == i,
            forall|j: int| 0 <= j < i ==> r@[j]@ == entries@[j]@,
        decreases entries.len() - i,
    {
        let e = Entry { key: entries[i].key.clone(), vals: copy_vals(&entries[i].vals) };
        r.push(e);
        i += 1;
    }
    assert(entries_view(r@) =~= entries_view(entries@));
    r
}

} // verus!
