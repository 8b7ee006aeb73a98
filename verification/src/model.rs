//! What a sub-database holds, as a mathematical value, and what the data
//! operations do to it.
//!
//! A sub-database is a sequence of entries in the order of their keys. An
//! entry is a key with its values in their order; without sorted duplicates
//! an entry has exactly one value. The executable engine keeps pages and
//! transactions; its contracts say that what it returns and stores is what
//! the functions of this module compute.
use crate::constants::MDBX_MAXDATASIZE;
use crate::error::MdbxError;
use crate::flags::{DbFlags, PutFlags};
use crate::pager::can_take;
use crate::space::{reclaimable, SpaceView};
use crate::order::{
    bytes_lt, lemma_order_irreflexive, lemma_order_total, lemma_order_transitive, ByteOrder,
};
use vstd::prelude::*;

verus! {

/// Whether `s` is strictly ascending in the order `ord`.
pub open spec fn sorted(ord: ByteOrder, s: Seq<Seq<u8>>) -> bool {
    forall|i: int, j: int|
        #![trigger s[i], s[j]]
        0 <= i < j < s.len() ==> bytes_lt(ord, s[i], s[j])
}

/// The number of leading elements of `s` that sort before `k`. In a sorted
/// sequence this is the index of the first element that does not sort before
/// `k`, and the place where `k` belongs.
pub open spec fn lower_bound(ord: ByteOrder, s: Seq<Seq<u8>>, k: Seq<u8>) -> int
    decreases s.len(),
{
    if s.len() == 0 {
        0
    } else if bytes_lt(ord, s.last(), k) {
        s.len() as int
    } else {
        lower_bound(ord, s.drop_last(), k)
    }
}

/// The number of leading elements of `s` that do not sort after `k`. In a
/// sorted sequence this is the index of the first element that sorts after
/// `k`.
pub open spec fn upper_bound(ord: ByteOrder, s: Seq<Seq<u8>>, k: Seq<u8>) -> int
    decreases s.len(),
{
    if s.len() == 0 {
        0
    } else if !bytes_lt(ord, k, s.last()) {
        s.len() as int
    } else {
        upper_bound(ord, s.drop_last(), k)
    }
}

/// The index of `k` in the sorted sequence `s`, if `k` is in it.
pub open spec fn position(ord: ByteOrder, s: Seq<Seq<u8>>, k: Seq<u8>) -> Option<int> {
    let i = lower_bound(ord, s, k);
    if i < s.len() && s[i] == k {
        Some(i)
    } else {
        None
    }
}

/// In a sorted sequence the lower bound of `k` parts the elements that sort
/// before `k` from the others.
pub proof fn lemma_lower_bound(ord: ByteOrder, s: Seq<Seq<u8>>, k: Seq<u8>)
    requires
        sorted(ord, s),
    ensures
        0 <= lower_bound(ord, s, k) <= s.len(),
        forall|j: int| 0 <= j < lower_bound(ord, s, k) ==> bytes_lt(ord, #[trigger] s[j], k),
        forall|j: int| lower_bound(ord, s, k) <= j < s.len() ==> !bytes_lt(ord, #[trigger] s[j], k),
    decreases s.len(),
{
    if s.len() > 0 {
        let d = s.drop_last();
        assert(sorted(ord, d)) by {
            assert forall|i: int, j: int| 0 <= i < j < d.len() implies bytes_lt(
                ord,
                #[trigger] d[i],
                #[trigger] d[j],
            ) by {
                assert(d[i] == s[i] && d[j] == s[j]);
            }
        }
        lemma_lower_bound(ord, d, k);
        if bytes_lt(ord, s.last(), k) {
            assert forall|j: int| 0 <= j < s.len() implies bytes_lt(ord, #[trigger] s[j], k) by {
                if j < s.len() - 1 {
                    lemma_order_transitive(ord, s[j], s.last(), k);
                }
            }
        } else {
            assert forall|j: int| lower_bound(ord, s, k) <= j < s.len() implies !bytes_lt(
                ord,
                #[trigger] s[j],
                k,
            ) by {
                if j < s.len() - 1 {
                    assert(d[j] == s[j]);
                }
            }
            assert forall|j: int| 0 <= j < lower_bound(ord, s, k) implies bytes_lt(
                ord,
                #[trigger] s[j],
                k,
            ) by {
                assert(d[j] == s[j]);
            }
        }
    }
}

/// An index that parts the elements that sort before `k` from the others is
/// the lower bound of `k`.
pub proof fn lemma_lower_bound_unique(ord: ByteOrder, s: Seq<Seq<u8>>, k: Seq<u8>, i: int)
    requires
        sorted(ord, s),
        0 <= i <= s.len(),
        forall|j: int| 0 <= j < i ==> bytes_lt(ord, #[trigger] s[j], k),
        forall|j: int| i <= j < s.len() ==> !bytes_lt(ord, #[trigger] s[j], k),
    ensures
        i == lower_bound(ord, s, k),
{
    lemma_lower_bound(ord, s, k);
    let lb = lower_bound(ord, s, k);
    if i < lb {
        assert(bytes_lt(ord, s[i], k));
    } else if lb < i {
        assert(bytes_lt(ord, s[lb], k));
    }
}

/// In a sorted sequence the upper bound of `k` parts the elements that do
/// not sort after `k` from those that do. It is the lower bound, or one more
/// where `k` itself is in the sequence.
pub proof fn lemma_upper_bound(ord: ByteOrder, s: Seq<Seq<u8>>, k: Seq<u8>)
    requires
        sorted(ord, s),
    ensures
        0 <= upper_bound(ord, s, k) <= s.len(),
        forall|j: int| 0 <= j < upper_bound(ord, s, k) ==> !bytes_lt(ord, k, #[trigger] s[j]),
        forall|j: int| upper_bound(ord, s, k) <= j < s.len() ==> bytes_lt(ord, k, #[trigger] s[j]),
        position(ord, s, k) is Some ==> upper_bound(ord, s, k) == lower_bound(ord, s, k) + 1,
        position(ord, s, k) is None ==> upper_bound(ord, s, k) == lower_bound(ord, s, k),
    decreases s.len(),
{
    lemma_lower_bound(ord, s, k);
    if s.len() > 0 {
        let d = s.drop_last();
        assert(sorted(ord, d)) by {
            assert forall|i: int, j: int| 0 <= i < j < d.len() implies bytes_lt(
                ord,
                #[trigger] d[i],
                #[trigger] d[j],
            ) by {
                assert(d[i] == s[i] && d[j] == s[j]);
            }
        }
        lemma_upper_bound(ord, d, k);
        lemma_lower_bound(ord, d, k);
        if !bytes_lt(ord, k, s.last()) {
            assert forall|j: int| 0 <= j < s.len() implies !bytes_lt(ord, k, #[trigger] s[j]) by {
                if j < s.len() - 1 && bytes_lt(ord, k, s[j]) {
                    lemma_order_transitive(ord, k, s[j], s.last());
                }
            }
        } else {
            assert forall|j: int| upper_bound(ord, s, k) <= j < s.len() implies bytes_lt(
                ord,
                k,
                #[trigger] s[j],
            ) by {
                if j < s.len() - 1 {
                    assert(d[j] == s[j]);
                }
            }
            assert forall|j: int| 0 <= j < upper_bound(ord, s, k) implies !bytes_lt(
                ord,
                k,
                #[trigger] s[j],
            ) by {
                assert(d[j] == s[j]);
            }
        }
    }
    let lb = lower_bound(ord, s, k);
    let ub = upper_bound(ord, s, k);
    if ub < lb {
        assert(bytes_lt(ord, s[ub], k) && bytes_lt(ord, k, s[ub]));
        lemma_order_total(ord, s[ub], k);
    }
    if lb < s.len() {
        lemma_order_total(ord, s[lb], k);
        lemma_order_irreflexive(ord, k);
    }
    if lb + 1 < ub {
        assert(bytes_lt(ord, s[lb], s[lb + 1]));
        assert(!bytes_lt(ord, s[lb], k) && !bytes_lt(ord, k, s[lb + 1]));
        lemma_order_total(ord, s[lb + 1], k);
        lemma_order_total(ord, s[lb], k);
        lemma_order_total(ord, s[lb], s[lb + 1]);
        if s[lb] != k {
            lemma_order_transitive(ord, k, s[lb], s[lb + 1]);
        }
    }
}

/// A sorted sequence holds `k` exactly at `position`, and nowhere else.
pub proof fn lemma_position(ord: ByteOrder, s: Seq<Seq<u8>>, k: Seq<u8>)
    requires
        sorted(ord, s),
    ensures
        position(ord, s, k) is Some <==> s.contains(k),
        forall|m: int| 0 <= m < s.len() && s[m] == k ==> position(ord, s, k) == Some(m),
{
    lemma_lower_bound(ord, s, k);
    let lb = lower_bound(ord, s, k);
    assert forall|m: int| 0 <= m < s.len() && s[m] == k implies position(ord, s, k) == Some(
        m,
    ) by {
        lemma_order_irreflexive(ord, k);
        if m < lb {
            assert(bytes_lt(ord, s[m], k));
        } else if m > lb {
            assert(bytes_lt(ord, s[lb], s[m]));
        }
    }
    if position(ord, s, k) is Some {
        assert(s[lb] == k);
    }
}

/// Putting `k` at its lower bound into a sorted sequence that lacks it
/// leaves the sequence sorted, with `k` at that index.
pub proof fn lemma_insert_sorted(ord: ByteOrder, s: Seq<Seq<u8>>, k: Seq<u8>)
    requires
        sorted(ord, s),
        position(ord, s, k) is None,
    ensures
        sorted(ord, s.insert(lower_bound(ord, s, k), k)),
        position(ord, s.insert(lower_bound(ord, s, k), k), k) == Some(lower_bound(ord, s, k)),
{
    lemma_lower_bound(ord, s, k);
    let i = lower_bound(ord, s, k);
    let t = s.insert(i, k);
    assert forall|a: int, b: int| 0 <= a < b < t.len() implies bytes_lt(
        ord,
        #[trigger] t[a],
        #[trigger] t[b],
    ) by {
        if b < i {
            assert(t[a] == s[a] && t[b] == s[b]);
        } else if b == i {
            assert(t[a] == s[a]);
        } else if a == i {
            assert(t[b] == s[b - 1]);
            lemma_order_total(ord, s[b - 1], k);
        } else if a < i {
            assert(t[a] == s[a] && t[b] == s[b - 1]);
        } else {
            assert(t[a] == s[a - 1] && t[b] == s[b - 1]);
        }
    }
    lemma_position(ord, t, k);
    assert(t[i] == k);
}

/// Taking an element out of a sorted sequence leaves it sorted, and the
/// element is no longer in it.
pub proof fn lemma_remove_sorted(ord: ByteOrder, s: Seq<Seq<u8>>, i: int)
    requires
        sorted(ord, s),
        0 <= i < s.len(),
    ensures
        sorted(ord, s.remove(i)),
        position(ord, s.remove(i), s[i]) is None,
{
    let t = s.remove(i);
    assert forall|a: int, b: int| 0 <= a < b < t.len() implies bytes_lt(
        ord,
        #[trigger] t[a],
        #[trigger] t[b],
    ) by {
        let a0 = if a < i { a } else { a + 1 };
        let b0 = if b < i { b } else { b + 1 };
        assert(t[a] == s[a0] && t[b] == s[b0]);
    }
    lemma_position(ord, t, s[i]);
    if t.contains(s[i]) {
        let m = choose|m: int| 0 <= m < t.len() && t[m] == s[i];
        let m0 = if m < i { m } else { m + 1 };
        assert(t[m] == s[m0]);
        lemma_order_irreflexive(ord, s[i]);
        if m0 < i {
            assert(bytes_lt(ord, s[m0], s[i]));
        } else {
            assert(bytes_lt(ord, s[i], s[m0]));
        }
    }
}

/// A key with its values, in their order.
pub struct EntryView {
    pub key: Seq<u8>,
    pub vals: Seq<Seq<u8>>,
}

/// The keys of the entries, in the entries' order.
pub open spec fn keys_of(entries: Seq<EntryView>) -> Seq<Seq<u8>> {
    Seq::new(entries.len(), |i: int| entries[i].key)
}

/// The number of pairs in the given entries.
pub open spec fn pair_count(entries: Seq<EntryView>) -> nat
    decreases entries.len(),
{
    if entries.len() == 0 {
        0
    } else {
        pair_count(entries.drop_last()) + entries.last().vals.len()
    }
}

/// Whether a sub-database with the flags `flags` can store a key of this
/// length.
pub open spec fn key_fits(flags: DbFlags, k: Seq<u8>) -> bool {
    &&& k.len() <= MDBX_MAXDATASIZE
    &&& flags.integer_key ==> k.len() == 4 || k.len() == 8
}

/// Whether a sub-database with the flags `flags` can store a value of this
/// length, whatever it already holds.
pub open spec fn val_size_fits(flags: DbFlags, v: Seq<u8>) -> bool {
    &&& v.len() <= MDBX_MAXDATASIZE
    &&& flags.integer_dup ==> v.len() == 4 || v.len() == 8
}

/// What holds of every entry of a sub-database with the flags `flags`: a
/// key of an accepted length, at least one value, exactly one without sorted
/// duplicates, the values strictly ascending and of accepted lengths, and of
/// one length where the flags ask for that.
pub open spec fn entry_ok(flags: DbFlags, e: EntryView) -> bool {
    &&& key_fits(flags, e.key)
    &&& e.vals.len() >= 1
    &&& !flags.dup_sort ==> e.vals.len() == 1
    &&& sorted(flags.dup_order(), e.vals)
    &&& forall|j: int| 0 <= j < e.vals.len() ==> val_size_fits(flags, #[trigger] e.vals[j])
    &&& flags.dup_fixed ==> forall|j: int|
        0 <= j < e.vals.len() ==> (#[trigger] e.vals[j]).len() == e.vals[0].len()
}

/// What a sub-database holds.
pub struct DbView {
    /// How keys and values are ordered and held.
    pub flags: DbFlags,
    /// The entries, in the order of their keys.
    pub entries: Seq<EntryView>,
}

impl DbView {
    /// An empty sub-database with the given flags.
    pub open spec fn empty(flags: DbFlags) -> DbView {
        DbView { flags, entries: Seq::empty() }
    }

    /// The keys, in their order.
    pub open spec fn keys(self) -> Seq<Seq<u8>> {
        keys_of(self.entries)
    }

    /// The length that every value has, where the flags ask for values of
    /// one length and a value is stored: the first stored value sets it.
    pub open spec fn val_len(self) -> Option<nat> {
        if self.flags.dup_fixed && self.entries.len() > 0 {
            Some(self.entries[0].vals[0].len())
        } else {
            None
        }
    }

    /// Whether a value of this length can be stored now.
    pub open spec fn val_fits(self, v: Seq<u8>) -> bool {
        &&& val_size_fits(self.flags, v)
        &&& self.val_len() matches Some(n) ==> v.len() == n
    }

    /// The invariant of a sub-database: flags that make sense, keys
    /// strictly ascending, every entry as `entry_ok` says, and all values of
    /// one length where the flags ask for that.
    pub open spec fn wf(self) -> bool {
        &&& self.flags.valid()
        &&& sorted(self.flags.key_order(), self.keys())
        &&& forall|i: int|
            0 <= i < self.entries.len() ==> entry_ok(self.flags, #[trigger] self.entries[i])
        &&& self.flags.dup_fixed ==> forall|i: int|
            0 <= i < self.entries.len() ==> (#[trigger] self.entries[i]).vals[0].len()
                == self.entries[0].vals[0].len()
    }

    /// The index of the entry with key `k`, if there is one.
    pub open spec fn find(self, k: Seq<u8>) -> Option<int> {
        position(self.flags.key_order(), self.keys(), k)
    }

    /// The value stored under `k`; with sorted duplicates, the first one.
    pub open spec fn get(self, k: Seq<u8>) -> Option<Seq<u8>> {
        match self.find(k) {
            Some(i) => Some(self.entries[i].vals[0]),
            None => None,
        }
    }

    /// Whether the pair of `k` and `v` is stored.
    pub open spec fn has_pair(self, k: Seq<u8>, v: Seq<u8>) -> bool {
        match self.find(k) {
            Some(i) => self.entries[i].vals.contains(v),
            None => false,
        }
    }

    /// The number of values stored under `k`.
    pub open spec fn count(self, k: Seq<u8>) -> nat {
        match self.find(k) {
            Some(i) => self.entries[i].vals.len(),
            None => 0,
        }
    }

    /// The number of pairs.
    pub open spec fn pairs(self) -> nat {
        pair_count(self.entries)
    }

    /// The sub-database with the values of entry `i` replaced.
    pub open spec fn with_vals(self, i: int, vals: Seq<Seq<u8>>) -> DbView {
        DbView {
            flags: self.flags,
            entries: self.entries.update(i, EntryView { key: self.entries[i].key, vals }),
        }
    }

    /// What a put of the pair `k`, `v` with the flags `pf` does: the
    /// sub-database afterwards, or the failure, which leaves the
    /// sub-database as it was.
    ///
    /// The checks come in this order. Flags that do not go with the
    /// sub-database are incompatible. A key of a length that the
    /// sub-database does not take is a bad value size. An appended key that
    /// does not sort after the last key is a key mismatch. A key that is
    /// there is key-exists with `no_overwrite`, whatever the value. A value
    /// of a length that the sub-database does not take is a bad value size.
    /// Then, for a key that is not there: a replacement finds nothing,
    /// anything else inserts the pair. For a key that is there:
    /// without sorted duplicates, or with `all_dups`, the value replaces what
    /// the key had; `current` replaces a single value and is multi-value for
    /// several; an appended value that does not sort after the key's last
    /// value is a key mismatch; a pair that is there is key-exists with
    /// `no_dup_data` and is left alone without it; any other value joins the
    /// key's values at its place.
    pub open spec fn put(self, k: Seq<u8>, v: Seq<u8>, pf: PutFlags) -> Result<DbView, MdbxError> {
        let ko = self.flags.key_order();
        let vo = self.flags.dup_order();
        let ks = self.keys();
        let i = lower_bound(ko, ks, k);
        if !pf.fits(self.flags) {
            Err(MdbxError::Incompatible)
        } else if !key_fits(self.flags, k) {
            Err(MdbxError::BadValSize)
        } else if pf.append && ks.len() > 0 && !bytes_lt(ko, ks.last(), k) {
            Err(MdbxError::KeyMismatch)
        } else if self.find(k) is Some && pf.no_overwrite {
            Err(MdbxError::KeyExist)
        } else if !self.val_fits(v) {
            Err(MdbxError::BadValSize)
        } else if self.find(k) is None {
            if pf.current {
                Err(MdbxError::NotFound)
            } else {
                Ok(
                    DbView {
                        flags: self.flags,
                        entries: self.entries.insert(i, EntryView { key: k, vals: seq![v] }),
                    },
                )
            }
        } else {
            let vals = self.entries[i].vals;
            let j = lower_bound(vo, vals, v);
            if !self.flags.dup_sort || pf.all_dups {
                Ok(self.with_vals(i, seq![v]))
            } else if pf.current {
                if vals.len() > 1 {
                    Err(MdbxError::Multival)
                } else {
                    Ok(self.with_vals(i, seq![v]))
                }
            } else if pf.append_dup && !bytes_lt(vo, vals.last(), v) {
                Err(MdbxError::KeyMismatch)
            } else if position(vo, vals, v) is Some {
                if pf.no_dup_data {
                    Err(MdbxError::KeyExist)
                } else {
                    Ok(self)
                }
            } else {
                Ok(self.with_vals(i, vals.insert(j, v)))
            }
        }
    }

    /// Whether a put that succeeds leaves the sub-database untouched: the
    /// pair is already there, and nothing asks to replace the key's values.
    pub open spec fn put_keeps(self, k: Seq<u8>, v: Seq<u8>, pf: PutFlags) -> bool {
        &&& self.put(k, v, pf) is Ok
        &&& self.flags.dup_sort
        &&& !pf.all_dups
        &&& !pf.current
        &&& self.has_pair(k, v)
    }

    /// What replacing the value `old` of the key `k` with `v` in its place
    /// does. The pair must be there, else it is not found. A value of a
    /// length that the sub-database does not take is a bad value size. The
    /// new value must sort where the old one did, between its neighbours,
    /// else it is a key mismatch.
    pub open spec fn swap(self, k: Seq<u8>, old: Seq<u8>, v: Seq<u8>) -> Result<DbView, MdbxError> {
        let vo = self.flags.dup_order();
        match self.find(k) {
            None => Err(MdbxError::NotFound),
            Some(i) => {
                let vals = self.entries[i].vals;
                match position(vo, vals, old) {
                    None => Err(MdbxError::NotFound),
                    Some(j) => if !self.val_fits(v) {
                        Err(MdbxError::BadValSize)
                    } else if (j > 0 && !bytes_lt(vo, vals[j - 1], v)) || (j + 1 < vals.len()
                        && !bytes_lt(vo, v, vals[j + 1])) {
                        Err(MdbxError::KeyMismatch)
                    } else {
                        Ok(self.with_vals(i, vals.update(j, v)))
                    },
                }
            },
        }
    }

    /// What a delete does. Without a value, or without sorted duplicates,
    /// the key goes with all its values; with a value, that pair goes, and
    /// the key with it if it was the last. A key or pair that is not there
    /// is not found.
    pub open spec fn del(self, k: Seq<u8>, v: Option<Seq<u8>>) -> Result<DbView, MdbxError> {
        match self.find(k) {
            None => Err(MdbxError::NotFound),
            Some(i) => {
                let vals = self.entries[i].vals;
                if !self.flags.dup_sort || v is None {
                    Ok(DbView { flags: self.flags, entries: self.entries.remove(i) })
                } else {
                    match position(self.flags.dup_order(), vals, v->0) {
                        None => Err(MdbxError::NotFound),
                        Some(j) => if vals.len() == 1 {
                            Ok(DbView { flags: self.flags, entries: self.entries.remove(i) })
                        } else {
                            Ok(self.with_vals(i, vals.remove(j)))
                        },
                    }
                }
            },
        }
    }
}

/// The oldest of the given snapshots, if there is any.
pub open spec fn oldest_of(pins: Seq<Option<u64>>) -> Option<u64>
    decreases pins.len(),
{
    if pins.len() == 0 {
        None
    } else {
        let rest = oldest_of(pins.drop_last());
        match pins.last() {
            None => rest,
            Some(x) => match rest {
                None => Some(x),
                Some(t) => Some(if x < t { x } else { t }),
            },
        }
    }
}

/// The oldest snapshot is one of the snapshots, and none is older.
pub proof fn lemma_oldest_of(pins: Seq<Option<u64>>)
    ensures
        match oldest_of(pins) {
            None => forall|i: int| 0 <= i < pins.len() ==> (#[trigger] pins[i]) is None,
            Some(t) => (forall|i: int| 0 <= i < pins.len() && (#[trigger] pins[i]) is Some ==> t <= pins[i]->0)
                && exists|i: int| 0 <= i < pins.len() && #[trigger] pins[i] == Some(t),
        },
    decreases pins.len(),
{
    if pins.len() > 0 {
        let d = pins.drop_last();
        lemma_oldest_of(d);
        let last = pins.len() - 1;
        assert forall|i: int| 0 <= i < last implies #[trigger] pins[i] == d[i] by {}
        match oldest_of(d) {
            None => {
                assert forall|i: int| 0 <= i < last implies (#[trigger] pins[i]) is None by {
                    assert(d[i] is None);
                }
                if pins.last() is Some {
                    assert(pins[last] == Some(pins.last()->0));
                }
            },
            Some(t) => {
                let w = choose|i: int| 0 <= i < d.len() && #[trigger] d[i] == Some(t);
                assert(pins[w] == Some(t));
                assert forall|i: int| 0 <= i < last && (#[trigger] pins[i]) is Some implies t
                    <= pins[i]->0 by {
                    assert(d[i] is Some);
                }
                if pins.last() is Some {
                    assert(pins[last] == Some(pins.last()->0));
                }
            },
        }
    }
}

/// A sub-database as a transaction sees it.
pub struct DbState {
    /// The name; empty for the main sub-database.
    pub name: Seq<u8>,
    /// Whether the sub-database exists; not so once it was deleted.
    pub alive: bool,
    /// What it holds.
    pub db: DbView,
    /// The transaction that last changed it.
    pub mod_txnid: u64,
    /// The number of levels of its tree: none while it is empty, one while
    /// its entries stand on a single page.
    pub depth: nat,
    /// The number of leaf pages of its tree.
    pub leaves: nat,
    /// The number of branch pages of its tree.
    pub branches: nat,
}

/// What a write leaves of the things that the caller does not choose: the
/// page numbers after the pages that the write took, the pages that the
/// transaction has given up, and the depth and the numbers of pages of the
/// tree that was written.
pub struct Outcome {
    /// The page numbers after the write.
    pub space: SpaceView,
    /// The pages that the transaction has given up, with those of the write.
    pub freed: Seq<u64>,
    /// The number of levels of the tree that was written.
    pub depth: nat,
    /// The number of its leaf pages.
    pub leaves: nat,
    /// The number of its branch pages.
    pub branches: nat,
}

/// Whether a tree of the depth `before` can have the depth `after` once one
/// entry was put, changed or taken out: a tree grows and shrinks by one
/// level at a time.
pub open spec fn depth_near(before: nat, after: nat) -> bool {
    after <= before + 1 && before <= after + 1
}

/// The pages that a transaction must be able to take before it adds an
/// entry to a tree of the given depth: two for every level, and one for a
/// new root.
pub open spec fn room_to_add(depth: nat) -> nat {
    2 * depth + 1
}

/// The pages that a transaction must be able to take before it changes an
/// entry of a tree of the given depth: two for every level.
pub open spec fn room_to_change(depth: nat) -> nat {
    2 * depth
}

/// The pages that a transaction must be able to take before it removes an
/// entry from a tree of the given depth: two for a single page; else six
/// for every level, and four for the root.
pub open spec fn room_to_cut(depth: nat) -> nat {
    if depth <= 1 {
        2
    } else {
        6 * depth + 4
    }
}

/// The most pages that a write to a tree of the given depth takes.
pub open spec fn most_room(depth: nat) -> nat {
    6 * depth + 4
}

/// The pages that a transaction must be able to take before it changes the
/// content of the sub-database `old` into `d`, by the depth of the tree: for
/// an entry more, for an entry less, or for an entry changed.
pub open spec fn room_for(old: DbState, d: DbView) -> nat {
    if d.entries.len() > old.db.entries.len() {
        room_to_add(old.depth)
    } else if d.entries.len() < old.db.entries.len() {
        room_to_cut(old.depth)
    } else {
        room_to_change(old.depth)
    }
}

/// What a write transaction has in hand: its version of the sub-databases,
/// the page numbers as it has taken them, and the pages that its version no
/// longer uses.
pub struct WriterState {
    /// The number that the transaction is known by.
    pub handle: u64,
    /// The flags that the transaction began with.
    pub flags: u32,
    /// The sub-databases, by their handles.
    pub dbs: Seq<DbState>,
    /// The page numbers.
    pub space: SpaceView,
    /// The pages that go onto the free list when the transaction commits.
    pub freed: Seq<u64>,
}

impl WriterState {
    /// What the transaction leaves to the writes that follow, as far as
    /// sub-database `dbi` goes.
    pub open spec fn outcome(self, dbi: int) -> Outcome {
        Outcome {
            space: self.space,
            freed: self.freed,
            depth: self.dbs[dbi].depth,
            leaves: self.dbs[dbi].leaves,
            branches: self.dbs[dbi].branches,
        }
    }

    /// The transaction after the content of sub-database `dbi` became `d`,
    /// as transaction `txnid`, with the outcome `out`. Pages are never
    /// changed where a snapshot may see them: every page that the write
    /// changes is written under a page number that the transaction took,
    /// and the page that it replaces is given up.
    pub open spec fn write(self, dbi: int, d: DbView, txnid: u64, out: Outcome) -> WriterState {
        WriterState {
            dbs: self.dbs.update(
                dbi,
                DbState {
                    db: d,
                    mod_txnid: txnid,
                    depth: out.depth,
                    leaves: out.leaves,
                    branches: out.branches,
                    ..self.dbs[dbi]
                },
            ),
            space: out.space,
            freed: out.freed,
            ..self
        }
    }

    /// Whether `later` may be what the transaction has in hand after a
    /// write that takes at most `room` pages, while the oldest snapshot that
    /// a reader holds is `oldest`: the file has the same limit and has not
    /// shrunk; no page has come onto the free list; a page has left it only
    /// if no reader can see it; what was given up is still given up; and
    /// where `room` pages and some more could be taken before, the more can
    /// be taken still.
    pub open spec fn leads_to(self, later: WriterState, oldest: Option<u64>, room: nat) -> bool {
        &&& later.space.wf()
        &&& forall|k: nat|
            can_take(self.space, oldest, k + room) ==> #[trigger] can_take(later.space, oldest, k)
        &&& later.space.limit == self.space.limit
        &&& later.space.next >= self.space.next
        &&& forall|p: u64, x: u64| later.space.lists_under(p, x) ==> self.space.lists_under(p, x)
        &&& forall|p: u64, x: u64|
            self.space.lists_under(p, x) && !reclaimable(x, oldest) ==> later.space.lists_under(
                p,
                x,
            )
        &&& later.freed.len() >= self.freed.len()
        &&& later.freed.take(self.freed.len() as int) == self.freed
    }

    /// The write of the content `d` into sub-database `dbi`, where the
    /// transaction can take the pages that the write may need, and the
    /// entries can be counted; else map-full.
    pub open spec fn change(
        self,
        dbi: int,
        d: DbView,
        oldest: Option<u64>,
        txnid: u64,
        out: Outcome,
    ) -> Result<WriterState, MdbxError> {
        if d.entries.len() > usize::MAX || !can_take(self.space, oldest, room_for(self.dbs[dbi], d)) {
            Err(MdbxError::MapFull)
        } else {
            Ok(self.write(dbi, d, txnid, out))
        }
    }

    /// What a put into sub-database `dbi` does: the failure of the put as
    /// `DbView::put` gives it; nothing where the put keeps the sub-database;
    /// map-full where the transaction cannot take the pages that the write
    /// may need; else the write of the new content.
    pub open spec fn put(
        self,
        dbi: int,
        k: Seq<u8>,
        v: Seq<u8>,
        pf: PutFlags,
        oldest: Option<u64>,
        txnid: u64,
        out: Outcome,
    ) -> Result<WriterState, MdbxError> {
        match self.dbs[dbi].db.put(k, v, pf) {
            Err(e) => Err(e),
            Ok(d) => if self.dbs[dbi].db.put_keeps(k, v, pf) {
                Ok(self)
            } else {
                self.change(dbi, d, oldest, txnid, out)
            },
        }
    }

    /// What a delete from sub-database `dbi` does: the failure of the
    /// delete as `DbView::del` gives it; map-full where the transaction
    /// cannot take the pages that the write may need; else the write of the
    /// new content.
    pub open spec fn del(
        self,
        dbi: int,
        k: Seq<u8>,
        v: Option<Seq<u8>>,
        oldest: Option<u64>,
        txnid: u64,
        out: Outcome,
    ) -> Result<WriterState, MdbxError> {
        match self.dbs[dbi].db.del(k, v) {
            Err(e) => Err(e),
            Ok(d) => self.change(dbi, d, oldest, txnid, out),
        }
    }
}

/// The keys after an entry was put in are the keys before with the new key
/// put in at the same index.
pub proof fn lemma_keys_insert(entries: Seq<EntryView>, i: int, e: EntryView)
    requires
        0 <= i <= entries.len(),
    ensures
        keys_of(entries.insert(i, e)) == keys_of(entries).insert(i, e.key),
{
    assert(keys_of(entries.insert(i, e)) =~= keys_of(entries).insert(i, e.key));
}

/// The keys after an entry was taken out are the keys before without the
/// key at that index.
pub proof fn lemma_keys_remove(entries: Seq<EntryView>, i: int)
    requires
        0 <= i < entries.len(),
    ensures
        keys_of(entries.remove(i)) == keys_of(entries).remove(i),
{
    assert(keys_of(entries.remove(i)) =~= keys_of(entries).remove(i));
}

/// Replacing the values of an entry leaves the keys as they were.
pub proof fn lemma_keys_update(entries: Seq<EntryView>, i: int, vals: Seq<Seq<u8>>)
    requires
        0 <= i < entries.len(),
    ensures
        keys_of(entries.update(i, EntryView { key: entries[i].key, vals })) == keys_of(entries),
{
    assert(keys_of(entries.update(i, EntryView { key: entries[i].key, vals })) =~= keys_of(
        entries,
    ));
}

/// An entry with the single value `v` is as `entry_ok` says.
pub proof fn lemma_single_entry_ok(flags: DbFlags, k: Seq<u8>, v: Seq<u8>)
    requires
        key_fits(flags, k),
        val_size_fits(flags, v),
    ensures
        entry_ok(flags, EntryView { key: k, vals: seq![v] }),
{
    let e = EntryView { key: k, vals: seq![v] };
    assert(e.vals[0] == v);
}

/// An entry stays as `entry_ok` says when a value that fits joins its values
/// at its lower bound.
pub proof fn lemma_join_entry_ok(flags: DbFlags, e: EntryView, v: Seq<u8>)
    requires
        entry_ok(flags, e),
        flags.dup_sort,
        val_size_fits(flags, v),
        flags.dup_fixed ==> v.len() == e.vals[0].len(),
        position(flags.dup_order(), e.vals, v) is None,
    ensures
        entry_ok(
            flags,
            EntryView { key: e.key, vals: e.vals.insert(lower_bound(flags.dup_order(), e.vals, v), v) },
        ),
        e.vals.insert(lower_bound(flags.dup_order(), e.vals, v), v)[0].len() == v.len()
            || e.vals.insert(lower_bound(flags.dup_order(), e.vals, v), v)[0] == e.vals[0],
{
    let vo = flags.dup_order();
    let j = lower_bound(vo, e.vals, v);
    lemma_lower_bound(vo, e.vals, v);
    lemma_insert_sorted(vo, e.vals, v);
    let nv = e.vals.insert(j, v);
    assert forall|b: int| 0 <= b < nv.len() implies val_size_fits(flags, #[trigger] nv[b]) && (
    flags.dup_fixed ==> nv[b].len() == e.vals[0].len()) by {
        if b < j {
            assert(nv[b] == e.vals[b]);
        } else if b > j {
            assert(nv[b] == e.vals[b - 1]);
        }
    }
    assert(nv[0] == if j == 0 { v } else { e.vals[0] });
}

/// An entry stays as `entry_ok` says when one of several values leaves it.
pub proof fn lemma_leave_entry_ok(flags: DbFlags, e: EntryView, j: int)
    requires
        entry_ok(flags, e),
        0 <= j < e.vals.len(),
        e.vals.len() >= 2,
    ensures
        entry_ok(flags, EntryView { key: e.key, vals: e.vals.remove(j) }),
        flags.dup_fixed ==> e.vals.remove(j)[0].len() == e.vals[0].len(),
{
    let vo = flags.dup_order();
    lemma_remove_sorted(vo, e.vals, j);
    let nv = e.vals.remove(j);
    assert forall|b: int| 0 <= b < nv.len() implies val_size_fits(flags, #[trigger] nv[b]) && (
    flags.dup_fixed ==> nv[b].len() == e.vals[0].len()) by {
        let b0 = if b < j { b } else { b + 1 };
        assert(nv[b] == e.vals[b0]);
    }
    assert(nv[0] == e.vals[if j == 0 { 1int } else { 0int }]);
}

/// A put leaves a well-formed sub-database well-formed, and a put that
/// keeps the sub-database returns it as it was.
pub proof fn lemma_put_wf(db: DbView, k: Seq<u8>, v: Seq<u8>, pf: PutFlags)
    requires
        db.wf(),
    ensures
        db.put(k, v, pf) matches Ok(d) ==> d.wf() && d.flags == db.flags,
        db.put_keeps(k, v, pf) ==> db.put(k, v, pf) == Ok::<DbView, MdbxError>(db),
{
    let ko = db.flags.key_order();
    let vo = db.flags.dup_order();
    let ks = db.keys();
    let i = lower_bound(ko, ks, k);
    lemma_lower_bound(ko, ks, k);
    if let Ok(d) = db.put(k, v, pf) {
        if db.find(k) is None {
            let e = EntryView { key: k, vals: seq![v] };
            lemma_keys_insert(db.entries, i, e);
            lemma_insert_sorted(ko, ks, k);
            lemma_single_entry_ok(db.flags, k, v);
            assert forall|a: int| 0 <= a < d.entries.len() implies entry_ok(
                d.flags,
                #[trigger] d.entries[a],
            ) && (d.flags.dup_fixed ==> d.entries[a].vals[0].len() == v.len()) by {
                if a < i {
                    assert(d.entries[a] == db.entries[a]);
                } else if a > i {
                    assert(d.entries[a] == db.entries[a - 1]);
                } else {
                    assert(d.entries[a] == e);
                    assert(e.vals[0] == v);
                }
                if db.entries.len() > 0 {
                    assert(entry_ok(db.flags, db.entries[0]));
                }
            }
        } else {
            let old = db.entries[i];
            assert(entry_ok(db.flags, old));
            assert(entry_ok(db.flags, db.entries[0]));
            if d != db {
                let nv = d.entries[i].vals;
                lemma_keys_update(db.entries, i, nv);
                if nv == seq![v] {
                    lemma_single_entry_ok(db.flags, k, v);
                    assert(nv[0] == v);
                } else {
                    lemma_position(vo, old.vals, v);
                    lemma_join_entry_ok(db.flags, old, v);
                }
                assert(d.entries[i] == EntryView { key: old.key, vals: nv });
                assert forall|a: int| 0 <= a < d.entries.len() implies entry_ok(
                    d.flags,
                    #[trigger] d.entries[a],
                ) && (d.flags.dup_fixed ==> d.entries[a].vals[0].len() == v.len()) by {
                    if a != i {
                        assert(d.entries[a] == db.entries[a]);
                    }
                }
            }
        }
    }
    if db.put_keeps(k, v, pf) {
        lemma_position(vo, db.entries[i].vals, v);
    }
}

/// A delete leaves a well-formed sub-database well-formed.
pub proof fn lemma_del_wf(db: DbView, k: Seq<u8>, v: Option<Seq<u8>>)
    requires
        db.wf(),
    ensures
        db.del(k, v) matches Ok(d) ==> d.wf() && d.flags == db.flags,
{
    let ko = db.flags.key_order();
    let vo = db.flags.dup_order();
    let ks = db.keys();
    if let Ok(d) = db.del(k, v) {
        let i = db.find(k)->0;
        lemma_lower_bound(ko, ks, k);
        let old = db.entries[i];
        let len0 = db.entries[0].vals[0].len();
        assert(entry_ok(db.flags, old));
        assert(entry_ok(db.flags, db.entries[0]));
        if d.entries.len() < db.entries.len() {
            lemma_keys_remove(db.entries, i);
            lemma_remove_sorted(ko, ks, i);
            assert forall|a: int| 0 <= a < d.entries.len() implies entry_ok(
                d.flags,
                #[trigger] d.entries[a],
            ) && (d.flags.dup_fixed ==> d.entries[a].vals[0].len() == len0) by {
                let a0 = if a < i { a } else { a + 1 };
                assert(d.entries[a] == db.entries[a0]);
            }
        } else {
            let j = position(vo, old.vals, v->0)->0;
            let nv = old.vals.remove(j);
            lemma_lower_bound(vo, old.vals, v->0);
            lemma_keys_update(db.entries, i, nv);
            lemma_leave_entry_ok(db.flags, old, j);
            assert(d.entries[i] == EntryView { key: old.key, vals: nv });
            assert forall|a: int| 0 <= a < d.entries.len() implies entry_ok(
                d.flags,
                #[trigger] d.entries[a],
            ) && (d.flags.dup_fixed ==> d.entries[a].vals[0].len() == len0) by {
                if a != i {
                    assert(d.entries[a] == db.entries[a]);
                }
            }
        }
    }
}

/// Replacing a value in its place leaves a well-formed sub-database
/// well-formed.
pub proof fn lemma_swap_wf(db: DbView, k: Seq<u8>, old: Seq<u8>, v: Seq<u8>)
    requires
        db.wf(),
    ensures
        db.swap(k, old, v) matches Ok(d) ==> d.wf() && d.flags == db.flags && d.entries.len() > 0,
{
    let ko = db.flags.key_order();
    let vo = db.flags.dup_order();
    if let Ok(d) = db.swap(k, old, v) {
        let i = db.find(k)->0;
        lemma_lower_bound(ko, db.keys(), k);
        let e = db.entries[i];
        assert(entry_ok(db.flags, e));
        assert(entry_ok(db.flags, db.entries[0]));
        let j = position(vo, e.vals, old)->0;
        lemma_lower_bound(vo, e.vals, old);
        let nv = e.vals.update(j, v);
        lemma_keys_update(db.entries, i, nv);
        assert(sorted(vo, nv)) by {
            assert forall|a: int, b: int| 0 <= a < b < nv.len() implies bytes_lt(
                vo,
                #[trigger] nv[a],
                #[trigger] nv[b],
            ) by {
                if a == j {
                    if b > j + 1 {
                        assert(bytes_lt(vo, e.vals[j + 1], e.vals[b]));
                        lemma_order_transitive(vo, v, e.vals[j + 1], e.vals[b]);
                    }
                } else if b == j {
                    if a < j - 1 {
                        assert(bytes_lt(vo, e.vals[a], e.vals[j - 1]));
                        lemma_order_transitive(vo, e.vals[a], e.vals[j - 1], v);
                    }
                } else {
                    assert(bytes_lt(vo, e.vals[a], e.vals[b]));
                }
            }
        }
        let ne = EntryView { key: e.key, vals: nv };
        assert(entry_ok(db.flags, ne)) by {
            assert forall|b: int| 0 <= b < nv.len() implies val_size_fits(db.flags, #[trigger] nv[b]) && (
            db.flags.dup_fixed ==> nv[b].len() == nv[0].len()) by {
                if b != j {
                    assert(nv[b] == e.vals[b]);
                }
                if j != 0 {
                    assert(nv[0] == e.vals[0]);
                }
            }
        }
        assert(d.entries[i] == ne);
        assert forall|a: int| 0 <= a < d.entries.len() implies entry_ok(
            d.flags,
            #[trigger] d.entries[a],
        ) && (d.flags.dup_fixed ==> d.entries[a].vals[0].len() == v.len()) by {
            if a != i {
                assert(d.entries[a] == db.entries[a]);
            } else {
                assert(nv[0] == if j == 0 { v } else { e.vals[0] });
            }
        }
    }
}

} // verus!
