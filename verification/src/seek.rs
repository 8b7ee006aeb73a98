//! Where a cursor operation leads: from a position in a sub-database to the
//! pair that the operation asks for.
//!
//! A position is the pair that the cursor last stood on. It stays a position
//! when the pair is deleted: the pairs before and after it are still before
//! and after it.
use crate::constants::MDBX_cursor_op;
use crate::error::MdbxError;
use crate::flags::DbFlags;
use crate::leaf::find_val;
use crate::rows::{find_key, Rows};
use crate::model::{
    entry_ok, lemma_lower_bound, lemma_upper_bound, lower_bound, position, upper_bound, DbView,
    EntryView,
};
use vstd::prelude::*;

verus! {

/// What a cursor operation goes by.
#[derive(Debug, Copy, Clone, PartialEq, Eq, Structural)]
pub enum OpKind {
    /// The position of the cursor.
    Move,
    /// A key.
    Key,
    /// A key and a value.
    Pair,
    /// A key or the position; several values are returned at once.
    Multiple,
}

/// What the operation `op` goes by.
pub open spec fn op_kind(op: MDBX_cursor_op) -> OpKind {
    match op {
        MDBX_cursor_op::MDBX_FIRST | MDBX_cursor_op::MDBX_LAST | MDBX_cursor_op::MDBX_NEXT
        | MDBX_cursor_op::MDBX_PREV | MDBX_cursor_op::MDBX_NEXT_NODUP
        | MDBX_cursor_op::MDBX_PREV_NODUP | MDBX_cursor_op::MDBX_NEXT_DUP
        | MDBX_cursor_op::MDBX_PREV_DUP | MDBX_cursor_op::MDBX_FIRST_DUP
        | MDBX_cursor_op::MDBX_LAST_DUP | MDBX_cursor_op::MDBX_GET_CURRENT => OpKind::Move,
        MDBX_cursor_op::MDBX_SET | MDBX_cursor_op::MDBX_SET_KEY | MDBX_cursor_op::MDBX_SET_RANGE
        | MDBX_cursor_op::MDBX_TO_KEY_LESSER_THAN | MDBX_cursor_op::MDBX_TO_KEY_LESSER_OR_EQUAL
        | MDBX_cursor_op::MDBX_TO_KEY_EQUAL | MDBX_cursor_op::MDBX_TO_KEY_GREATER_OR_EQUAL
        | MDBX_cursor_op::MDBX_TO_KEY_GREATER_THAN => OpKind::Key,
        MDBX_cursor_op::MDBX_GET_MULTIPLE | MDBX_cursor_op::MDBX_NEXT_MULTIPLE
        | MDBX_cursor_op::MDBX_PREV_MULTIPLE
        | MDBX_cursor_op::MDBX_SEEK_AND_GET_MULTIPLE => OpKind::Multiple,
        _ => OpKind::Pair,
    }
}

/// The place of a pair: the index of its entry and the index of its value
/// among the entry's values.
pub struct Spot {
    pub entry: int,
    pub val: int,
}

impl DbView {
    /// The index of the first key that does not sort before `k`.
    pub open spec fn key_from(self, k: Seq<u8>) -> int {
        lower_bound(self.flags.key_order(), self.keys(), k)
    }

    /// The index of the first key that sorts after `k`.
    pub open spec fn key_above(self, k: Seq<u8>) -> int {
        upper_bound(self.flags.key_order(), self.keys(), k)
    }

    /// The index, among the values of entry `i`, of the first value that
    /// does not sort before `v`.
    pub open spec fn val_from(self, i: int, v: Seq<u8>) -> int {
        lower_bound(self.flags.dup_order(), self.entries[i].vals, v)
    }

    /// The index, among the values of entry `i`, of the first value that
    /// sorts after `v`.
    pub open spec fn val_above(self, i: int, v: Seq<u8>) -> int {
        upper_bound(self.flags.dup_order(), self.entries[i].vals, v)
    }

    /// The first value of entry `i`, if there is such an entry.
    pub open spec fn head(self, i: int) -> Option<Spot> {
        if 0 <= i < self.entries.len() {
            Some(Spot { entry: i, val: 0 })
        } else {
            None
        }
    }

    /// The last value of entry `i`, if there is such an entry.
    pub open spec fn tail(self, i: int) -> Option<Spot> {
        if 0 <= i < self.entries.len() {
            Some(Spot { entry: i, val: self.entries[i].vals.len() - 1 })
        } else {
            None
        }
    }

    /// Value `j` of entry `i`, if the entry has such a value.
    pub open spec fn within(self, i: int, j: int) -> Option<Spot> {
        if 0 <= j < self.entries[i].vals.len() {
            Some(Spot { entry: i, val: j })
        } else {
            None
        }
    }

    /// The first pair that sorts after the pair `k`, `v`.
    pub open spec fn after(self, k: Seq<u8>, v: Seq<u8>) -> Option<Spot> {
        match self.find(k) {
            Some(i) => match self.within(i, self.val_above(i, v)) {
                Some(s) => Some(s),
                None => self.head(i + 1),
            },
            None => self.head(self.key_from(k)),
        }
    }

    /// The first pair that does not sort before the pair `k`, `v`.
    pub open spec fn from(self, k: Seq<u8>, v: Seq<u8>) -> Option<Spot> {
        match self.find(k) {
            Some(i) => match self.within(i, self.val_from(i, v)) {
                Some(s) => Some(s),
                None => self.head(i + 1),
            },
            None => self.head(self.key_from(k)),
        }
    }

    /// The last pair that sorts before the pair `k`, `v`.
    pub open spec fn before(self, k: Seq<u8>, v: Seq<u8>) -> Option<Spot> {
        match self.find(k) {
            Some(i) => match self.within(i, self.val_from(i, v) - 1) {
                Some(s) => Some(s),
                None => self.tail(i - 1),
            },
            None => self.tail(self.key_from(k) - 1),
        }
    }

    /// The last pair that does not sort after the pair `k`, `v`.
    pub open spec fn upto(self, k: Seq<u8>, v: Seq<u8>) -> Option<Spot> {
        match self.find(k) {
            Some(i) => match self.within(i, self.val_above(i, v) - 1) {
                Some(s) => Some(s),
                None => self.tail(i - 1),
            },
            None => self.tail(self.key_from(k) - 1),
        }
    }

    /// The place of the pair `k`, `v`, if it is stored.
    pub open spec fn exactly(self, k: Seq<u8>, v: Seq<u8>) -> Option<Spot> {
        match self.find(k) {
            Some(i) => match position(self.flags.dup_order(), self.entries[i].vals, v) {
                Some(j) => Some(Spot { entry: i, val: j }),
                None => None,
            },
            None => None,
        }
    }

    /// The pair at a place.
    pub open spec fn pair_at(self, s: Spot) -> (Seq<u8>, Seq<u8>) {
        (self.entries[s.entry].key, self.entries[s.entry].vals[s.val])
    }

    /// Where an operation that moves from the position `at` leads. Without
    /// a position a forward move starts at the first pair and a backward
    /// move at the last, and an operation that needs the current key or pair
    /// has no data.
    pub open spec fn step(self, at: Option<(Seq<u8>, Seq<u8>)>, op: MDBX_cursor_op) -> Result<
        Option<Spot>,
        MdbxError,
    > {
        let n = self.entries.len() as int;
        match op {
            MDBX_cursor_op::MDBX_FIRST => Ok(self.head(0)),
            MDBX_cursor_op::MDBX_LAST => Ok(self.tail(n - 1)),
            MDBX_cursor_op::MDBX_NEXT => match at {
                None => Ok(self.head(0)),
                Some((ck, cv)) => Ok(self.after(ck, cv)),
            },
            MDBX_cursor_op::MDBX_PREV => match at {
                None => Ok(self.tail(n - 1)),
                Some((ck, cv)) => Ok(self.before(ck, cv)),
            },
            MDBX_cursor_op::MDBX_NEXT_NODUP => match at {
                None => Ok(self.head(0)),
                Some((ck, cv)) => Ok(self.head(self.key_above(ck))),
            },
            MDBX_cursor_op::MDBX_PREV_NODUP => match at {
                None => Ok(self.tail(n - 1)),
                Some((ck, cv)) => Ok(self.tail(self.key_from(ck) - 1)),
            },
            MDBX_cursor_op::MDBX_NEXT_DUP => match at {
                None => Err(MdbxError::NoData),
                Some((ck, cv)) => match self.find(ck) {
                    Some(i) => Ok(self.within(i, self.val_above(i, cv))),
                    None => Ok(None),
                },
            },
            MDBX_cursor_op::MDBX_PREV_DUP => match at {
                None => Err(MdbxError::NoData),
                Some((ck, cv)) => match self.find(ck) {
                    Some(i) => Ok(self.within(i, self.val_from(i, cv) - 1)),
                    None => Ok(None),
                },
            },
            MDBX_cursor_op::MDBX_FIRST_DUP => match at {
                None => Err(MdbxError::NoData),
                Some((ck, cv)) => match self.find(ck) {
                    Some(i) => Ok(self.head(i)),
                    None => Ok(None),
                },
            },
            MDBX_cursor_op::MDBX_LAST_DUP => match at {
                None => Err(MdbxError::NoData),
                Some((ck, cv)) => match self.find(ck) {
                    Some(i) => Ok(self.tail(i)),
                    None => Ok(None),
                },
            },
            MDBX_cursor_op::MDBX_GET_CURRENT => match at {
                None => Err(MdbxError::NoData),
                Some((ck, cv)) => Ok(self.exactly(ck, cv)),
            },
            _ => Err(MdbxError::InvalidArgument),
        }
    }

    /// Where an operation that looks for the key `k` leads.
    pub open spec fn to_key(self, op: MDBX_cursor_op, k: Seq<u8>) -> Result<Option<Spot>, MdbxError> {
        match op {
            MDBX_cursor_op::MDBX_SET | MDBX_cursor_op::MDBX_SET_KEY
            | MDBX_cursor_op::MDBX_TO_KEY_EQUAL => match self.find(k) {
                Some(i) => Ok(self.head(i)),
                None => Ok(None),
            },
            MDBX_cursor_op::MDBX_SET_RANGE | MDBX_cursor_op::MDBX_TO_KEY_GREATER_OR_EQUAL => Ok(
                self.head(self.key_from(k)),
            ),
            MDBX_cursor_op::MDBX_TO_KEY_GREATER_THAN => Ok(self.head(self.key_above(k))),
            MDBX_cursor_op::MDBX_TO_KEY_LESSER_THAN => Ok(self.tail(self.key_from(k) - 1)),
            MDBX_cursor_op::MDBX_TO_KEY_LESSER_OR_EQUAL => match self.find(k) {
                Some(i) => Ok(self.head(i)),
                None => Ok(self.tail(self.key_from(k) - 1)),
            },
            _ => Err(MdbxError::InvalidArgument),
        }
    }

    /// Where an operation that looks for the pair `k`, `v` leads. The
    /// operations that return several values at once are not among these.
    pub open spec fn to_pair(self, op: MDBX_cursor_op, k: Seq<u8>, v: Seq<u8>) -> Result<
        Option<Spot>,
        MdbxError,
    > {
        match op {
            MDBX_cursor_op::MDBX_GET_BOTH | MDBX_cursor_op::MDBX_TO_EXACT_KEY_VALUE_EQUAL
            | MDBX_cursor_op::MDBX_TO_PAIR_EQUAL => Ok(self.exactly(k, v)),
            MDBX_cursor_op::MDBX_GET_BOTH_RANGE
            | MDBX_cursor_op::MDBX_TO_EXACT_KEY_VALUE_GREATER_OR_EQUAL => match self.find(k) {
                Some(i) => Ok(self.within(i, self.val_from(i, v))),
                None => Ok(None),
            },
            MDBX_cursor_op::MDBX_TO_EXACT_KEY_VALUE_GREATER_THAN => match self.find(k) {
                Some(i) => Ok(self.within(i, self.val_above(i, v))),
                None => Ok(None),
            },
            MDBX_cursor_op::MDBX_TO_EXACT_KEY_VALUE_LESSER_THAN => match self.find(k) {
                Some(i) => Ok(self.within(i, self.val_from(i, v) - 1)),
                None => Ok(None),
            },
            MDBX_cursor_op::MDBX_TO_EXACT_KEY_VALUE_LESSER_OR_EQUAL => match self.find(k) {
                Some(i) => Ok(self.within(i, self.val_above(i, v) - 1)),
                None => Ok(None),
            },
            MDBX_cursor_op::MDBX_TO_PAIR_LESSER_THAN => Ok(self.before(k, v)),
            MDBX_cursor_op::MDBX_TO_PAIR_LESSER_OR_EQUAL => Ok(self.upto(k, v)),
            MDBX_cursor_op::MDBX_TO_PAIR_GREATER_OR_EQUAL => Ok(self.from(k, v)),
            MDBX_cursor_op::MDBX_TO_PAIR_GREATER_THAN => Ok(self.after(k, v)),
            MDBX_cursor_op::MDBX_SET_LOWERBOUND => if self.flags.dup_sort {
                Ok(self.from(k, v))
            } else {
                Ok(self.head(self.key_from(k)))
            },
            MDBX_cursor_op::MDBX_SET_UPPERBOUND => if self.flags.dup_sort {
                Ok(self.after(k, v))
            } else {
                Ok(self.head(self.key_above(k)))
            },
            _ => Err(MdbxError::InvalidArgument),
        }
    }

    /// Where the operation `op` leads from the position `at`, given the key
    /// `k` and the value `v`: the place of a pair, or why there is none. An
    /// operation that finds no pair reports not found.
    pub open spec fn seek(
        self,
        at: Option<(Seq<u8>, Seq<u8>)>,
        op: MDBX_cursor_op,
        k: Seq<u8>,
        v: Seq<u8>,
    ) -> Result<Spot, MdbxError> {
        let found = match op_kind(op) {
            OpKind::Move => self.step(at, op),
            OpKind::Key => self.to_key(op, k),
            OpKind::Pair => self.to_pair(op, k, v),
            OpKind::Multiple => Err(MdbxError::InvalidArgument),
        };
        match found {
            Err(e) => Err(e),
            Ok(None) => Err(MdbxError::NotFound),
            Ok(Some(s)) => Ok(s),
        }
    }

    /// Whether the pair that a seek found is the very pair that was asked
    /// for. Only the lower-bound operation can find another pair and still
    /// succeed with a pair to tell apart; for every other operation this is
    /// true.
    pub open spec fn seek_exact(self, op: MDBX_cursor_op, k: Seq<u8>, v: Seq<u8>, s: Spot) -> bool {
        match op {
            MDBX_cursor_op::MDBX_SET_LOWERBOUND => self.entries[s.entry].key == k && (
            !self.flags.dup_sort || self.entries[s.entry].vals[s.val] == v),
            _ => true,
        }
    }
}

/// A place in the entries of a page.
#[derive(Debug, Copy, Clone, PartialEq, Eq, Structural)]
pub struct Place {
    pub entry: usize,
    pub val: usize,
}

impl View for Place {
    type V = Spot;

    open spec fn view(&self) -> Spot {
        Spot { entry: self.entry as int, val: self.val as int }
    }
}

/// Whether a place names a pair of the sub-database.
pub open spec fn spot_ok(db: DbView, s: Spot) -> bool {
    0 <= s.entry < db.entries.len() && 0 <= s.val < db.entries[s.entry].vals.len()
}

/// Every place that the bound functions name is a pair of the
/// sub-database, or none.
pub proof fn lemma_spots(db: DbView, k: Seq<u8>, v: Seq<u8>)
    requires
        db.wf(),
    ensures
        0 <= db.key_from(k) <= db.key_above(k) <= db.entries.len(),
        db.key_above(k) == db.key_from(k) + if db.find(k) is Some { 1int } else { 0int },
        db.find(k) matches Some(i) ==> 0 <= i < db.entries.len() && i == db.key_from(k)
            && db.entries[i].key == k && 0 <= db.val_from(i, v) <= db.val_above(i, v)
            <= db.entries[i].vals.len() && db.val_above(i, v) == db.val_from(i, v) + if position(
            db.flags.dup_order(),
            db.entries[i].vals,
            v,
        ) is Some { 1int } else { 0int },
        forall|i: int| 0 <= i < db.entries.len() ==> (#[trigger] db.entries[i]).vals.len() >= 1,
{
    let ko = db.flags.key_order();
    let vo = db.flags.dup_order();
    lemma_lower_bound(ko, db.keys(), k);
    lemma_upper_bound(ko, db.keys(), k);
    if let Some(i) = db.find(k) {
        assert(entry_ok(db.flags, db.entries[i]));
        lemma_lower_bound(vo, db.entries[i].vals, v);
        lemma_upper_bound(vo, db.entries[i].vals, v);
    }
    assert forall|i: int| 0 <= i < db.entries.len() implies (#[trigger] db.entries[i]).vals.len()
        >= 1 by {
        assert(entry_ok(db.flags, db.entries[i]));
    }
}

/// Whether a place, if there is one, names a pair of the entries.
pub open spec fn in_range(o: Option<Place>, es: Seq<EntryView>) -> bool {
    o matches Some(p) ==> p.entry < es.len() && p.val < es[p.entry as int].vals.len()
}

/// The place that an optional place in a page stands for.
pub open spec fn opt_spot(o: Option<Place>) -> Option<Spot> {
    match o {
        Some(p) => Some(p@),
        None => None,
    }
}

/// What the operation `op` goes by.
pub fn kind_of(op: MDBX_cursor_op) -> (k: OpKind)
    ensures
        k == op_kind(op),
{
    match op {
        MDBX_cursor_op::MDBX_FIRST | MDBX_cursor_op::MDBX_LAST | MDBX_cursor_op::MDBX_NEXT
        | MDBX_cursor_op::MDBX_PREV | MDBX_cursor_op::MDBX_NEXT_NODUP
        | MDBX_cursor_op::MDBX_PREV_NODUP | MDBX_cursor_op::MDBX_NEXT_DUP
        | MDBX_cursor_op::MDBX_PREV_DUP | MDBX_cursor_op::MDBX_FIRST_DUP
        | MDBX_cursor_op::MDBX_LAST_DUP | MDBX_cursor_op::MDBX_GET_CURRENT => OpKind::Move,
        MDBX_cursor_op::MDBX_SET | MDBX_cursor_op::MDBX_SET_KEY | MDBX_cursor_op::MDBX_SET_RANGE
        | MDBX_cursor_op::MDBX_TO_KEY_LESSER_THAN | MDBX_cursor_op::MDBX_TO_KEY_LESSER_OR_EQUAL
        | MDBX_cursor_op::MDBX_TO_KEY_EQUAL | MDBX_cursor_op::MDBX_TO_KEY_GREATER_OR_EQUAL
        | MDBX_cursor_op::MDBX_TO_KEY_GREATER_THAN => OpKind::Key,
        MDBX_cursor_op::MDBX_GET_MULTIPLE | MDBX_cursor_op::MDBX_NEXT_MULTIPLE
        | MDBX_cursor_op::MDBX_PREV_MULTIPLE
        | MDBX_cursor_op::MDBX_SEEK_AND_GET_MULTIPLE => OpKind::Multiple,
        _ => OpKind::Pair,
    }
}

/// The first value of entry `i`, if there is such an entry.
fn head(flags: &DbFlags, es: &Rows, i: usize) -> (r: Option<Place>)
    requires
        es.ok(),
        es.db(*flags).wf(),
    ensures
        opt_spot(r) == es.db(*flags).head(i as int),
        in_range(r, es@),
{
    if i < es.len() {
        proof {
            let db = es.db(*flags);
            assert(entry_ok(*flags, db.entries[i as int]));
            assert(db.entries[i as int].vals.len() == es@[i as int].vals.len());
        }
        Some(Place { entry: i, val: 0 })
    } else {
        None
    }
}

/// The last value of the entry before entry `i`, if there is such an
/// entry.
fn tail_before(flags: &DbFlags, es: &Rows, i: usize) -> (r: Option<Place>)
    requires
        es.ok(),
        es.db(*flags).wf(),
        i <= es@.len(),
    ensures
        opt_spot(r) == es.db(*flags).tail(i - 1),
        in_range(r, es@),
{
    if i == 0 {
        None
    } else {
        proof {
            let db = es.db(*flags);
            assert(entry_ok(*flags, db.entries[i - 1]));
            assert(db.entries[i - 1].vals.len() == es@[i - 1].vals.len());
        }
        Some(Place { entry: i - 1, val: es.at(i - 1).vals.len() - 1 })
    }
}

/// Value `j` of entry `i`, if the entry has such a value.
fn within(flags: &DbFlags, es: &Rows, i: usize, j: usize) -> (r: Option<Place>)
    requires
        es.ok(),
        i < es@.len(),
    ensures
        opt_spot(r) == es.db(*flags).within(i as int, j as int),
        in_range(r, es@),
{
    assert(es.db(*flags).entries[i as int].vals.len() == es@[i as int].vals.len());
    if j < es.at(i).vals.len() {
        Some(Place { entry: i, val: j })
    } else {
        None
    }
}

/// The value before value `j` of entry `i`, if there is one.
fn within_before(flags: &DbFlags, es: &Rows, i: usize, j: usize) -> (r: Option<Place>)
    requires
        i < es@.len(),
        j <= es@[i as int].vals.len(),
    ensures
        opt_spot(r) == es.db(*flags).within(i as int, j - 1),
        in_range(r, es@),
{
    assert(es.db(*flags).entries[i as int].vals.len() == es@[i as int].vals.len());
    if j == 0 {
        None
    } else {
        Some(Place { entry: i, val: j - 1 })
    }
}

/// The bounds of the key `k` among the keys: the index of the first key
/// that does not sort before it, the index of the first that sorts after it,
/// and whether it is there.
fn key_bounds(flags: &DbFlags, es: &Rows, k: &[u8]) -> (r: (usize, usize, bool))
    requires
        es.ok(),
        es.db(*flags).wf(),
    ensures
        r.0 == es.db(*flags).key_from(k@),
        r.1 == es.db(*flags).key_above(k@),
        r.2 == (es.db(*flags).find(k@) is Some),
        r.2 ==> es.db(*flags).find(k@) == Some(r.0 as int) && r.0 < es@.len(),
        r.0 <= r.1 <= es@.len(),
{
    proof {
        lemma_spots(es.db(*flags), k@, k@);
    }
    let (i, found) = find_key(flags.get_key_order(), es, k);
    if found {
        (i, i + 1, true)
    } else {
        (i, i, false)
    }
}

/// The bounds of the value `v` among the values of entry `i`.
fn val_bounds(flags: &DbFlags, es: &Rows, i: usize, v: &[u8]) -> (r: (usize, usize, bool))
    requires
        es.ok(),
        es.db(*flags).wf(),
        i < es@.len(),
    ensures
        r.0 == es.db(*flags).val_from(i as int, v@),
        r.1 == es.db(*flags).val_above(i as int, v@),
        r.2 == (position(flags.dup_order(), es.db(*flags).entries[i as int].vals, v@) is Some),
        r.2 ==> position(flags.dup_order(), es.db(*flags).entries[i as int].vals, v@) == Some(
            r.0 as int,
        ),
        r.0 <= r.1 <= es@[i as int].vals.len(),
{
    proof {
        let db = es.db(*flags);
        assert(entry_ok(*flags, db.entries[i as int]));
        lemma_lower_bound(flags.dup_order(), db.entries[i as int].vals, v@);
        lemma_upper_bound(flags.dup_order(), db.entries[i as int].vals, v@);
    }
    let (j, found) = find_val(flags.get_dup_order(), &es.at(i).vals, v);
    if found {
        (j, j + 1, true)
    } else {
        (j, j, false)
    }
}

/// The first pair that sorts after the pair `k`, `v`.
fn after(flags: &DbFlags, es: &Rows, k: &[u8], v: &[u8]) -> (r: Option<Place>)
    requires
        es.ok(),
        es.db(*flags).wf(),
    ensures
        opt_spot(r) == es.db(*flags).after(k@, v@),
        in_range(r, es@),
{
    let (i, _, found) = key_bounds(flags, es, k);
    if found {
        let (_, j, _) = val_bounds(flags, es, i, v);
        match within(flags, es, i, j) {
            Some(p) => Some(p),
            None => head(flags, es, i + 1),
        }
    } else {
        head(flags, es, i)
    }
}

/// The first pair that does not sort before the pair `k`, `v`.
fn from(flags: &DbFlags, es: &Rows, k: &[u8], v: &[u8]) -> (r: Option<Place>)
    requires
        es.ok(),
        es.db(*flags).wf(),
    ensures
        opt_spot(r) == es.db(*flags).from(k@, v@),
        in_range(r, es@),
{
    let (i, _, found) = key_bounds(flags, es, k);
    if found {
        let (j, _, _) = val_bounds(flags, es, i, v);
        match within(flags, es, i, j) {
            Some(p) => Some(p),
            None => head(flags, es, i + 1),
        }
    } else {
        head(flags, es, i)
    }
}

/// The last pair that sorts before the pair `k`, `v`.
fn before(flags: &DbFlags, es: &Rows, k: &[u8], v: &[u8]) -> (r: Option<Place>)
    requires
        es.ok(),
        es.db(*flags).wf(),
    ensures
        opt_spot(r) == es.db(*flags).before(k@, v@),
        in_range(r, es@),
{
    let (i, _, found) = key_bounds(flags, es, k);
    if found {
        let (j, _, _) = val_bounds(flags, es, i, v);
        match within_before(flags, es, i, j) {
            Some(p) => Some(p),
            None => tail_before(flags, es, i),
        }
    } else {
        tail_before(flags, es, i)
    }
}

/// The last pair that does not sort after the pair `k`, `v`.
fn upto(flags: &DbFlags, es: &Rows, k: &[u8], v: &[u8]) -> (r: Option<Place>)
    requires
        es.ok(),
        es.db(*flags).wf(),
    ensures
        opt_spot(r) == es.db(*flags).upto(k@, v@),
        in_range(r, es@),
{
    let (i, _, found) = key_bounds(flags, es, k);
    if found {
        let (_, j, _) = val_bounds(flags, es, i, v);
        match within_before(flags, es, i, j) {
            Some(p) => Some(p),
            None => tail_before(flags, es, i),
        }
    } else {
        tail_before(flags, es, i)
    }
}

/// The place of the pair `k`, `v`, if it is stored.
fn exactly(flags: &DbFlags, es: &Rows, k: &[u8], v: &[u8]) -> (r: Option<Place>)
    requires
        es.ok(),
        es.db(*flags).wf(),
    ensures
        opt_spot(r) == es.db(*flags).exactly(k@, v@),
        in_range(r, es@),
{
    let (i, _, found) = key_bounds(flags, es, k);
    if found {
        let (j, _, vfound) = val_bounds(flags, es, i, v);
        if vfound {
            Some(Place { entry: i, val: j })
        } else {
            None
        }
    } else {
        None
    }
}

/// Where an operation that moves from the position leads.
fn step(flags: &DbFlags, es: &Rows, at: Option<(&[u8], &[u8])>, op: MDBX_cursor_op) -> (r:
    Result<Option<Place>, MdbxError>)
    requires
        es.ok(),
        es.db(*flags).wf(),
    ensures
        match es.db(*flags).step(at_view(at), op) {
            Ok(s) => r is Ok && opt_spot(r->Ok_0) == s && in_range(r->Ok_0, es@),
            Err(e) => r == Err::<Option<Place>, MdbxError>(e),
        },
{
    match op {
        MDBX_cursor_op::MDBX_FIRST => Ok(head(flags, es, 0)),
        MDBX_cursor_op::MDBX_LAST => Ok(tail_before(flags, es, es.len())),
        MDBX_cursor_op::MDBX_NEXT => match at {
            None => Ok(head(flags, es, 0)),
            Some((ck, cv)) => Ok(after(flags, es, ck, cv)),
        },
        MDBX_cursor_op::MDBX_PREV => match at {
            None => Ok(tail_before(flags, es, es.len())),
            Some((ck, cv)) => Ok(before(flags, es, ck, cv)),
        },
        MDBX_cursor_op::MDBX_NEXT_NODUP => match at {
            None => Ok(head(flags, es, 0)),
            Some((ck, cv)) => {
                let (_, above, _) = key_bounds(flags, es, ck);
                Ok(head(flags, es, above))
            },
        },
        MDBX_cursor_op::MDBX_PREV_NODUP => match at {
            None => Ok(tail_before(flags, es, es.len())),
            Some((ck, cv)) => {
                let (i, _, _) = key_bounds(flags, es, ck);
                Ok(tail_before(flags, es, i))
            },
        },
        MDBX_cursor_op::MDBX_NEXT_DUP => match at {
            None => Err(MdbxError::NoData),
            Some((ck, cv)) => {
                let (i, _, found) = key_bounds(flags, es, ck);
                if found {
                    let (_, j, _) = val_bounds(flags, es, i, cv);
                    Ok(within(flags, es, i, j))
                } else {
                    Ok(None)
                }
            },
        },
        MDBX_cursor_op::MDBX_PREV_DUP => match at {
            None => Err(MdbxError::NoData),
            Some((ck, cv)) => {
                let (i, _, found) = key_bounds(flags, es, ck);
                if found {
                    let (j, _, _) = val_bounds(flags, es, i, cv);
                    Ok(within_before(flags, es, i, j))
                } else {
                    Ok(None)
                }
            },
        },
        MDBX_cursor_op::MDBX_FIRST_DUP => match at {
            None => Err(MdbxError::NoData),
            Some((ck, cv)) => {
                let (i, _, found) = key_bounds(flags, es, ck);
                if found {
                    Ok(head(flags, es, i))
                } else {
                    Ok(None)
                }
            },
        },
        MDBX_cursor_op::MDBX_LAST_DUP => match at {
            None => Err(MdbxError::NoData),
            Some((ck, cv)) => {
                let (i, _, found) = key_bounds(flags, es, ck);
                if found {
                    Ok(tail_before(flags, es, i + 1))
                } else {
                    Ok(None)
                }
            },
        },
        MDBX_cursor_op::MDBX_GET_CURRENT => match at {
            None => Err(MdbxError::NoData),
            Some((ck, cv)) => Ok(exactly(flags, es, ck, cv)),
        },
        _ => Err(MdbxError::InvalidArgument),
    }
}

/// The position that a borrowed pair stands for.
pub open spec fn at_view(at: Option<(&[u8], &[u8])>) -> Option<(Seq<u8>, Seq<u8>)> {
    match at {
        Some((k, v)) => Some((k@, v@)),
        None => None,
    }
}

/// Where an operation that looks for the key `k` leads.
fn to_key(flags: &DbFlags, es: &Rows, op: MDBX_cursor_op, k: &[u8]) -> (r: Result<
    Option<Place>,
    MdbxError,
>)
    requires
        es.ok(),
        es.db(*flags).wf(),
    ensures
        match es.db(*flags).to_key(op, k@) {
            Ok(s) => r is Ok && opt_spot(r->Ok_0) == s && in_range(r->Ok_0, es@),
            Err(e) => r == Err::<Option<Place>, MdbxError>(e),
        },
{
    let (i, above, found) = key_bounds(flags, es, k);
    match op {
        MDBX_cursor_op::MDBX_SET | MDBX_cursor_op::MDBX_SET_KEY
        | MDBX_cursor_op::MDBX_TO_KEY_EQUAL => {
            if found {
                Ok(head(flags, es, i))
            } else {
                Ok(None)
            }
        },
        MDBX_cursor_op::MDBX_SET_RANGE | MDBX_cursor_op::MDBX_TO_KEY_GREATER_OR_EQUAL => Ok(
            head(flags, es, i),
        ),
        MDBX_cursor_op::MDBX_TO_KEY_GREATER_THAN => Ok(head(flags, es, above)),
        MDBX_cursor_op::MDBX_TO_KEY_LESSER_THAN => Ok(tail_before(flags, es, i)),
        MDBX_cursor_op::MDBX_TO_KEY_LESSER_OR_EQUAL => {
            if found {
                Ok(head(flags, es, i))
            } else {
                Ok(tail_before(flags, es, i))
            }
        },
        _ => Err(MdbxError::InvalidArgument),
    }
}

/// Where an operation that looks for the pair `k`, `v` leads.
fn to_pair(flags: &DbFlags, es: &Rows, op: MDBX_cursor_op, k: &[u8], v: &[u8]) -> (r: Result<
    Option<Place>,
    MdbxError,
>)
    requires
        es.ok(),
        es.db(*flags).wf(),
    ensures
        match es.db(*flags).to_pair(op, k@, v@) {
            Ok(s) => r is Ok && opt_spot(r->Ok_0) == s && in_range(r->Ok_0, es@),
            Err(e) => r == Err::<Option<Place>, MdbxError>(e),
        },
{
    let (i, above, found) = key_bounds(flags, es, k);
    match op {
        MDBX_cursor_op::MDBX_GET_BOTH | MDBX_cursor_op::MDBX_TO_EXACT_KEY_VALUE_EQUAL
        | MDBX_cursor_op::MDBX_TO_PAIR_EQUAL => Ok(exactly(flags, es, k, v)),
        MDBX_cursor_op::MDBX_GET_BOTH_RANGE
        | MDBX_cursor_op::MDBX_TO_EXACT_KEY_VALUE_GREATER_OR_EQUAL => {
            if found {
                let (j, _, _) = val_bounds(flags, es, i, v);
                Ok(within(flags, es, i, j))
            } else {
                Ok(None)
            }
        },
        MDBX_cursor_op::MDBX_TO_EXACT_KEY_VALUE_GREATER_THAN => {
            if found {
                let (_, j, _) = val_bounds(flags, es, i, v);
                Ok(within(flags, es, i, j))
            } else {
                Ok(None)
            }
        },
        MDBX_cursor_op::MDBX_TO_EXACT_KEY_VALUE_LESSER_THAN => {
            if found {
                let (j, _, _) = val_bounds(flags, es, i, v);
                Ok(within_before(flags, es, i, j))
            } else {
                Ok(None)
            }
        },
        MDBX_cursor_op::MDBX_TO_EXACT_KEY_VALUE_LESSER_OR_EQUAL => {
            if found {
                let (_, j, _) = val_bounds(flags, es, i, v);
                Ok(within_before(flags, es, i, j))
            } else {
                Ok(None)
            }
        },
        MDBX_cursor_op::MDBX_TO_PAIR_LESSER_THAN => Ok(before(flags, es, k, v)),
        MDBX_cursor_op::MDBX_TO_PAIR_LESSER_OR_EQUAL => Ok(upto(flags, es, k, v)),
        MDBX_cursor_op::MDBX_TO_PAIR_GREATER_OR_EQUAL => Ok(from(flags, es, k, v)),
        MDBX_cursor_op::MDBX_TO_PAIR_GREATER_THAN => Ok(after(flags, es, k, v)),
        MDBX_cursor_op::MDBX_SET_LOWERBOUND => {
            if flags.dup_sort {
                Ok(from(flags, es, k, v))
            } else {
                Ok(head(flags, es, i))
            }
        },
        MDBX_cursor_op::MDBX_SET_UPPERBOUND => {
            if flags.dup_sort {
                Ok(after(flags, es, k, v))
            } else {
                Ok(head(flags, es, above))
            }
        },
        _ => Err(MdbxError::InvalidArgument),
    }
}

/// Where the operation `op` leads from the position `at`, given the key
/// `k` and the value `v`.
pub fn seek(
    flags: &DbFlags,
    es: &Rows,
    at: Option<(&[u8], &[u8])>,
    op: MDBX_cursor_op,
    k: &[u8],
    v: &[u8],
) -> (r: Result<Place, MdbxError>)
    requires
        es.ok(),
        es.db(*flags).wf(),
    ensures
        match es.db(*flags).seek(at_view(at), op, k@, v@) {
            Ok(s) => r is Ok && r->Ok_0@ == s && spot_ok(es.db(*flags), s),
            Err(e) => r == Err::<Place, MdbxError>(e),
        },
{
    let found = match kind_of(op) {
        OpKind::Move => step(flags, es, at, op),
        OpKind::Key => to_key(flags, es, op, k),
        OpKind::Pair => to_pair(flags, es, op, k, v),
        OpKind::Multiple => Err(MdbxError::InvalidArgument),
    };
    match found {
        Err(e) => Err(e),
        Ok(None) => Err(MdbxError::NotFound),
        Ok(Some(p)) => {
            proof {
                assert(es.db(*flags).entries[p.entry as int].vals.len() == es@[p.entry as int].vals.len());
            }
            Ok(p)
        },
    }
}

} // verus!
