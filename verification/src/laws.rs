//! What holds of the engine whatever is stored and whatever was done
//! before, stated over the values of `model` and `state` and proved from
//! what the calls are specified to do.
use crate::constants::{MDBX_cursor_op, MDBX_RDONLY, MDBX_TXN_RDONLY, MDBX_TXN_TRY};
use crate::error::MdbxError;
use crate::flags::{spec_has, PutFlags};
use crate::model::{
    entry_ok, lemma_insert_sorted, lemma_keys_insert, lemma_keys_update, lemma_lower_bound,
    lemma_oldest_of, lemma_position, lemma_put_wf, lemma_upper_bound, lower_bound, position, DbView,
    EntryView, Outcome, WriterState,
};
use crate::order::{bytes_lt, le_value, lemma_integer_order, lemma_order_total, ByteOrder};
use crate::seek::Spot;
use crate::space::free_count;
use crate::state::{
    db_state_ok, first_free, pages_sum, pins_of, spec_txn_flag_mask, version_valid, BeginView,
    EnvView, ReaderState, TxnView,
};
use vstd::arithmetic::power2::pow2;
use vstd::prelude::*;

verus! {

/// A pair that was put is there afterwards. Where a key has one value, a
/// get of the key returns the value that was put.
pub proof fn law_put_then_get(db: DbView, k: Seq<u8>, v: Seq<u8>, pf: PutFlags)
    requires
        db.wf(),
        db.put(k, v, pf) is Ok,
    ensures
        db.put(k, v, pf)->Ok_0.has_pair(k, v),
        db.put(k, v, pf)->Ok_0.find(k) is Some,
        !db.flags.dup_sort ==> db.put(k, v, pf)->Ok_0.get(k) == Some(v),
{
    let d = db.put(k, v, pf)->Ok_0;
    let ko = db.flags.key_order();
    let vo = db.flags.dup_order();
    let ks = db.keys();
    let i = lower_bound(ko, ks, k);
    lemma_lower_bound(ko, ks, k);
    lemma_put_wf(db, k, v, pf);
    if db.find(k) is None {
        let e = EntryView { key: k, vals: seq![v] };
        lemma_keys_insert(db.entries, i, e);
        lemma_insert_sorted(ko, ks, k);
        assert(d.entries[i] == e);
        assert(e.vals[0] == v);
    } else if d != db {
        let nv = d.entries[i].vals;
        lemma_keys_update(db.entries, i, nv);
        assert(entry_ok(db.flags, db.entries[i]));
        if nv == seq![v] {
            assert(nv[0] == v);
        } else {
            let j = lower_bound(vo, db.entries[i].vals, v);
            lemma_lower_bound(vo, db.entries[i].vals, v);
            assert(nv[j] == v);
        }
    } else {
        assert(entry_ok(db.flags, db.entries[i]));
        if !db.put_keeps(k, v, pf) {
            // The new content equals the old one: the value was there.
            let old = db.entries[i].vals;
            if !db.flags.dup_sort || pf.all_dups || pf.current {
                assert(db.with_vals(i, seq![v]) == db);
                assert(db.with_vals(i, seq![v]).entries[i].vals == seq![v]);
                assert(old[0] == v);
            } else {
                let j = lower_bound(vo, old, v);
                lemma_lower_bound(vo, old, v);
                if position(vo, old, v) is None {
                    assert(db.with_vals(i, old.insert(j, v)).entries[i].vals == old.insert(j, v));
                    assert(old.insert(j, v).len() == old.len() + 1);
                } else {
                    lemma_position(vo, old, v);
                }
            }
        } else {
            lemma_position(vo, db.entries[i].vals, v);
        }
    }
}

/// A put with no-overwrite for a key that is there fails with key-exists,
/// whatever the value, and leaves what the key has.
pub proof fn law_no_overwrite(db: DbView, k: Seq<u8>, v2: Seq<u8>, pf: PutFlags)
    requires
        db.wf(),
        db.find(k) is Some,
        pf.no_overwrite,
        !pf.append,
        pf.fits(db.flags),
    ensures
        db.put(k, v2, pf) == Err::<DbView, MdbxError>(MdbxError::KeyExist),
{
    let ko = db.flags.key_order();
    lemma_lower_bound(ko, db.keys(), k);
    let i = db.find(k)->0;
    assert(entry_ok(db.flags, db.entries[i]));
    assert(db.keys()[i] == db.entries[i].key);
}

/// Put and then put again with no-overwrite: the second put fails with
/// key-exists, and the key still has the first value.
pub proof fn law_first_value_stays(db: DbView, k: Seq<u8>, v1: Seq<u8>, v2: Seq<u8>)
    requires
        db.wf(),
        db.put(k, v1, PutFlags::upsert()) is Ok,
    ensures
        db.put(k, v1, PutFlags::upsert())->Ok_0.put(
            k,
            v2,
            PutFlags { no_overwrite: true, ..PutFlags::upsert() },
        ) == Err::<DbView, MdbxError>(MdbxError::KeyExist),
        !db.flags.dup_sort ==> db.put(k, v1, PutFlags::upsert())->Ok_0.get(k) == Some(v1),
{
    let d = db.put(k, v1, PutFlags::upsert())->Ok_0;
    lemma_put_wf(db, k, v1, PutFlags::upsert());
    law_put_then_get(db, k, v1, PutFlags::upsert());
    law_no_overwrite(d, k, v2, PutFlags { no_overwrite: true, ..PutFlags::upsert() });
}

/// The values of a key come in ascending order: from a value of a key the
/// next-duplicate operation leads to the value that follows it, which sorts
/// after it, and from the last value it finds nothing.
pub proof fn law_duplicates_ascend(db: DbView, i: int, j: int)
    requires
        db.wf(),
        0 <= i < db.entries.len(),
        0 <= j < db.entries[i].vals.len(),
    ensures
        j + 1 < db.entries[i].vals.len() ==> db.seek(
            Some(db.pair_at(Spot { entry: i, val: j })),
            MDBX_cursor_op::MDBX_NEXT_DUP,
            Seq::empty(),
            Seq::empty(),
        ) == Ok::<Spot, MdbxError>(Spot { entry: i, val: j + 1 }) && bytes_lt(
            db.flags.dup_order(),
            db.entries[i].vals[j],
            db.entries[i].vals[j + 1],
        ),
        j + 1 == db.entries[i].vals.len() ==> db.seek(
            Some(db.pair_at(Spot { entry: i, val: j })),
            MDBX_cursor_op::MDBX_NEXT_DUP,
            Seq::empty(),
            Seq::empty(),
        ) == Err::<Spot, MdbxError>(MdbxError::NotFound),
        db.seek(
            Some(db.pair_at(Spot { entry: i, val: j })),
            MDBX_cursor_op::MDBX_FIRST_DUP,
            Seq::empty(),
            Seq::empty(),
        ) == Ok::<Spot, MdbxError>(Spot { entry: i, val: 0 }),
{
    let ko = db.flags.key_order();
    let vo = db.flags.dup_order();
    let k = db.entries[i].key;
    let v = db.entries[i].vals[j];
    assert(db.keys()[i] == k);
    lemma_position(ko, db.keys(), k);
    assert(db.find(k) == Some(i));
    assert(entry_ok(db.flags, db.entries[i]));
    lemma_position(vo, db.entries[i].vals, v);
    lemma_upper_bound(vo, db.entries[i].vals, v);
    lemma_lower_bound(vo, db.entries[i].vals, v);
}

/// From a pair the next operation leads to the pair that follows it: the
/// next value of the key, or the first value of the next key; from the last
/// pair it finds nothing.
pub proof fn law_next_follows(db: DbView, i: int, j: int)
    requires
        db.wf(),
        0 <= i < db.entries.len(),
        0 <= j < db.entries[i].vals.len(),
    ensures
        db.seek(
            Some(db.pair_at(Spot { entry: i, val: j })),
            MDBX_cursor_op::MDBX_NEXT,
            Seq::empty(),
            Seq::empty(),
        ) == (if j + 1 < db.entries[i].vals.len() {
            Ok::<Spot, MdbxError>(Spot { entry: i, val: j + 1 })
        } else if i + 1 < db.entries.len() {
            Ok::<Spot, MdbxError>(Spot { entry: i + 1, val: 0 })
        } else {
            Err::<Spot, MdbxError>(MdbxError::NotFound)
        }),
{
    let ko = db.flags.key_order();
    let vo = db.flags.dup_order();
    let k = db.entries[i].key;
    let v = db.entries[i].vals[j];
    assert(db.keys()[i] == k);
    lemma_position(ko, db.keys(), k);
    assert(entry_ok(db.flags, db.entries[i]));
    lemma_position(vo, db.entries[i].vals, v);
    lemma_upper_bound(vo, db.entries[i].vals, v);
    lemma_lower_bound(vo, db.entries[i].vals, v);
}

/// Seeking the nearest key that does not sort before `k`: when every key
/// sorts before `k` nothing is found; when `k` sorts before every key the
/// first key is found.
pub proof fn law_lower_bound_edges(db: DbView, at: Option<(Seq<u8>, Seq<u8>)>, k: Seq<u8>)
    requires
        db.wf(),
    ensures
        (forall|i: int|
            0 <= i < db.entries.len() ==> bytes_lt(
                db.flags.key_order(),
                (#[trigger] db.entries[i]).key,
                k,
            )) ==> db.seek(at, MDBX_cursor_op::MDBX_SET_RANGE, k, Seq::empty()) == Err::<
            Spot,
            MdbxError,
        >(MdbxError::NotFound),
        db.entries.len() > 0 && (forall|i: int|
            0 <= i < db.entries.len() ==> bytes_lt(
                db.flags.key_order(),
                k,
                (#[trigger] db.entries[i]).key,
            )) ==> db.seek(at, MDBX_cursor_op::MDBX_SET_RANGE, k, Seq::empty()) == Ok::<
            Spot,
            MdbxError,
        >(Spot { entry: 0, val: 0 }),
{
    let ko = db.flags.key_order();
    let ks = db.keys();
    lemma_lower_bound(ko, ks, k);
    let lb = lower_bound(ko, ks, k);
    if forall|i: int|
        0 <= i < db.entries.len() ==> bytes_lt(ko, (#[trigger] db.entries[i]).key, k) {
        if lb < ks.len() {
            assert(ks[lb] == db.entries[lb].key);
        }
    }
    if db.entries.len() > 0 && (forall|i: int|
        0 <= i < db.entries.len() ==> bytes_lt(ko, k, (#[trigger] db.entries[i]).key)) {
        if lb > 0 {
            assert(ks[0] == db.entries[0].key);
            lemma_order_total(ko, k, ks[0]);
        }
    }
}

/// Within a transaction a get returns what a put has stored, where a key
/// has one value.
pub proof fn law_put_then_get_in_transaction(
    e: EnvView,
    t: TxnView,
    dbi: u32,
    k: Seq<u8>,
    v: Seq<u8>,
    flags: u32,
    out: Outcome,
)
    requires
        e.valid(),
        e.put(t, dbi, k, v, flags, out) is Ok,
        !e.writers.last().dbs[dbi as int].db.flags.dup_sort,
    ensures
        e.put(t, dbi, k, v, flags, out)->Ok_0.get(t, dbi, k) == Ok::<Seq<u8>, MdbxError>(v),
{
    let w = e.writers.last();
    let pf = PutFlags::spec_parse(flags)->Ok_0;
    let db = w.dbs[dbi as int].db;
    assert(db_state_ok(w.dbs[dbi as int]));
    lemma_put_wf(db, k, v, pf);
    law_put_then_get(db, k, v, pf);
}

/// A reader that begins after a commit sees what the committed transaction
/// has put, where a key has one value.
pub proof fn law_put_then_get_after_commit(
    e: EnvView,
    t: TxnView,
    dbi: u32,
    k: Seq<u8>,
    v: Seq<u8>,
    flags: u32,
    rflags: u32,
    out: Outcome,
)
    requires
        e.valid(),
        e.writers.len() == 1,
        e.put(t, dbi, k, v, flags, out) is Ok,
        !e.writers.last().dbs[dbi as int].db.flags.dup_sort,
        e.put(t, dbi, k, v, flags, out)->Ok_0.commit(t)->Ok_0.begin(None, rflags).1 is Started,
        spec_has(rflags, MDBX_TXN_RDONLY),
    ensures
        e.put(t, dbi, k, v, flags, out)->Ok_0.commit(t) is Ok,
        ({
            let after = e.put(t, dbi, k, v, flags, out)->Ok_0.commit(t)->Ok_0.begin(None, rflags);
            after.0.get(after.1->Started_0, dbi, k) == Ok::<Seq<u8>, MdbxError>(v)
        }),
{
    let w = e.writers.last();
    let pf = PutFlags::spec_parse(flags)->Ok_0;
    let db = w.dbs[dbi as int].db;
    assert(db_state_ok(w.dbs[dbi as int]));
    lemma_put_wf(db, k, v, pf);
    law_put_then_get(db, k, v, pf);
    let e2 = e.put(t, dbi, k, v, flags, out)->Ok_0;
    assert(e2.is_top(t));
    assert(!e2.is_reader(t));
    let e3 = e2.commit(t)->Ok_0;
    let (e4, b) = e3.begin(None, rflags);
    let r = b->Started_0;
    let slot = first_free(e3.readers);
    lemma_first_free_range(e3.readers);
    assert(e4.readers[slot] == Some(
        ReaderState { handle: e3.next_handle, live: true, txnid: e3.txnid, dbs: e3.dbs },
    ));
}

/// The first free slot lies within the reader table or just behind it.
pub proof fn lemma_first_free_range(readers: Seq<Option<ReaderState>>)
    ensures
        0 <= first_free(readers) <= readers.len(),
        first_free(readers) < readers.len() ==> readers[first_free(readers)] is None,
    decreases readers.len(),
{
    if readers.len() > 0 && readers[0] is Some {
        lemma_first_free_range(readers.skip(1));
    }
}

/// What a write transaction does is hidden from every reader that began
/// before: after a put, a delete, the emptying of a sub-database or the
/// commit, the reader finds under every key what it found before.
pub proof fn law_snapshot_isolation(
    e: EnvView,
    r: TxnView,
    rdbi: u32,
    rk: Seq<u8>,
    t: TxnView,
    dbi: u32,
    k: Seq<u8>,
    v: Seq<u8>,
    ov: Option<Seq<u8>>,
    flags: u32,
    out: Outcome,
)
    requires
        e.valid(),
        e.is_reader(r),
    ensures
        e.put(t, dbi, k, v, flags, out) matches Ok(x) ==> x.get(r, rdbi, rk) == e.get(r, rdbi, rk),
        e.del(t, dbi, k, ov, out) matches Ok(x) ==> x.get(r, rdbi, rk) == e.get(r, rdbi, rk),
        e.drop(t, dbi, false, out) matches Ok(x) ==> x.get(r, rdbi, rk) == e.get(r, rdbi, rk),
        e.is_writer(t) ==> (e.commit(t) matches Ok(x) ==> x.get(r, rdbi, rk) == e.get(r, rdbi, rk)),
        e.is_writer(t) ==> (e.abort(t) matches Ok(x) ==> x.get(r, rdbi, rk) == e.get(r, rdbi, rk)),
{
}

/// A write touches the innermost write transaction only: its parents, what
/// is committed and the readers stay as they are.
pub proof fn law_write_stays_inside(
    e: EnvView,
    t: TxnView,
    dbi: u32,
    k: Seq<u8>,
    v: Seq<u8>,
    ov: Option<Seq<u8>>,
    flags: u32,
    out: Outcome,
)
    requires
        e.valid(),
    ensures
        e.put(t, dbi, k, v, flags, out) matches Ok(x) ==> x.writers.drop_last()
            == e.writers.drop_last() && x.dbs == e.dbs && x.space == e.space && x.txnid == e.txnid
            && x.readers == e.readers,
        e.del(t, dbi, k, ov, out) matches Ok(x) ==> x.writers.drop_last() == e.writers.drop_last()
            && x.dbs == e.dbs && x.space == e.space && x.txnid == e.txnid && x.readers == e.readers,
{
    if let Ok(x) = e.put(t, dbi, k, v, flags, out) {
        assert(x.writers.drop_last() =~= e.writers.drop_last());
    }
    if let Ok(x) = e.del(t, dbi, k, ov, out) {
        assert(x.writers.drop_last() =~= e.writers.drop_last());
    }
}

/// Aborting a child leaves the parent exactly as it was when the child
/// began, whatever the child has put or deleted: only the number for the
/// next transaction has moved on.
pub proof fn law_child_abort_restores(
    e: EnvView,
    parent: TxnView,
    bflags: u32,
    dbi: u32,
    k: Seq<u8>,
    v: Seq<u8>,
    flags: u32,
    out: Outcome,
)
    requires
        e.valid(),
        e.begin(Some(parent), bflags).1 is Started,
    ensures
        ({
            let (e1, b) = e.begin(Some(parent), bflags);
            let child = b->Started_0;
            &&& e1.abort(child) == Ok::<EnvView, MdbxError>(EnvView { next_handle: e1.next_handle, ..e })
            &&& e1.put(child, dbi, k, v, flags, out) matches Ok(e2) ==> e2.abort(child) == Ok::<
                EnvView,
                MdbxError,
            >(EnvView { next_handle: e1.next_handle, ..e })
        }),
{
    let (e1, b) = e.begin(Some(parent), bflags);
    let child = b->Started_0;
    assert(!spec_has(bflags, MDBX_TXN_RDONLY));
    assert(e.is_top(parent));
    let n = e.writers.len() as int;
    assert(e1.writers.take(n) =~= e.writers);
    assert(e1.is_writer(child));
    assert(forall|s: int| 0 <= s < e.readers.len() ==> ((#[trigger] e.readers[s]) matches Some(r)
        ==> r.handle < e.next_handle));
    assert(!e1.is_reader(child)) by {
        if e1.is_reader(child) {
            assert(e.readers[child.slot as int]->0.handle < e.next_handle);
        }
    }
    if let Ok(e2) = e1.put(child, dbi, k, v, flags, out) {
        assert(e2.writers.take(n) =~= e.writers);
    }
}

/// While a reader pins a snapshot, a write takes no page that was freed
/// by the transaction of that snapshot or a later one: whatever the write
/// transaction has in hand afterwards, every such page is still on its free
/// list.
pub proof fn law_pinned_pages_stay(
    e: EnvView,
    r: TxnView,
    later: WriterState,
    room: nat,
    q: u64,
    x: u64,
)
    requires
        e.valid(),
        e.is_reader(r),
        e.readers[r.slot as int]->0.live,
        x >= e.readers[r.slot as int]->0.txnid,
        e.writers.len() > 0,
        e.writers.last().leads_to(later, e.oldest(), room),
        e.writers.last().space.lists_under(q, x),
    ensures
        later.space.lists_under(q, x),
{
    let pins = pins_of(e.readers);
    lemma_oldest_of(pins);
    assert(pins[r.slot as int] == Some(e.readers[r.slot as int]->0.txnid));
}

/// Integer keys sort by their numbers: a key of four bytes sorts before a
/// key of eight, and keys of one length sort as the unsigned little-endian
/// numbers that they hold.
pub proof fn law_integer_keys_sort_by_number(a: Seq<u8>, b: Seq<u8>)
    ensures
        a.len() < b.len() ==> bytes_lt(ByteOrder::Integer, a, b),
        a.len() == b.len() ==> (bytes_lt(ByteOrder::Integer, a, b) <==> le_value(a) < le_value(b)),
{
    if a.len() == b.len() {
        lemma_integer_order(a, b);
    }
}

/// The tree of a sub-database is shallow: with every level more it holds
/// twice as many keys at least. No transaction sees a tree of more than 64
/// levels.
pub proof fn law_trees_are_shallow(e: EnvView, t: TxnView, dbi: u32)
    requires
        e.valid(),
        e.sees(t) is Some,
        dbi < e.sees(t)->0.len(),
    ensures
        ({
            let d = e.sees(t)->0[dbi as int];
            &&& d.depth <= 64
            &&& d.depth > 0 ==> pow2((d.depth - 1) as nat) <= d.db.entries.len()
            &&& d.leaves <= d.db.entries.len()
            &&& d.depth >= 2 ==> d.branches < d.leaves
        }),
{
    let dbs = e.sees(t)->0;
    if e.is_reader(t) && e.readers[t.slot as int]->0.live {
        assert(version_valid(e.readers[t.slot as int]->0.dbs));
    } else {
        assert(version_valid(e.writers[e.writers.len() - 1].dbs));
    }
    assert(db_state_ok(dbs[dbi as int]));
}

/// The pages of the file add up: they are as many as the leaves and
/// branches of the committed sub-databases and the free pages together, so
/// no page is lost and none is counted twice. For a write transaction the
/// pages that it has given up count as well.
pub proof fn law_pages_add_up(e: EnvView)
    requires
        e.valid(),
    ensures
        e.space.next == pages_sum(e.dbs) + free_count(e.space.free),
        forall|l: int|
            0 <= l < e.writers.len() ==> (#[trigger] e.writers[l]).space.next == pages_sum(
                e.writers[l].dbs,
            ) + free_count(e.writers[l].space.free) + e.writers[l].freed.len(),
{
}

/// Write transactions run one at a time: while one runs, another one does
/// not begin and changes nothing. It is told to wait, or told busy if it
/// asked not to wait.
pub proof fn law_writers_take_turns(e: EnvView, flags: u32)
    requires
        e.valid(),
        e.writers.len() > 0,
        !spec_has(flags, MDBX_TXN_RDONLY),
    ensures
        e.begin(None, flags).1 !is Started,
        e.begin(None, flags).0 == e,
        flags & !spec_txn_flag_mask() == 0 && e.next_handle < u64::MAX && !spec_has(
            e.flags,
            MDBX_RDONLY,
        ) ==> e.begin(None, flags).1 == (if spec_has(flags, MDBX_TXN_TRY) {
            BeginView::Failed(MdbxError::Busy)
        } else {
            BeginView::MustWait
        }),
{
}

/// Once the write transaction is committed or aborted, the next one
/// begins, if the environment admits writes and numbers are left.
pub proof fn law_writer_follows(e: EnvView, t: TxnView, flags: u32)
    requires
        e.valid(),
        e.writers.len() == 1,
        e.is_writer(t),
        !spec_has(flags, MDBX_TXN_RDONLY),
        flags & !spec_txn_flag_mask() == 0,
        !spec_has(e.flags, MDBX_RDONLY),
        e.next_handle < u64::MAX,
        e.txnid + 1 < u64::MAX,
    ensures
        e.commit(t) is Ok,
        e.commit(t)->Ok_0.begin(None, flags).1 is Started,
        e.abort(t) is Ok,
        e.abort(t)->Ok_0.begin(None, flags).1 is Started,
{
    assert(e.is_top(t));
    assert(!e.is_reader(t));
    assert(e.abort(t)->Ok_0.writers =~= Seq::empty());
}

} // verus!
