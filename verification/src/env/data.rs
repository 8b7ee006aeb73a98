//! Reading and changing the pairs of a sub-database.
use super::txn::{is_reader, is_top};
use super::{lemma_idle, MDBX_env, MDBX_txn};
use crate::error::MdbxError;
use crate::flags::PutFlags;
use crate::leaf::PutPlan;
use crate::model::{depth_near, entry_ok, lemma_del_wf, lemma_put_wf, most_room, WriterState};
use crate::pager::{can_take, Pager};
use crate::rows::{find_key, plan_del, plan_put, Rows};
use crate::state::{pins_of, values_of, EnvView, TxnView};
use crate::store::{find_oldest, oldest_reader, reader_pins, version_ok, version_view, DbRecord};
use crate::tree::Pages;
use crate::write::{level_apply, level_view, Change};
use vstd::prelude::*;

verus! {

/// The version that `txn` sees and the pager through which it reads, if
/// `txn` can be used.
pub(super) fn visible<'a>(env: &'a MDBX_env, txn: &MDBX_txn) -> (r: Option<
    (&'a Vec<DbRecord>, &'a Pager),
>)
    requires
        env.wf(),
    ensures
        match r {
            Some((dbs, pg)) => env@.sees(txn@) == Some(version_view(dbs@, pg.map(env.arena@)))
                && version_ok(dbs@, pg.map(env.arena@), env.cap as nat) && pg.wf(),
            None => env@.sees(txn@) is None,
        },
{
    if is_reader(env, txn) && env.readers[txn.slot].live {
        proof {
            let g = env.ground();
            assert(crate::store::reader_ok(g.arena, g.space, g.txnid, g.readers[txn.slot as int], g.cap));
            lemma_idle(env.idle, env.arena@);
        }
        Some((&env.readers[txn.slot].dbs, &env.idle))
    } else if is_top(env, txn) {
        proof {
            assert(env.ground().bears(env.writers@[txn.slot as int]));
        }
        Some((&env.writers[txn.slot].dbs, &env.writers[txn.slot].pager))
    } else {
        None
    }
}

/// Whether `dbi` is an open handle of a sub-database that exists in `dbs`.
pub(super) fn dbi_usable(env: &MDBX_env, dbs: &Vec<DbRecord>, dbi: u32) -> (b: bool)
    ensures
        forall|m: Pages| b == env@.dbi_ok(#[trigger] version_view(dbs@, m), dbi),
{
    let i = dbi as usize;
    i < dbs.len() && dbs[i].alive && i < env.handles.len() && env.handles[i]
}

/// The index that a handle stands for.
pub(super) fn index_of(dbi: u32) -> (i: usize)
    ensures
        i == dbi,
{
    dbi as usize
}

/// The oldest snapshot that the reader table pins is the oldest snapshot of
/// the environment's value.
pub(super) proof fn lemma_oldest(env: MDBX_env)
    ensures
        env@.oldest() == oldest_reader(env.readers@),
{
    assert(pins_of(env@.readers) =~= reader_pins(env.readers@));
}

/// The value stored under `key` in sub-database `dbi`; with sorted
/// duplicates, the first value of the key.
pub fn mdbx_get(env: &MDBX_env, txn: &MDBX_txn, dbi: u32, key: &[u8]) -> (r: Result<
    Vec<u8>,
    MdbxError,
>)
    requires
        env.wf(),
    ensures
        match env@.get(txn@, dbi, key@) {
            Ok(v) => r is Ok && r->Ok_0@ == v,
            Err(e) => r == Err::<Vec<u8>, MdbxError>(e),
        },
{
    let (dbs, pg) = match visible(env, txn) {
        Some(x) => x,
        None => {
            return Err(MdbxError::BadTxn);
        },
    };
    if !dbi_usable(env, dbs, dbi) {
        return Err(MdbxError::BadDbi);
    }
    let rec = &dbs[dbi as usize];
    proof {
        assert(dbs@[dbi as int].ok(pg.map(env.arena@), env.cap as nat));
    }
    let rows = Rows { pg, arena: &env.arena, tree: rec.tree, cap: Ghost(env.cap as nat) };
    let (i, found) = find_key(rec.flags.get_key_order(), &rows, key);
    if found {
        let e = rows.at(i);
        proof {
            assert(entry_ok(rec.flags, rows@[i as int]));
            assert(rows@[i as int].vals[0] == e.vals@[0]@);
        }
        Ok(e.vals[0].clone())
    } else {
        Err(MdbxError::NotFound)
    }
}

/// Puts a pair into sub-database `dbi`. What the put leaves of the page
/// numbers is what a write may leave.
pub fn mdbx_put(
    env: &mut MDBX_env,
    txn: &MDBX_txn,
    dbi: u32,
    key: &[u8],
    data: &[u8],
    flags: u32,
) -> (r: Result<(), MdbxError>)
    requires
        old(env).wf(),
    ensures
        final(env).wf(),
        match old(env)@.put(txn@, dbi, key@, data@, flags, final(env)@.outcome(dbi)) {
            Ok(v) => r is Ok && final(env)@ == v,
            Err(e) => r == Err::<(), MdbxError>(e) && final(env)@ == old(env)@,
        },
        r is Ok ==> old(env)@.writers.last().leads_to(
            final(env)@.writers.last(),
            old(env)@.oldest(),
            most_room(old(env)@.writers.last().dbs[dbi as int].depth),
        ),
        r is Ok ==> depth_near(
            old(env)@.writers.last().dbs[dbi as int].depth,
            final(env)@.writers.last().dbs[dbi as int].depth,
        ),
{
    put_one(env, txn, dbi, key, data, flags, false)
}

/// Whether the put of the value `v` as one of several values leads from
/// the environment `a` to the environment `b`.
#[verifier::opaque]
pub open spec fn put_step(a: EnvView, b: EnvView, t: TxnView, dbi: u32, k: Seq<u8>, v: Seq<u8>, flags: u32) -> bool {
    a.put_one(t, dbi, k, v, flags, true, b.outcome(dbi)) == Ok::<EnvView, MdbxError>(b)
}

/// Whether the put of the value `v` as one of several values fails in the
/// environment `a` with the error `e`.
#[verifier::opaque]
pub open spec fn put_fails(a: EnvView, t: TxnView, dbi: u32, k: Seq<u8>, v: Seq<u8>, flags: u32, e: MdbxError) -> bool {
    a.put_one(t, dbi, k, v, flags, true, a.outcome(dbi)) == Err::<EnvView, MdbxError>(e)
}

/// Value `i` of the values of `size` bytes each in `data`.
fn value_at(data: &[u8], size: usize, i: usize) -> (v: &[u8])
    requires
        size > 0,
        i < data@.len() / (size as nat),
    ensures
        v@ == values_of(data@, size as nat)[i as int],
{
    let ghost n = data@.len() / (size as nat);
    let len = data.len();
    proof {
        assert(n * size <= data@.len()) by (nonlinear_arith)
            requires
                n == data@.len() / (size as nat),
                size > 0,
        ;
        assert((i + 1) * size <= n * size) by (nonlinear_arith)
            requires
                i + 1 <= n,
                size > 0,
        ;
        assert((i + 1) * size == i * size + size) by (nonlinear_arith);
        assert(i * size >= 0) by (nonlinear_arith)
            requires
                i >= 0,
                size > 0,
        ;
        assert(i * size + size <= len);
    }
    let lo = i * size;
    vstd::slice::slice_subrange(data, lo, lo + size)
}

/// Puts one of several values.
fn put_next(env: &mut MDBX_env, txn: &MDBX_txn, dbi: u32, key: &[u8], v: &[u8], flags: u32) -> (r:
    Result<(), MdbxError>)
    requires
        old(env).wf(),
    ensures
        final(env).wf(),
        r is Ok ==> put_step(old(env)@, final(env)@, txn@, dbi, key@, v@, flags),
        r matches Err(e) ==> final(env)@ == old(env)@ && put_fails(old(env)@, txn@, dbi, key@, v@, flags, e),
{
    reveal(put_step);
    reveal(put_fails);
    put_one(env, txn, dbi, key, v, flags, true)
}

/// Puts several values of `size` bytes each, which stand one after the
/// other in `data`, under one key of a sub-database with values of one
/// length. The flags must carry the flag for several values; the others
/// hold for every value. The values are put one after the other, as far as
/// they can be: the number of values that were put is returned, with the
/// failure of the value that could not be put if there is one, and with the
/// states of the environment after each value. Data that is empty, or is
/// not made of values of `size` bytes, is an invalid argument.
pub fn mdbx_put_multiple(
    env: &mut MDBX_env,
    txn: &MDBX_txn,
    dbi: u32,
    key: &[u8],
    data: &[u8],
    size: usize,
    flags: u32,
) -> (r: (usize, Result<(), MdbxError>, Ghost<Seq<EnvView>>))
    requires
        old(env).wf(),
    ensures
        final(env).wf(),
        r.2@.len() == r.0 + 1,
        r.2@[0] == old(env)@,
        r.2@[r.0 as int] == final(env)@,
        size == 0 || data@.len() == 0 || data@.len() % (size as nat) != 0 ==> r.0 == 0 && r.1 == Err::<
            (),
            MdbxError,
        >(MdbxError::InvalidArgument),
        size > 0 && data@.len() > 0 && data@.len() % (size as nat) == 0 ==> {
            let vs = values_of(data@, size as nat);
            &&& r.0 <= vs.len()
            &&& forall|i: int|
                0 <= i < r.0 ==> put_step(#[trigger] r.2@[i], r.2@[i + 1], txn@, dbi, key@, vs[i], flags)
            &&& r.1 is Ok ==> r.0 == vs.len()
            &&& r.1 matches Err(e) ==> r.0 < vs.len() && put_fails(
                final(env)@,
                txn@,
                dbi,
                key@,
                vs[r.0 as int],
                flags,
                e,
            )
        },
{
    let ghost mut states: Seq<EnvView> = seq![env@];
    if size == 0 || data.len() == 0 || data.len() % size != 0 {
        return (0, Err(MdbxError::InvalidArgument), Ghost(states));
    }
    let n = data.len() / size;
    let ghost vs = values_of(data@, size as nat);
    let mut i: usize = 0;
    while i < n
        invariant
            env.wf(),
            size > 0,
            data@.len() > 0,
            data@.len() % (size as nat) == 0,
            n == data@.len() / (size as nat),
            vs == values_of(data@, size as nat),
            vs.len() == n,
            i <= n,
            states.len() == i + 1,
            states[0] == old(env)@,
            states[i as int] == env@,
            forall|j: int|
                0 <= j < i ==> put_step(#[trigger] states[j], states[j + 1], txn@, dbi, key@, vs[j], flags),
        decreases n - i,
    {
        let v = value_at(data, size, i);
        let ghost before = env@;
        match put_next(env, txn, dbi, key, v, flags) {
            Ok(()) => {
                proof {
                    let old_states = states;
                    states = states.push(env@);
                    assert forall|j: int| 0 <= j < i + 1 implies put_step(
                        #[trigger] states[j],
                        states[j + 1],
                        txn@,
                        dbi,
                        key@,
                        vs[j],
                        flags,
                    ) by {
                        if j < i {
                            assert(states[j] == old_states[j]);
                            assert(states[j + 1] == old_states[j + 1]);
                            assert(put_step(old_states[j], old_states[j + 1], txn@, dbi, key@, vs[j], flags));
                        } else {
                            assert(states[j] == before);
                            assert(states[j + 1] == env@);
                        }
                    }
                }
            },
            Err(e) => {
                return (i, Err(e), Ghost(states));
            },
        }
        i = i + 1;
    }
    (n, Ok(()), Ghost(states))
}

/// Puts a pair into sub-database `dbi`, as a put of its own or as one of
/// the values of a put of several values.
pub(super) fn put_one(
    env: &mut MDBX_env,
    txn: &MDBX_txn,
    dbi: u32,
    key: &[u8],
    data: &[u8],
    flags: u32,
    many: bool,
) -> (r: Result<(), MdbxError>)
    requires
        old(env).wf(),
    ensures
        final(env).wf(),
        match old(env)@.put_one(txn@, dbi, key@, data@, flags, many, final(env)@.outcome(dbi)) {
            Ok(v) => r is Ok && final(env)@ == v,
            Err(e) => r == Err::<(), MdbxError>(e) && final(env)@ == old(env)@,
        },
        r is Ok ==> old(env)@.writers.last().leads_to(
            final(env)@.writers.last(),
            old(env)@.oldest(),
            most_room(old(env)@.writers.last().dbs[dbi as int].depth),
        ),
        r is Ok ==> depth_near(
            old(env)@.writers.last().dbs[dbi as int].depth,
            final(env)@.writers.last().dbs[dbi as int].depth,
        ),
{
    let ghost g = env.ground();
    if is_reader(env, txn) {
        return Err(MdbxError::AccessDenied);
    }
    if !is_top(env, txn) {
        return Err(MdbxError::BadTxn);
    }
    let top = env.writers.len() - 1;
    if !dbi_usable(env, &env.writers[top].dbs, dbi) {
        return Err(MdbxError::BadDbi);
    }
    let pf = match PutFlags::parse(flags) {
        Ok(pf) => pf,
        Err(e) => {
            return Err(e);
        },
    };
    if pf.multiple != many {
        return Err(MdbxError::InvalidArgument);
    }
    let oldest = find_oldest(&env.readers);
    let i = dbi as usize;
    let cap = env.cap;
    proof {
        lemma_oldest(*env);
        let l = env.writers@[top as int];
        assert(g.bears(l));
        assert(l.dbs@[i as int].ok(l.pager.map(env.arena@), cap as nat));
        lemma_put_wf(l.dbs@[i as int].db(l.pager.map(env.arena@)), key@, data@, pf);
    }
    let plan = {
        let rec = &env.writers[top].dbs[i];
        let rows = Rows {
            pg: &env.writers[top].pager,
            arena: &env.arena,
            tree: rec.tree,
            cap: Ghost(cap as nat),
        };
        plan_put(&rec.flags, &rows, key, data, &pf)
    };
    let plan = match plan {
        Ok(p) => p,
        Err(e) => {
            return Err(e);
        },
    };
    match plan {
        PutPlan::Keep => {
            proof {
                let v = old(env)@.put_one(txn@, dbi, key@, data@, flags, many, env@.outcome(dbi))->Ok_0;
                assert(v.writers =~= old(env)@.writers);
                lemma_stays(
                    old(env)@.writers.last(),
                    old(env)@.oldest(),
                    most_room(old(env)@.writers.last().dbs[dbi as int].depth),
                );
            }
            return Ok(());
        },
        _ => {},
    }
    let id = env.txnid + 1;
    let res = level_apply(
        &mut env.writers[top],
        &env.arena,
        i,
        Change::Put(plan),
        key,
        data,
        oldest,
        id,
        cap,
        Ghost(g),
    );
    proof {
        lemma_top_changed(*old(env), *env);
        let l0 = old(env).writers@[top as int];
        let l1 = env.writers@[top as int];
        assert(old(env)@.writers.last() == level_view(l0, env.arena@));
        assert(env@.writers.last() == level_view(l1, env.arena@));
        if res is Ok {
            assert(level_view(l1, env.arena@).dbs.len() == level_view(l0, env.arena@).dbs.len());
            assert(level_view(l0, env.arena@).dbs[i as int] == l0.dbs@[i as int].state(
                l0.pager.map(env.arena@),
            ));
            assert(level_view(l1, env.arena@).dbs[i as int] == l1.dbs@[i as int].state(
                l1.pager.map(env.arena@),
            ));
        }
    }
    res
}

/// What a transaction has in hand may be what it has in hand after a
/// write that changed nothing.
pub(super) proof fn lemma_stays(w: WriterState, oldest: Option<u64>, room: nat)
    requires
        w.space.wf(),
    ensures
        w.leads_to(w, oldest, room),
{
    assert(w.freed.take(w.freed.len() as int) =~= w.freed);
    assert forall|k: nat| can_take(w.space, oldest, k + room) implies #[trigger] can_take(
        w.space,
        oldest,
        k,
    ) by {
        crate::pager::lemma_can_take_less(w.space, oldest, k + room, k);
    }
}

/// Deletes a key with all its values, or one pair, from sub-database
/// `dbi`. What the delete leaves of the page numbers is what a write may
/// leave.
pub fn mdbx_del(env: &mut MDBX_env, txn: &MDBX_txn, dbi: u32, key: &[u8], data: Option<&[u8]>) -> (r:
    Result<(), MdbxError>)
    requires
        old(env).wf(),
    ensures
        final(env).wf(),
        match old(env)@.del(
            txn@,
            dbi,
            key@,
            match data {
                Some(x) => Some(x@),
                None => None,
            },
            final(env)@.outcome(dbi),
        ) {
            Ok(v) => r is Ok && final(env)@ == v,
            Err(e) => r == Err::<(), MdbxError>(e) && final(env)@ == old(env)@,
        },
        r is Ok ==> old(env)@.writers.last().leads_to(
            final(env)@.writers.last(),
            old(env)@.oldest(),
            most_room(old(env)@.writers.last().dbs[dbi as int].depth),
        ),
        r is Ok ==> depth_near(
            old(env)@.writers.last().dbs[dbi as int].depth,
            final(env)@.writers.last().dbs[dbi as int].depth,
        ),
{
    let ghost g = env.ground();
    let ghost dv = match data {
        Some(x) => Some(x@),
        None => None,
    };
    if is_reader(env, txn) {
        return Err(MdbxError::AccessDenied);
    }
    if !is_top(env, txn) {
        return Err(MdbxError::BadTxn);
    }
    let top = env.writers.len() - 1;
    if !dbi_usable(env, &env.writers[top].dbs, dbi) {
        return Err(MdbxError::BadDbi);
    }
    let oldest = find_oldest(&env.readers);
    let i = dbi as usize;
    let cap = env.cap;
    proof {
        lemma_oldest(*env);
        let l = env.writers@[top as int];
        assert(g.bears(l));
        assert(l.dbs@[i as int].ok(l.pager.map(env.arena@), cap as nat));
        lemma_del_wf(l.dbs@[i as int].db(l.pager.map(env.arena@)), key@, dv);
    }
    let plan = {
        let rec = &env.writers[top].dbs[i];
        let rows = Rows {
            pg: &env.writers[top].pager,
            arena: &env.arena,
            tree: rec.tree,
            cap: Ghost(cap as nat),
        };
        plan_del(&rec.flags, &rows, key, data)
    };
    let plan = match plan {
        Ok(p) => p,
        Err(e) => {
            return Err(e);
        },
    };
    let id = env.txnid + 1;
    let res = level_apply(
        &mut env.writers[top],
        &env.arena,
        i,
        Change::Del(plan),
        key,
        key,
        oldest,
        id,
        cap,
        Ghost(g),
    );
    proof {
        lemma_top_changed(*old(env), *env);
        let l0 = old(env).writers@[top as int];
        let l1 = env.writers@[top as int];
        assert(old(env)@.writers.last() == level_view(l0, env.arena@));
        assert(env@.writers.last() == level_view(l1, env.arena@));
        if res is Ok {
            assert(level_view(l1, env.arena@).dbs.len() == level_view(l0, env.arena@).dbs.len());
            assert(level_view(l0, env.arena@).dbs[i as int] == l0.dbs@[i as int].state(
                l0.pager.map(env.arena@),
            ));
            assert(level_view(l1, env.arena@).dbs[i as int] == l1.dbs@[i as int].state(
                l1.pager.map(env.arena@),
            ));
        }
    }
    res
}

/// An environment in which only the innermost write transaction has
/// changed, and is in order, is in order; its value is the value before with
/// that transaction replaced.
pub(super) proof fn lemma_top_changed(a: MDBX_env, b: MDBX_env)
    requires
        a.wf(),
        a.writers@.len() > 0,
        b.writers@.len() == a.writers@.len(),
        forall|l: int| 0 <= l < a.writers@.len() - 1 ==> #[trigger] b.writers@[l] == a.writers@[l],
        a.ground().bears(b.writers@[b.writers@.len() - 1]),
        b.writers@[b.writers@.len() - 1].handle == a.writers@[b.writers@.len() - 1].handle,
        b.ground() == a.ground(),
        b.open == a.open,
        b.flags == a.flags,
        b.max_dbs == a.max_dbs,
        b.max_readers == a.max_readers,
        b.geo == a.geo,
        b.made_with == a.made_with,
        b.handles == a.handles,
        b.next_handle == a.next_handle,
        b.unsynced == a.unsynced,
        b.space.limit == a.space.limit,
        b.idle == a.idle,
    ensures
        b.wf(),
        b@ == a@.with_top(level_view(b.writers@[b.writers@.len() - 1], b.arena@)),
        b.writers@[b.writers@.len() - 1] == a.writers@[a.writers@.len() - 1] ==> b@ == a@,
{
    let top = a.writers@.len() - 1;
    assert forall|l: int| 0 <= l < b.writers@.len() implies b.ground().bears(
        #[trigger] b.writers@[l],
    ) && b.writers@[l].handle < b.next_handle by {
        if l < top {
            assert(b.writers@[l] == a.writers@[l]);
            assert(a.ground().bears(a.writers@[l]));
        }
        assert(a.writers@[l].handle < a.next_handle);
    }
    let v = a@.with_top(level_view(b.writers@[top], b.arena@));
    assert(b@.writers =~= v.writers) by {
        assert forall|l: int| 0 <= l < b.writers@.len() implies b@.writers[l] == v.writers[l] by {
            if l < top {
                assert(b.writers@[l] == a.writers@[l]);
            }
        }
    }
    assert(b@.readers =~= v.readers);
    if b.writers@[top] == a.writers@[top] {
        assert(a@.writers =~= v.writers);
    }
}

} // verus!
