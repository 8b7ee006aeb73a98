//! Cursors: positions within a sub-database, and what is found and changed
//! from them.
use super::data::{dbi_usable, lemma_oldest, lemma_top_changed, mdbx_del, mdbx_put, visible};
use super::txn::{is_reader, is_top};
use super::{MDBX_env, MDBX_txn};
use crate::constants::{MDBX_cursor_op, MDBX_ALLDUPS, MDBX_NODUPDATA};
use crate::error::MdbxError;
use crate::flags::PutFlags;
use crate::leaf::{find_val, vals_view};
use crate::rows::{find_key, plan_swap, Rows};
use crate::model::{
    depth_near, entry_ok, lemma_lower_bound, lemma_swap_wf, lemma_upper_bound, most_room, position,
};
use crate::order::compare_bytes;
use crate::seek::{at_view, kind_of, seek, OpKind};
use crate::state::{joined, CursorView, FoundView};
use crate::store::find_oldest;
use crate::write::{level_apply, level_view, Change};
use vstd::prelude::*;

verus! {

/// A cursor handle.
pub struct MDBX_cursor {
    txn: MDBX_txn,
    dbi: u32,
    at: Option<(Vec<u8>, Vec<u8>)>,
}

impl View for MDBX_cursor {
    type V = CursorView;

    closed spec fn view(&self) -> CursorView {
        CursorView {
            txn: self.txn@,
            dbi: self.dbi,
            at: match self.at {
                Some((k, v)) => Some((k@, v@)),
                None => None,
            },
        }
    }
}

/// What a cursor operation returns.
#[derive(Debug, PartialEq, Eq)]
pub struct Found {
    /// The key of the pair that was found.
    pub key: Vec<u8>,
    /// Its value; or several values of the key, one after the other.
    pub data: Vec<u8>,
    /// Whether the pair is the very pair that was asked for.
    pub exact: bool,
}

impl View for Found {
    type V = FoundView;

    open spec fn view(&self) -> FoundView {
        FoundView { key: self.key@, data: self.data@, exact: self.exact }
    }
}

/// Opens a cursor on sub-database `dbi` for the transaction `txn`.
pub fn mdbx_cursor_open(env: &MDBX_env, txn: &MDBX_txn, dbi: u32) -> (r: Result<
    MDBX_cursor,
    MdbxError,
>)
    requires
        env.wf(),
    ensures
        match env@.cursor_open(txn@, dbi) {
            Ok(c) => r is Ok && r->Ok_0@ == c,
            Err(e) => r is Err && r->Err_0 == e,
        },
{
    let (dbs, _) = match visible(env, txn) {
        Some(x) => x,
        None => {
            return Err(MdbxError::BadTxn);
        },
    };
    if !dbi_usable(env, dbs, dbi) {
        return Err(MdbxError::BadDbi);
    }
    Ok(MDBX_cursor { txn: *txn, dbi, at: None })
}

/// Closes a cursor.
pub fn mdbx_cursor_close(cursor: MDBX_cursor) {
}

/// The position of a cursor, borrowed.
fn position_of(cur: &MDBX_cursor) -> (r: Option<(&[u8], &[u8])>)
    ensures
        at_view(r) == cur@.at,
{
    match &cur.at {
        Some((k, v)) => Some((k.as_slice(), v.as_slice())),
        None => None,
    }
}

/// The values from `from` up to `to`, one after the other.
fn join(vals: &Vec<Vec<u8>>, from: usize, to: usize) -> (r: Vec<u8>)
    requires
        from <= to <= vals.len(),
    ensures
        r@ == joined(vals_view(vals@).subrange(from as int, to as int)),
{
    let mut r: Vec<u8> = Vec::new();
    let mut i: usize = from;
    let ghost vv = vals_view(vals@);
    assert(vv.subrange(from as int, from as int) =~= Seq::<Seq<u8>>::empty());
    while i < to
        invariant
            from <= i <= to <= vals.len(),
            vv == vals_view(vals@),
            r@ == joined(vv.subrange(from as int, i as int)),
        decreases to - i,
    {
        let ghost before = r@;
        let v = &vals[i];
        let mut j: usize = 0;
        while j < v.len()
            invariant
                j <= v.len(),
                r@ == before + v@.take(j as int),
            decreases v.len() - j,
        {
            r.push(v[j]);
            assert(v@.take(j + 1) =~= v@.take(j as int).push(v@[j as int]));
            j += 1;
        }
        proof {
            assert(v@.take(j as int) =~= v@);
            assert(vv.subrange(from as int, i + 1).drop_last() =~= vv.subrange(
                from as int,
                i as int,
            ));
            assert(vv.subrange(from as int, i + 1).last() == v@);
        }
        i += 1;
    }
    r
}

/// What an operation that returns several values at once finds.
fn seek_many(
    flags: &crate::flags::DbFlags,
    es: &Rows,
    at: Option<(&[u8], &[u8])>,
    op: MDBX_cursor_op,
    k: &[u8],
) -> (r: Result<(usize, usize, usize), MdbxError>)
    requires
        es.ok(),
        es.db(*flags).wf(),
    ensures
        match r {
            Ok((i, from, to)) => es.db(*flags).seek_many(at_view(at), op, k@) == Ok::<
                (int, int, int),
                MdbxError,
            >((i as int, from as int, to as int)) && i < es@.len() && from < to && to
                <= es@[i as int].vals.len(),
            Err(e) => es.db(*flags).seek_many(at_view(at), op, k@) == Err::<
                (int, int, int),
                MdbxError,
            >(e),
        },
{
    let ghost db = es.db(*flags);
    if !flags.dup_fixed {
        return Err(MdbxError::Incompatible);
    }
    let ko = flags.get_key_order();
    let vo = flags.get_dup_order();
    match op {
        MDBX_cursor_op::MDBX_SEEK_AND_GET_MULTIPLE => {
            let (i, found) = find_key(ko, es, k);
            if found {
                proof {
                    lemma_lower_bound(ko, db.keys(), k@);
                    assert(entry_ok(*flags, db.entries[i as int]));
                }
                Ok((i, 0, es.at(i).vals.len()))
            } else {
                Err(MdbxError::NotFound)
            }
        },
        _ => match at {
            None => Err(MdbxError::NoData),
            Some((ck, cv)) => {
                let (i, found) = find_key(ko, es, ck);
                if !found {
                    return Err(MdbxError::NotFound);
                }
                proof {
                    lemma_lower_bound(ko, db.keys(), ck@);
                    assert(entry_ok(*flags, db.entries[i as int]));
                    lemma_lower_bound(vo, db.entries[i as int].vals, cv@);
                    lemma_upper_bound(vo, db.entries[i as int].vals, cv@);
                }
                let n = es.at(i).vals.len();
                let (j, vfound) = find_val(vo, &es.at(i).vals, cv);
                match op {
                    MDBX_cursor_op::MDBX_GET_MULTIPLE => {
                        if vfound {
                            Ok((i, j, n))
                        } else {
                            Err(MdbxError::NotFound)
                        }
                    },
                    MDBX_cursor_op::MDBX_NEXT_MULTIPLE => {
                        let above = if vfound { j + 1 } else { j };
                        if above < n {
                            Ok((i, above, n))
                        } else {
                            Err(MdbxError::NotFound)
                        }
                    },
                    MDBX_cursor_op::MDBX_PREV_MULTIPLE => {
                        if j > 0 {
                            Ok((i, 0, j))
                        } else {
                            Err(MdbxError::NotFound)
                        }
                    },
                    _ => Err(MdbxError::InvalidArgument),
                }
            },
        },
    }
}

/// Moves the cursor as `op` says and returns what it finds there. The key
/// and the value are what the operation looks for, where it looks for any.
pub fn mdbx_cursor_get(
    env: &MDBX_env,
    cursor: &mut MDBX_cursor,
    key: &[u8],
    data: &[u8],
    op: MDBX_cursor_op,
) -> (r: Result<Found, MdbxError>)
    requires
        env.wf(),
    ensures
        match env@.cursor_get(old(cursor)@, op, key@, data@) {
            Ok((c, f)) => r is Ok && r->Ok_0@ == f && final(cursor)@ == c,
            Err(e) => r is Err && r->Err_0 == e && final(cursor)@ == old(cursor)@,
        },
{
    let (dbs, pg) = match visible(env, &cursor.txn) {
        Some(x) => x,
        None => {
            return Err(MdbxError::BadTxn);
        },
    };
    if !dbi_usable(env, dbs, cursor.dbi) {
        return Err(MdbxError::BadDbi);
    }
    let rec = &dbs[cursor.dbi as usize];
    proof {
        assert(dbs@[cursor.dbi as int].ok(pg.map(env.arena@), env.cap as nat));
    }
    let rows = Rows { pg, arena: &env.arena, tree: rec.tree, cap: Ghost(env.cap as nat) };
    let es = &rows;
    let ghost db = es.db(rec.flags);
    if kind_of(op) == OpKind::Multiple {
        let found = seek_many(&rec.flags, es, position_of(cursor), op, key);
        let (i, from, to) = match found {
            Ok(x) => x,
            Err(e) => {
                return Err(e);
            },
        };
        let stop = match op {
            MDBX_cursor_op::MDBX_PREV_MULTIPLE => from,
            _ => to - 1,
        };
        let e = es.at(i);
        proof {
            assert(db.entries[i as int].vals == vals_view(e.vals@));
            assert(db.entries[i as int].vals[stop as int] == e.vals@[stop as int]@);
        }
        let f = Found { key: e.key.clone(), data: join(&e.vals, from, to), exact: true };
        cursor.at = Some((e.key.clone(), e.vals[stop].clone()));
        return Ok(f);
    }
    let p = match seek(&rec.flags, es, position_of(cursor), op, key, data) {
        Ok(p) => p,
        Err(e) => {
            return Err(e);
        },
    };
    let e = es.at(p.entry);
    proof {
        assert(db.entries[p.entry as int].vals == vals_view(e.vals@));
        assert(db.entries[p.entry as int].vals[p.val as int] == e.vals@[p.val as int]@);
    }
    let exact = match op {
        MDBX_cursor_op::MDBX_SET_LOWERBOUND => compare_bytes(
            rec.flags.get_key_order(),
            e.key.as_slice(),
            key,
        ) == 0 && (!rec.flags.dup_sort || compare_bytes(
            rec.flags.get_dup_order(),
            e.vals[p.val].as_slice(),
            data,
        ) == 0),
        _ => true,
    };
    let f = Found { key: e.key.clone(), data: e.vals[p.val].clone(), exact };
    cursor.at = Some((e.key.clone(), e.vals[p.val].clone()));
    Ok(f)
}

/// Whether a put through the cursor replaces the value at the position in
/// its place.
fn replaces_in_place(env: &MDBX_env, cursor: &MDBX_cursor, flags: u32) -> (b: bool)
    requires
        env.wf(),
    ensures
        b == env@.replaces_in_place(cursor@, flags),
{
    if !is_top(env, &cursor.txn) {
        return false;
    }
    let top = env.writers.len() - 1;
    if !dbi_usable(env, &env.writers[top].dbs, cursor.dbi) {
        return false;
    }
    let db_flags = &env.writers[top].dbs[cursor.dbi as usize].flags;
    match PutFlags::parse(flags) {
        Ok(pf) => pf.current && !pf.multiple && pf.check(db_flags) && db_flags.dup_sort,
        Err(_) => false,
    }
}

/// Puts a pair through a cursor and leaves the cursor on it.
pub fn mdbx_cursor_put(
    env: &mut MDBX_env,
    cursor: &mut MDBX_cursor,
    key: &[u8],
    data: &[u8],
    flags: u32,
) -> (r: Result<(), MdbxError>)
    requires
        old(env).wf(),
    ensures
        final(env).wf(),
        match old(env)@.cursor_put(
            old(cursor)@,
            key@,
            data@,
            flags,
            final(env)@.outcome(old(cursor)@.dbi),
        ) {
            Ok((v, c)) => r is Ok && final(env)@ == v && final(cursor)@ == c,
            Err(e) => r == Err::<(), MdbxError>(e) && final(env)@ == old(env)@ && final(cursor)@
                == old(cursor)@,
        },
        r is Ok ==> old(env)@.writers.last().leads_to(
            final(env)@.writers.last(),
            old(env)@.oldest(),
            most_room(old(env)@.writers.last().dbs[old(cursor)@.dbi as int].depth),
        ),
        r is Ok ==> depth_near(
            old(env)@.writers.last().dbs[old(cursor)@.dbi as int].depth,
            final(env)@.writers.last().dbs[old(cursor)@.dbi as int].depth,
        ),
{
    let ghost g = env.ground();
    if replaces_in_place(env, cursor, flags) {
        let top = env.writers.len() - 1;
        let i = cursor.dbi as usize;
        let oldest = find_oldest(&env.readers);
        let id = env.txnid + 1;
        let cap = env.cap;
        proof {
            lemma_oldest(*env);
            let l = env.writers@[top as int];
            assert(g.bears(l));
            assert(l.dbs@[i as int].ok(l.pager.map(env.arena@), cap as nat));
        }
        let plan = match &cursor.at {
            None => {
                return Err(MdbxError::NoData);
            },
            Some((ck, cv)) => {
                if compare_bytes(crate::order::ByteOrder::Lexical, ck.as_slice(), key) != 0 {
                    return Err(MdbxError::KeyMismatch);
                }
                proof {
                    let l = env.writers@[top as int];
                    lemma_swap_wf(l.dbs@[i as int].db(l.pager.map(env.arena@)), key@, cv@, data@);
                }
                let rec = &env.writers[top].dbs[i];
                let rows = Rows {
                    pg: &env.writers[top].pager,
                    arena: &env.arena,
                    tree: rec.tree,
                    cap: Ghost(cap as nat),
                };
                plan_swap(&rec.flags, &rows, key, cv.as_slice(), data)
            },
        };
        let plan = match plan {
            Ok(p) => p,
            Err(e) => {
                return Err(e);
            },
        };
        let res = level_apply(
            &mut env.writers[top],
            &env.arena,
            i,
            Change::Put(plan),
            key,
            data,
            oldest,
            id,
            cap,
            Ghost(g),
        );
        proof {
            lemma_top_changed(*old(env), *env);
            let l0 = old(env).writers@[top as int];
            let l1 = env.writers@[top as int];
            assert(old(env)@.writers.last() == level_view(l0, env.arena@));
            assert(env@.writers.last() == level_view(l1, env.arena@));
            if res is Ok {
                assert(level_view(l1, env.arena@).dbs.len() == level_view(l0, env.arena@).dbs.len());
                assert(level_view(l0, env.arena@).dbs[i as int] == l0.dbs@[i as int].state(
                    l0.pager.map(env.arena@),
                ));
                assert(level_view(l1, env.arena@).dbs[i as int] == l1.dbs@[i as int].state(
                    l1.pager.map(env.arena@),
                ));
            }
        }
        match res {
            Ok(()) => {
                cursor.at = Some((vstd::slice::slice_to_vec(key), vstd::slice::slice_to_vec(data)));
                Ok(())
            },
            Err(e) => Err(e),
        }
    } else {
        match mdbx_put(env, &cursor.txn, cursor.dbi, key, data, flags) {
            Ok(()) => {
                cursor.at = Some((vstd::slice::slice_to_vec(key), vstd::slice::slice_to_vec(data)));
                Ok(())
            },
            Err(e) => Err(e),
        }
    }
}

/// Deletes the pair that the cursor stands on, or with a flag for all
/// duplicates its key with all values.
pub fn mdbx_cursor_del(env: &mut MDBX_env, cursor: &MDBX_cursor, flags: u32) -> (r: Result<
    (),
    MdbxError,
>)
    requires
        old(env).wf(),
    ensures
        final(env).wf(),
        match old(env)@.cursor_del(cursor@, flags, final(env)@.outcome(cursor@.dbi)) {
            Ok(v) => r is Ok && final(env)@ == v,
            Err(e) => r == Err::<(), MdbxError>(e) && final(env)@ == old(env)@,
        },
        r is Ok ==> old(env)@.writers.last().leads_to(
            final(env)@.writers.last(),
            old(env)@.oldest(),
            most_room(old(env)@.writers.last().dbs[cursor@.dbi as int].depth),
        ),
        r is Ok ==> depth_near(
            old(env)@.writers.last().dbs[cursor@.dbi as int].depth,
            final(env)@.writers.last().dbs[cursor@.dbi as int].depth,
        ),
{
    if is_reader(env, &cursor.txn) {
        return Err(MdbxError::AccessDenied);
    }
    if !is_top(env, &cursor.txn) {
        return Err(MdbxError::BadTxn);
    }
    let top = env.writers.len() - 1;
    if !dbi_usable(env, &env.writers[top].dbs, cursor.dbi) {
        return Err(MdbxError::BadDbi);
    }
    if flags & !((MDBX_ALLDUPS as u32) | (MDBX_NODUPDATA as u32)) != 0 {
        return Err(MdbxError::InvalidArgument);
    }
    match &cursor.at {
        None => Err(MdbxError::NoData),
        Some((ck, cv)) => {
            let there = {
                let rec = &env.writers[top].dbs[cursor.dbi as usize];
                proof {
                    let l = env.writers@[top as int];
                    assert(env.ground().bears(l));
                    assert(l.dbs@[cursor.dbi as int].ok(l.pager.map(env.arena@), env.cap as nat));
                }
                let rows = Rows {
                    pg: &env.writers[top].pager,
                    arena: &env.arena,
                    tree: rec.tree,
                    cap: Ghost(env.cap as nat),
                };
                let at: Option<(&[u8], &[u8])> = Some((ck.as_slice(), cv.as_slice()));
                seek(&rec.flags, &rows, at, MDBX_cursor_op::MDBX_GET_CURRENT, ck.as_slice(), cv.as_slice()).is_ok()
            };
            if !there {
                return Err(MdbxError::NotFound);
            }
            if flags != 0 {
                mdbx_del(env, &cursor.txn, cursor.dbi, ck.as_slice(), None)
            } else {
                mdbx_del(env, &cursor.txn, cursor.dbi, ck.as_slice(), Some(cv.as_slice()))
            }
        },
    }
}

/// The number of values of the key that the cursor stands on.
pub fn mdbx_cursor_count(env: &MDBX_env, cursor: &MDBX_cursor) -> (r: Result<usize, MdbxError>)
    requires
        env.wf(),
    ensures
        match env@.cursor_count(cursor@) {
            Ok(n) => r == Ok::<usize, MdbxError>(n as usize),
            Err(e) => r == Err::<usize, MdbxError>(e),
        },
{
    let (dbs, pg) = match visible(env, &cursor.txn) {
        Some(x) => x,
        None => {
            return Err(MdbxError::BadTxn);
        },
    };
    if !dbi_usable(env, dbs, cursor.dbi) {
        return Err(MdbxError::BadDbi);
    }
    let rec = &dbs[cursor.dbi as usize];
    proof {
        assert(dbs@[cursor.dbi as int].ok(pg.map(env.arena@), env.cap as nat));
    }
    match &cursor.at {
        None => Err(MdbxError::NoData),
        Some((ck, cv)) => {
            let es = Rows { pg, arena: &env.arena, tree: rec.tree, cap: Ghost(env.cap as nat) };
            let (i, found) = find_key(rec.flags.get_key_order(), &es, ck.as_slice());
            if found {
                proof {
                    let db = es.db(rec.flags);
                    lemma_lower_bound(rec.flags.key_order(), db.keys(), ck@);
                    assert(entry_ok(rec.flags, db.entries[i as int]));
                }
                Ok(es.at(i).vals.len())
            } else {
                Err(MdbxError::NotFound)
            }
        },
    }
}

} // verus!
