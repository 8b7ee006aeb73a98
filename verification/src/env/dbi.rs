//! Opening, closing and dropping sub-databases, and their figures.
use super::data::{dbi_usable, lemma_oldest, lemma_top_changed, visible};
use super::txn::{is_reader, is_top};
use super::{lemma_idle, reader_view, MDBX_env, MDBX_txn};
use crate::btree::{lemma_low, Tree};
use crate::error::MdbxError;
use crate::flags::DbFlags;
use crate::model::{most_room, pair_count, DbState, DbView, EntryView};
use crate::order::{compare_bytes, ByteOrder};
use crate::pager::{arena_map, Pager};
use crate::rows::Rows;
use crate::state::{find_named, stat_of, taken_slots, with_handle, EnvInfo, MDBX_stat, MAIN_DBI};
use crate::store::{accounted, find_oldest, uses, version_ok, version_view, DbRecord, Level};
use crate::tree::{survey, Page, Pages};
use crate::write::{level_apply, level_view, Change, Ground};
use vstd::prelude::*;
use vstd::slice::slice_to_vec;

verus! {

/// The number of pairs in the entries; it stops at the largest number that
/// fits.
fn count_pairs(rows: &Rows) -> (n: u64)
    requires
        rows.ok(),
    ensures
        n == pair_count(rows@) || (n == u64::MAX && pair_count(rows@) > u64::MAX),
{
    let mut n: u64 = 0;
    let mut i: usize = 0;
    let ghost ev = rows@;
    assert(ev.take(0) =~= Seq::<EntryView>::empty());
    while i < rows.len()
        invariant
            rows.ok(),
            i <= rows@.len(),
            ev == rows@,
            n == pair_count(ev.take(i as int)) || (n == u64::MAX && pair_count(ev.take(i as int))
                > u64::MAX),
        decreases rows@.len() - i,
    {
        let m = rows.at(i).vals.len() as u64;
        proof {
            assert(ev.take(i + 1).drop_last() =~= ev.take(i as int));
            assert(ev.take(i + 1).last() == rows@[i as int]);
        }
        n = if m > u64::MAX - n { u64::MAX } else { n + m };
        i += 1;
    }
    assert(ev.take(i as int) =~= ev);
    n
}

/// The figures of a sub-database.
fn record_stat(rec: &DbRecord, pg: &Pager, arena: &Vec<Page>, page_size: u64, Ghost(cap): Ghost<nat>) -> (s:
    MDBX_stat)
    requires
        pg.wf(),
        rec.ok(pg.map(arena@), cap),
        page_size <= 65536,
    ensures
        s == stat_of(rec.state(pg.map(arena@)), page_size),
{
    let rows = Rows { pg, arena, tree: rec.tree, cap: Ghost(cap) };
    let entries = count_pairs(&rows);
    if rec.tree.count == 0 {
        return MDBX_stat {
            ms_psize: page_size as u32,
            ms_depth: 0,
            ms_branch_pages: 0,
            ms_leaf_pages: 0,
            ms_overflow_pages: 0,
            ms_entries: entries,
            ms_mod_txnid: rec.mod_txnid,
        };
    }
    proof {
        lemma_low(pg.map(arena@), rec.tree, cap);
    }
    let (leaves, branches) = survey(
        pg,
        arena,
        rec.tree.root,
        rec.tree.height,
        Ghost(rec.tree.count as nat),
        Ghost(cap),
    );
    MDBX_stat {
        ms_psize: page_size as u32,
        ms_depth: (rec.tree.height + 1) as u32,
        ms_branch_pages: branches,
        ms_leaf_pages: leaves,
        ms_overflow_pages: 0,
        ms_entries: entries,
        ms_mod_txnid: rec.mod_txnid,
    }
}

/// A sub-database that is found among the first records is the one that is
/// found among all.
proof fn lemma_find_named_prefix(dbs: Seq<DbState>, n: int, name: Seq<u8>)
    requires
        0 <= n <= dbs.len(),
        find_named(dbs.take(n), name) is Some,
    ensures
        find_named(dbs, name) == find_named(dbs.take(n), name),
    decreases dbs.len() - n,
{
    if n < dbs.len() {
        assert(dbs.take(n + 1).drop_last() =~= dbs.take(n));
        lemma_find_named_prefix(dbs, n + 1, name);
    } else {
        assert(dbs.take(n) =~= dbs);
    }
}

/// The index of the sub-database with the given name, if it exists.
fn find_db(dbs: &Vec<DbRecord>, name: &[u8], Ghost(m): Ghost<Pages>) -> (r: Option<usize>)
    ensures
        match r {
            Some(i) => find_named(version_view(dbs@, m), name@) == Some(i as int) && 2 <= i
                < dbs.len(),
            None => find_named(version_view(dbs@, m), name@) is None,
        },
{
    let ghost v = version_view(dbs@, m);
    let mut i: usize = 2;
    if dbs.len() <= 2 {
        return None;
    }
    assert(v.take(2).len() == 2);
    while i < dbs.len()
        invariant
            2 <= i <= dbs.len(),
            v == version_view(dbs@, m),
            find_named(v.take(i as int), name@) is None,
        decreases dbs.len() - i,
    {
        proof {
            assert(v.take(i + 1).drop_last() =~= v.take(i as int));
            assert(v.take(i + 1).last() == v[i as int]);
        }
        if dbs[i].alive && compare_bytes(ByteOrder::Lexical, dbs[i].name.as_slice(), name) == 0 {
            proof {
                lemma_find_named_prefix(v, i + 1, name@);
            }
            return Some(i);
        }
        i += 1;
    }
    assert(v.take(i as int) =~= v);
    None
}

/// Marks handle `i` as open.
fn open_handle(handles: &mut Vec<bool>, i: usize)
    requires
        i < usize::MAX,
    ensures
        final(handles)@ == with_handle(old(handles)@, i as int),
{
    let ghost h0 = handles@;
    while handles.len() <= i
        invariant
            h0.len() <= handles@.len(),
            handles@.len() <= i + 1 || handles@.len() == h0.len(),
            forall|j: int| 0 <= j < h0.len() ==> handles@[j] == h0[j],
            forall|j: int| h0.len() <= j < handles@.len() ==> !handles@[j],
        decreases i + 1 - handles.len(),
    {
        handles.push(false);
    }
    handles[i] = true;
    assert(handles@ =~= with_handle(h0, i as int));
}

/// Opens a sub-database and returns its handle. Without a name, or with an
/// empty one, the main sub-database is meant.
pub fn mdbx_dbi_open(env: &mut MDBX_env, txn: &MDBX_txn, name: Option<&[u8]>, flags: u32) -> (r:
    Result<u32, MdbxError>)
    requires
        old(env).wf(),
    ensures
        final(env).wf(),
        match old(env)@.dbi_open(
            txn@,
            match name {
                Some(n) => Some(n@),
                None => None,
            },
            flags,
        ) {
            Ok((v, dbi)) => r == Ok::<u32, MdbxError>(dbi) && final(env)@ == v,
            Err(e) => r == Err::<u32, MdbxError>(e) && final(env)@ == old(env)@,
        },
{
    let ghost g = env.ground();
    let ghost nv = match name {
        Some(n) => Some(n@),
        None => None,
    };
    let writes = is_top(env, txn);
    let (main_flags, main_empty, found, count) = {
        let (dbs, pg) = match visible(env, txn) {
            Some(x) => x,
            None => {
                return Err(MdbxError::BadTxn);
            },
        };
        proof {
            assert(dbs@[1].ok(pg.map(env.arena@), env.cap as nat));
        }
        let found = match name {
            Some(n) => if n.len() == 0 {
                None
            } else {
                find_db(dbs, n, Ghost(pg.map(env.arena@)))
            },
            None => None,
        };
        let found_flags = match found {
            Some(i) => Some((i, dbs[i].flags)),
            None => None,
        };
        (dbs[1].flags, dbs[1].tree.count == 0, found_flags, dbs.len())
    };
    let o = match DbFlags::parse(flags) {
        Ok(o) => o,
        Err(e) => {
            return Err(e);
        },
    };
    let is_main = match name {
        Some(n) => n.len() == 0,
        None => true,
    };
    let top = env.writers.len();
    if is_main {
        if o.flags == main_flags || o.accede {
            return Ok(MAIN_DBI);
        }
        if writes && main_empty {
            let ghost before = env.writers@[top - 1];
            env.writers[top - 1].dbs[1].flags = o.flags;
            proof {
                let l = env.writers@[top - 1];
                let m = before.pager.map(g.arena);
                assert(g.bears(before));
                assert(before.dbs@[1].ok(m, g.cap));
                assert(l.dbs@[1].entries(m) =~= Seq::empty());
                assert(crate::model::keys_of(Seq::<EntryView>::empty()) =~= Seq::empty());
                assert forall|i: int| 0 <= i < l.dbs@.len() && i != 1 implies #[trigger] l.dbs@[i]
                    == before.dbs@[i] by {}
                lemma_record_changed(g, before, l, 1);
                lemma_top_changed(*old(env), *env);
                let v = old(env)@.dbi_open(txn@, nv, flags)->Ok_0.0;
                let w = v.writers.last();
                assert(level_view(l, g.arena).dbs =~= w.dbs) by {
                    assert forall|i: int| 0 <= i < l.dbs@.len() implies level_view(l, g.arena).dbs[i]
                        == w.dbs[i] by {
                        if i != 1 {
                            assert(l.dbs@[i] == before.dbs@[i]);
                        }
                    }
                }
            }
            return Ok(MAIN_DBI);
        }
        return Err(MdbxError::Incompatible);
    }
    match found {
        Some((i, f)) => {
            if o.flags == f || o.accede {
                open_handle(&mut env.handles, i);
                proof {
                    assert(env@.readers =~= old(env)@.readers);
                    assert(env@.writers =~= old(env)@.writers);
                }
                Ok(i as u32)
            } else {
                Err(MdbxError::Incompatible)
            }
        },
        None => {
            if !o.create {
                return Err(MdbxError::NotFound);
            }
            if !writes {
                return Err(MdbxError::AccessDenied);
            }
            if count - 2 >= env.max_dbs as usize {
                return Err(MdbxError::DbsFull);
            }
            let n = match name {
                Some(n) => n,
                None => {
                    return Err(MdbxError::Problem);
                },
            };
            let rec = DbRecord {
                name: slice_to_vec(n),
                flags: o.flags,
                alive: true,
                tree: Tree { root: 0, height: 0, count: 0 },
                mod_txnid: env.txnid + 1,
            };
            let ghost before = env.writers@[top - 1];
            env.writers[top - 1].dbs.push(rec);
            open_handle(&mut env.handles, count);
            proof {
                let l = env.writers@[top - 1];
                assert(g.bears(before));
                assert(crate::model::keys_of(Seq::<EntryView>::empty()) =~= Seq::empty());
                lemma_record_added(g, before, l);
                lemma_top_changed(
                    MDBX_env { handles: env.handles, ..*old(env) },
                    *env,
                );
                let v = old(env)@.dbi_open(txn@, nv, flags)->Ok_0.0;
                let w = v.writers.last();
                assert(level_view(l, g.arena).dbs =~= w.dbs) by {
                    assert forall|i: int| 0 <= i < l.dbs@.len() implies level_view(l, g.arena).dbs[i]
                        == w.dbs[i] by {
                        if i < before.dbs@.len() {
                            assert(l.dbs@[i] == before.dbs@[i]);
                        }
                    }
                }
            }
            Ok(count as u32)
        },
    }
}

/// A working state stays in order when one record changes but keeps its
/// tree, and is in order itself.
pub(super) proof fn lemma_record_changed(g: Ground, a: Level, b: Level, i: int)
    requires
        g.bears(a),
        0 <= i < a.dbs@.len(),
        b.dbs@.len() == a.dbs@.len(),
        forall|k: int| 0 <= k < a.dbs@.len() && k != i ==> #[trigger] b.dbs@[k] == a.dbs@[k],
        b.dbs@[i].tree == a.dbs@[i].tree,
        b.dbs@[i].ok(a.pager.map(g.arena), g.cap),
        i <= 1 ==> b.dbs@[i].alive == a.dbs@[i].alive && b.dbs@[i].name@ == a.dbs@[i].name@,
        b.pager == a.pager,
    ensures
        g.bears(b),
{
    let m = a.pager.map(g.arena);
    assert(version_ok(b.dbs@, m, g.cap)) by {
        assert(b.dbs@[0] == a.dbs@[0] || i == 0);
        assert(b.dbs@[1] == a.dbs@[1] || i == 1);
        assert forall|k: int| 0 <= k < b.dbs@.len() implies (#[trigger] b.dbs@[k]).ok(m, g.cap) by {
            if k != i {
                assert(a.dbs@[k].ok(m, g.cap));
            }
        }
        assert forall|k: int, j: int, q: u64|
            0 <= k < b.dbs@.len() && 0 <= j < b.dbs@.len() && k != j && #[trigger] b.dbs@[k].tree.has(
                m,
                q,
            ) implies !#[trigger] b.dbs@[j].tree.has(m, q) by {
            assert(a.dbs@[k].tree == b.dbs@[k].tree && a.dbs@[j].tree == b.dbs@[j].tree);
            assert(a.dbs@[k].tree.has(m, q));
        }
    }
    assert forall|k: int| 0 <= k < b.dbs@.len() implies (#[trigger] b.dbs@[k]).tree.in_use(b.pager, m) by {
        assert(a.dbs@[k].tree.in_use(a.pager, m));
        assert(a.dbs@[k].tree == b.dbs@[k].tree);
    }
    assert forall|q: u64| q < b.pager.space@.next implies #[trigger] accounted(b.dbs@, b.pager, m, q) by {
        assert(accounted(a.dbs@, a.pager, m, q));
        if uses(a.dbs@, m, q) {
            let k = choose|k: int| 0 <= k < a.dbs@.len() && (#[trigger] a.dbs@[k]).tree.has(m, q);
            assert(b.dbs@[k].tree.has(m, q));
        }
    }
}

/// A working state stays in order when an empty sub-database joins it.
proof fn lemma_record_added(g: Ground, a: Level, b: Level)
    requires
        g.bears(a),
        b.dbs@.len() == a.dbs@.len() + 1,
        b.dbs@.len() <= crate::constants::MDBX_MAX_DBI + 2,
        forall|k: int| 0 <= k < a.dbs@.len() ==> #[trigger] b.dbs@[k] == a.dbs@[k],
        b.dbs@.last().tree.count == 0,
        b.dbs@.last().ok(a.pager.map(g.arena), g.cap),
        b.pager == a.pager,
    ensures
        g.bears(b),
{
    let m = a.pager.map(g.arena);
    assert(version_ok(b.dbs@, m, g.cap)) by {
        assert(b.dbs@[0] == a.dbs@[0]);
        assert(b.dbs@[1] == a.dbs@[1]);
        assert forall|k: int| 0 <= k < b.dbs@.len() implies (#[trigger] b.dbs@[k]).ok(m, g.cap) by {
            if k < a.dbs@.len() {
                assert(a.dbs@[k].ok(m, g.cap));
            }
        }
        assert forall|k: int, j: int, q: u64|
            0 <= k < b.dbs@.len() && 0 <= j < b.dbs@.len() && k != j && #[trigger] b.dbs@[k].tree.has(
                m,
                q,
            ) implies !#[trigger] b.dbs@[j].tree.has(m, q) by {
            if j < a.dbs@.len() {
                assert(a.dbs@[k].tree == b.dbs@[k].tree && a.dbs@[j].tree == b.dbs@[j].tree);
                assert(a.dbs@[k].tree.has(m, q));
            }
        }
    }
    assert forall|k: int| 0 <= k < b.dbs@.len() implies (#[trigger] b.dbs@[k]).tree.in_use(b.pager, m) by {
        if k < a.dbs@.len() {
            assert(a.dbs@[k].tree.in_use(a.pager, m));
            assert(a.dbs@[k].tree == b.dbs@[k].tree);
        }
    }
    assert forall|q: u64| q < b.pager.space@.next implies #[trigger] accounted(b.dbs@, b.pager, m, q) by {
        assert(accounted(a.dbs@, a.pager, m, q));
        if uses(a.dbs@, m, q) {
            let k = choose|k: int| 0 <= k < a.dbs@.len() && (#[trigger] a.dbs@[k]).tree.has(m, q);
            assert(b.dbs@[k].tree.has(m, q));
        }
    }
}

/// Closes the handle of a named sub-database.
pub fn mdbx_dbi_close(env: &mut MDBX_env, dbi: u32) -> (r: Result<(), MdbxError>)
    requires
        old(env).wf(),
    ensures
        final(env).wf(),
        match old(env)@.dbi_close(dbi) {
            Ok(v) => r is Ok && final(env)@ == v,
            Err(e) => r == Err::<(), MdbxError>(e) && final(env)@ == old(env)@,
        },
{
    let i = dbi as usize;
    if dbi < 2 || i >= env.handles.len() || !env.handles[i] {
        return Err(MdbxError::BadDbi);
    }
    env.handles[i] = false;
    proof {
        assert(env@.readers =~= old(env)@.readers);
        assert(env@.writers =~= old(env)@.writers);
        assert(env@.handles =~= old(env)@.handles.update(dbi as int, false));
    }
    Ok(())
}

/// Empties sub-database `dbi`, and with `del` deletes it and closes its
/// handle. The pages of its tree are given up.
pub fn mdbx_drop(env: &mut MDBX_env, txn: &MDBX_txn, dbi: u32, del: bool) -> (r: Result<
    (),
    MdbxError,
>)
    requires
        old(env).wf(),
    ensures
        final(env).wf(),
        match old(env)@.drop(txn@, dbi, del, final(env)@.outcome(dbi)) {
            Ok(v) => r is Ok && final(env)@ == v,
            Err(e) => r == Err::<(), MdbxError>(e) && final(env)@ == old(env)@,
        },
        r is Ok ==> old(env)@.writers.last().leads_to(
            final(env)@.writers.last(),
            old(env)@.oldest(),
            most_room(old(env)@.writers.last().dbs[dbi as int].depth),
        ),
{
    let ghost g = env.ground();
    if is_reader(env, txn) {
        return Err(MdbxError::AccessDenied);
    }
    if !is_top(env, txn) {
        return Err(MdbxError::BadTxn);
    }
    let top = env.writers.len() - 1;
    if !dbi_usable(env, &env.writers[top].dbs, dbi) {
        return Err(MdbxError::BadDbi);
    }
    let oldest = find_oldest(&env.readers);
    let i = dbi as usize;
    let id = env.txnid + 1;
    let cap = env.cap;
    let none: Vec<u8> = Vec::new();
    proof {
        lemma_oldest(*env);
        let l = env.writers@[top as int];
        assert(g.bears(l));
        assert(l.dbs@[i as int].ok(l.pager.map(env.arena@), cap as nat));
    }
    let ghost flags = env.writers@[top as int].dbs@[i as int].flags;
    assert(DbView::empty(flags).wf()) by {
        assert(crate::model::keys_of(Seq::<EntryView>::empty()) =~= Seq::empty());
    }
    let _ = level_apply(
        &mut env.writers[top],
        &env.arena,
        i,
        Change::Clear,
        none.as_slice(),
        none.as_slice(),
        oldest,
        id,
        cap,
        Ghost(g),
    );
    let ghost mid = env.writers@[top as int];
    proof {
        let before = old(env).writers@[top as int];
        assert(level_view(mid, g.arena).dbs.len() == mid.dbs@.len());
        assert(level_view(before, g.arena).dbs.len() == before.dbs@.len());
        assert(g.bears(mid));
    }
    if del && dbi >= 2 {
        env.writers[top].dbs[i].alive = false;
        env.handles[i] = false;
        proof {
            let l = env.writers@[top as int];
            let m = mid.pager.map(g.arena);
            assert(mid.dbs@[i as int].ok(m, g.cap));
            assert(level_view(mid, g.arena).dbs[i as int] == mid.dbs@[i as int].state(m));
            assert(mid.dbs@[i as int].tree.count == 0);
            assert forall|k: int| 0 <= k < l.dbs@.len() && k != i implies #[trigger] l.dbs@[k]
                == mid.dbs@[k] by {}
            lemma_record_changed(g, mid, l, i as int);
            lemma_top_changed(MDBX_env { handles: env.handles, ..*old(env) }, *env);
            let v = old(env)@.drop(txn@, dbi, del, env@.outcome(dbi))->Ok_0;
            let w = v.writers.last();
            assert(level_view(l, g.arena).dbs =~= w.dbs) by {
                assert forall|k: int| 0 <= k < l.dbs@.len() implies level_view(l, g.arena).dbs[k]
                    == w.dbs[k] by {
                    if k != i {
                        assert(l.dbs@[k] == mid.dbs@[k]);
                        assert(level_view(mid, g.arena).dbs[k] == mid.dbs@[k].state(m));
                    }
                }
            }
            assert(env@.handles =~= v.handles);
        }
    } else {
        proof {
            lemma_top_changed(*old(env), *env);
        }
    }
    Ok(())
}

/// The figures of sub-database `dbi` as `txn` sees it.
pub fn mdbx_dbi_stat(env: &MDBX_env, txn: &MDBX_txn, dbi: u32) -> (r: Result<MDBX_stat, MdbxError>)
    requires
        env.wf(),
    ensures
        r == env@.dbi_stat(txn@, dbi),
{
    let (dbs, pg) = match visible(env, txn) {
        Some(x) => x,
        None => {
            return Err(MdbxError::BadTxn);
        },
    };
    if !dbi_usable(env, dbs, dbi) {
        return Err(MdbxError::BadDbi);
    }
    proof {
        assert(dbs@[dbi as int].ok(pg.map(env.arena@), env.cap as nat));
    }
    Ok(record_stat(&dbs[dbi as usize], pg, &env.arena, env.geo.page_size, Ghost(env.cap as nat)))
}

/// The flags of sub-database `dbi` as `txn` sees it, as a flag word.
pub fn mdbx_dbi_flags(env: &MDBX_env, txn: &MDBX_txn, dbi: u32) -> (r: Result<u32, MdbxError>)
    requires
        env.wf(),
    ensures
        r == env@.dbi_flags(txn@, dbi),
{
    let (dbs, pg) = match visible(env, txn) {
        Some(x) => x,
        None => {
            return Err(MdbxError::BadTxn);
        },
    };
    if !dbi_usable(env, dbs, dbi) {
        return Err(MdbxError::BadDbi);
    }
    Ok(dbs[dbi as usize].flags.bits())
}

/// The figures of the main sub-database, as `txn` sees it or, without a
/// transaction, as it is committed.
pub fn mdbx_env_stat_ex(env: &MDBX_env, txn: Option<&MDBX_txn>) -> (r: Result<MDBX_stat, MdbxError>)
    requires
        env.wf(),
    ensures
        r == env@.env_stat(
            match txn {
                Some(t) => Some(t@),
                None => None,
            },
        ),
{
    match txn {
        None => {
            proof {
                lemma_idle(env.idle, env.arena@);
                assert(env.dbs@[1].ok(arena_map(env.arena@), env.cap as nat));
            }
            Ok(record_stat(&env.dbs[1], &env.idle, &env.arena, env.geo.page_size, Ghost(env.cap as nat)))
        },
        Some(t) => {
            let (dbs, pg) = match visible(env, t) {
                Some(x) => x,
                None => {
                    return Err(MdbxError::BadTxn);
                },
            };
            proof {
                assert(dbs@[1].ok(pg.map(env.arena@), env.cap as nat));
            }
            Ok(record_stat(&dbs[1], pg, &env.arena, env.geo.page_size, Ghost(env.cap as nat)))
        },
    }
}

/// The figures of the environment.
pub fn mdbx_env_info(env: &MDBX_env) -> (r: EnvInfo)
    requires
        env.wf(),
    ensures
        r == env@.info(),
{
    let mut n: u32 = 0;
    let mut i: usize = 0;
    let ghost rv = env@.readers;
    assert(rv.take(0) =~= Seq::empty());
    while i < env.readers.len()
        invariant
            i <= env.readers.len(),
            rv == env@.readers,
            rv.len() == env.readers@.len(),
            n == taken_slots(rv.take(i as int)) || (n == u32::MAX && taken_slots(rv.take(i as int))
                > u32::MAX),
        decreases env.readers.len() - i,
    {
        proof {
            assert(rv.take(i + 1).drop_last() =~= rv.take(i as int));
            assert(rv.take(i + 1).last() == reader_view(env.readers@[i as int], env.arena@));
        }
        if env.readers[i].used && n < u32::MAX {
            n = n + 1;
        }
        i += 1;
    }
    assert(rv.take(i as int) =~= rv);
    proof {
        lemma_oldest(*env);
    }
    EnvInfo {
        page_size: env.geo.page_size,
        pages: env.space.next,
        page_limit: env.space.limit,
        free_pages: env.space.free_pages(),
        recent_txnid: env.txnid,
        oldest_reader: find_oldest(&env.readers),
        readers: n,
        unsynced: env.unsynced,
    }
}

} // verus!
