//! Pages, and the versions of the database that are made of them.
//!
//! The committed pages stand in the arena under their page numbers and are
//! never changed while a snapshot uses them. A version is a table of
//! sub-databases, each with the tree that holds its entries. A write
//! transaction works on a version of its own; the pages that it writes wait
//! in its pager until the commit writes them into the arena.
use crate::btree::Tree;
use crate::constants::MDBX_MAX_DBI;
use crate::flags::DbFlags;
use crate::grow::live;
use crate::model::{lemma_oldest_of, oldest_of, DbState, DbView, EntryView};
use crate::grow::copy_links;
use crate::leaf::copy_entries;
use crate::pager::{arena_map, holds, same_pager, Dirty, Pager};
use crate::space::SpaceView;
use crate::tree::{census, lemma_census_frame, lemma_sub_frame, page, Page, Pages};
use vstd::prelude::*;

verus! {

/// A sub-database within a version: its name and flags, and its tree.
pub struct DbRecord {
    pub name: Vec<u8>,
    pub flags: DbFlags,
    /// Whether the sub-database exists. A record stays in the table after
    /// its sub-database was deleted, so that the numbers of the others stay.
    pub alive: bool,
    /// The tree that holds the entries.
    pub tree: Tree,
    /// The transaction that last changed the sub-database.
    pub mod_txnid: u64,
}

impl DbRecord {
    /// The entries of the sub-database.
    pub open spec fn entries(self, m: Pages) -> Seq<EntryView> {
        self.tree.entries(m)
    }

    /// What the sub-database holds.
    pub open spec fn db(self, m: Pages) -> DbView {
        DbView { flags: self.flags, entries: self.entries(m) }
    }

    /// The sub-database as callers see it.
    pub open spec fn state(self, m: Pages) -> DbState {
        DbState {
            name: self.name@,
            alive: self.alive,
            db: self.db(m),
            mod_txnid: self.mod_txnid,
            depth: self.tree.depth(),
            leaves: if self.tree.count > 0 {
                census(m, self.tree.root, self.tree.height as nat).0
            } else {
                0
            },
            branches: if self.tree.count > 0 {
                census(m, self.tree.root, self.tree.height as nat).1
            } else {
                0
            },
        }
    }

    /// The invariant of a record: its tree is in order, the entries are
    /// well-formed, and nothing is left of a deleted sub-database.
    pub open spec fn ok(self, m: Pages, cap: nat) -> bool {
        &&& self.flags.valid()
        &&& self.tree.ok(m, cap)
        &&& self.db(m).wf()
        &&& self.tree.count == self.entries(m).len()
        &&& !self.alive ==> self.tree.count == 0
    }
}

/// The sub-databases of a version as callers see them.
pub open spec fn version_view(dbs: Seq<DbRecord>, m: Pages) -> Seq<DbState> {
    Seq::new(dbs.len(), |i: int| dbs[i].state(m))
}

/// Whether the version uses page `p`.
pub open spec fn uses(dbs: Seq<DbRecord>, m: Pages, p: u64) -> bool {
    exists|i: int| 0 <= i < dbs.len() && (#[trigger] dbs[i]).tree.has(m, p)
}

/// The invariant of a version: the reserved record and the main
/// sub-database come first, every record is in order, and no two
/// sub-databases share a page.
pub open spec fn version_ok(dbs: Seq<DbRecord>, m: Pages, cap: nat) -> bool {
    &&& 2 <= dbs.len() <= MDBX_MAX_DBI + 2
    &&& !dbs[0].alive
    &&& dbs[1].alive
    &&& dbs[1].name@.len() == 0
    &&& forall|i: int| 0 <= i < dbs.len() ==> (#[trigger] dbs[i]).ok(m, cap)
    &&& forall|i: int, j: int, q: u64|
        0 <= i < dbs.len() && 0 <= j < dbs.len() && i != j && #[trigger] dbs[i].tree.has(m, q)
            ==> !#[trigger] dbs[j].tree.has(m, q)
}

/// A reader's place in the reader table.
pub struct ReaderSlot {
    /// Whether a read transaction holds the slot.
    pub used: bool,
    /// Whether the transaction holds a snapshot; not so after a reset.
    pub live: bool,
    /// The number that the transaction is known by.
    pub handle: u64,
    /// The transaction whose commit made the snapshot.
    pub txnid: u64,
    /// The snapshot.
    pub dbs: Vec<DbRecord>,
}

impl ReaderSlot {
    /// Whether the slot pins a snapshot.
    pub open spec fn pins(self) -> bool {
        self.used && self.live
    }
}

/// Whether page `p` has its place in the committed file: a sub-database
/// uses it, or it is on the free list.
pub open spec fn stands(dbs: Seq<DbRecord>, m: Pages, space: SpaceView, p: u64) -> bool {
    uses(dbs, m, p) || space.lists(p)
}

/// Whether page `p` has its place with a write transaction: a
/// sub-database of its version uses it, or it is on the free list, or the
/// transaction has given it up.
pub open spec fn accounted(dbs: Seq<DbRecord>, pg: Pager, m: Pages, p: u64) -> bool {
    uses(dbs, m, p) || pg.space@.lists(p) || pg.freed@.contains(p)
}

/// The invariant of what is committed: the arena is the file, the
/// committed version is in order, what is free is not in use, and every
/// page of the file is in use or free.
pub open spec fn committed_ok(
    arena: Seq<Page>,
    dbs: Seq<DbRecord>,
    space: SpaceView,
    txnid: u64,
    cap: nat,
) -> bool {
    &&& space.wf()
    &&& arena.len() == space.next
    &&& version_ok(dbs, arena_map(arena), cap)
    &&& forall|p: u64| space.lists(p) ==> !uses(dbs, arena_map(arena), p)
    &&& forall|r: int| 0 <= r < space.free.len() ==> (#[trigger] space.free[r]).txnid <= txnid
    &&& forall|p: u64| p < space.next ==> #[trigger] stands(dbs, arena_map(arena), space, p)
}

/// The invariant of a reader's slot: its snapshot is in order, is not
/// newer than what is committed, and uses no page that was freed by its own
/// or an earlier transaction.
pub open spec fn reader_ok(arena: Seq<Page>, space: SpaceView, txnid: u64, r: ReaderSlot, cap: nat) -> bool {
    r.pins() ==> {
        &&& r.txnid <= txnid
        &&& version_ok(r.dbs@, arena_map(arena), cap)
        &&& forall|p: u64, x: u64|
            space.lists_under(p, x) && x <= r.txnid ==> !uses(r.dbs@, arena_map(arena), p)
    }
}

/// The snapshot that each slot pins, if it pins one.
pub open spec fn reader_pins(readers: Seq<ReaderSlot>) -> Seq<Option<u64>> {
    Seq::new(
        readers.len(),
        |i: int|
            if readers[i].pins() {
                Some(readers[i].txnid)
            } else {
                None
            },
    )
}

/// The oldest snapshot that a reader pins, if any reader pins one.
pub open spec fn oldest_reader(readers: Seq<ReaderSlot>) -> Option<u64> {
    oldest_of(reader_pins(readers))
}

/// No pinned snapshot is older than the oldest one.
pub proof fn lemma_oldest_reader(readers: Seq<ReaderSlot>)
    ensures
        match oldest_reader(readers) {
            None => forall|i: int| 0 <= i < readers.len() ==> !(#[trigger] readers[i]).pins(),
            Some(t) => forall|i: int|
                0 <= i < readers.len() && (#[trigger] readers[i]).pins() ==> t <= readers[i].txnid,
        },
{
    let pins = reader_pins(readers);
    lemma_oldest_of(pins);
    assert forall|i: int| 0 <= i < readers.len() && (#[trigger] readers[i]).pins() implies pins[i]
        == Some(readers[i].txnid) by {}
    match oldest_reader(readers) {
        None => {
            assert forall|i: int| 0 <= i < readers.len() implies !(#[trigger] readers[i]).pins() by {
                assert(pins[i] is None);
            }
        },
        Some(t) => {
            assert forall|i: int| 0 <= i < readers.len() && (#[trigger] readers[i]).pins() implies t
                <= readers[i].txnid by {
                assert(pins[i] == Some(readers[i].txnid));
            }
        },
    }
}

/// The oldest snapshot that a reader pins, if any reader pins one.
pub fn find_oldest(readers: &Vec<ReaderSlot>) -> (o: Option<u64>)
    ensures
        o == oldest_reader(readers@),
{
    let mut o: Option<u64> = None;
    let mut i: usize = 0;
    let ghost pins = reader_pins(readers@);
    assert(pins.take(0) =~= Seq::<Option<u64>>::empty());
    while i < readers.len()
        invariant
            i <= readers.len(),
            pins == reader_pins(readers@),
            o == oldest_of(pins.take(i as int)),
        decreases readers.len() - i,
    {
        proof {
            assert(pins.take(i + 1).drop_last() =~= pins.take(i as int));
            assert(pins.take(i + 1).last() == pins[i as int]);
        }
        if readers[i].used && readers[i].live {
            let t = readers[i].txnid;
            o = match o {
                None => Some(t),
                Some(x) => Some(if t < x { t } else { x }),
            };
        }
        i += 1;
    }
    assert(pins.take(i as int) =~= pins);
    o
}

/// The working state of a write transaction: its version and its pages.
pub struct Level {
    /// The number that the transaction is known by.
    pub handle: u64,
    /// The flags that the transaction began with.
    pub flags: u32,
    /// The version that the transaction sees and changes.
    pub dbs: Vec<DbRecord>,
    /// The pages that the transaction has written, the page numbers as it
    /// has taken them, and the pages that it has given up.
    pub pager: Pager,
}

/// Whether every tree of the version is in use.
pub open spec fn all_in_use(dbs: Seq<DbRecord>, pg: Pager, m: Pages) -> bool {
    forall|i: int| 0 <= i < dbs.len() ==> (#[trigger] dbs[i]).tree.in_use(pg, m)
}

/// The invariant of a write transaction's working state, against what is
/// committed and what the readers pin. No page is lost: every page of the
/// file is used by the version, or is on the free list, or was given up.
pub open spec fn level_ok(
    arena: Seq<Page>,
    dbs: Seq<DbRecord>,
    space: SpaceView,
    readers: Seq<ReaderSlot>,
    l: Level,
    cap: nat,
) -> bool {
    &&& l.pager.wf()
    &&& l.pager.space@.limit == space.limit
    &&& l.pager.space@.next >= space.next
    &&& version_ok(l.dbs@, l.pager.map(arena), cap)
    &&& all_in_use(l.dbs@, l.pager, l.pager.map(arena))
    &&& forall|p: u64, x: u64| l.pager.space@.lists_under(p, x) ==> space.lists_under(p, x)
    &&& forall|p: u64| #[trigger]
        holds(l.pager.over@, p) ==> {
            &&& !uses(dbs, arena_map(arena), p)
            &&& forall|s: int|
                0 <= s < readers.len() && (#[trigger] readers[s]).pins() ==> !uses(
                    readers[s].dbs@,
                    arena_map(arena),
                    p,
                )
        }
    &&& forall|p: u64|
        p < l.pager.space@.next ==> #[trigger] accounted(l.dbs@, l.pager, l.pager.map(arena), p)
}

/// A copy of a record.
pub fn copy_record(r: &DbRecord) -> (c: DbRecord)
    ensures
        c.name@ == r.name@,
        c.flags == r.flags,
        c.alive == r.alive,
        c.tree == r.tree,
        c.mod_txnid == r.mod_txnid,
{
    DbRecord {
        name: r.name.clone(),
        flags: r.flags,
        alive: r.alive,
        tree: r.tree,
        mod_txnid: r.mod_txnid,
    }
}

/// Whether two versions have the same sub-databases on the same trees.
pub open spec fn same_version(a: Seq<DbRecord>, b: Seq<DbRecord>) -> bool {
    &&& a.len() == b.len()
    &&& forall|i: int|
        0 <= i < a.len() ==> {
            &&& (#[trigger] a[i]).name@ == (#[trigger] b[i]).name@
            &&& a[i].flags == b[i].flags
            &&& a[i].alive == b[i].alive
            &&& a[i].tree == b[i].tree
            &&& a[i].mod_txnid == b[i].mod_txnid
        }
}

/// Versions with the same sub-databases on the same trees look the same,
/// use the same pages, and are in order together.
pub proof fn lemma_same_version(a: Seq<DbRecord>, b: Seq<DbRecord>, m: Pages, cap: nat)
    requires
        same_version(a, b),
    ensures
        version_view(a, m) == version_view(b, m),
        forall|p: u64| uses(a, m, p) == uses(b, m, p),
        version_ok(a, m, cap) == version_ok(b, m, cap),
        forall|pg: Pager| all_in_use(a, pg, m) == all_in_use(b, pg, m),
{
    assert forall|i: int| 0 <= i < a.len() implies (#[trigger] a[i]).state(m) == b[i].state(m) && a[i].ok(
        m,
        cap,
    ) == b[i].ok(m, cap) by {
        assert(a[i].name@ == b[i].name@);
    }
    assert(version_view(a, m) =~= version_view(b, m));
    assert forall|p: u64| uses(a, m, p) == uses(b, m, p) by {
        if uses(a, m, p) {
            let i = choose|i: int| 0 <= i < a.len() && (#[trigger] a[i]).tree.has(m, p);
            assert(b[i].tree.has(m, p));
        }
        if uses(b, m, p) {
            let i = choose|i: int| 0 <= i < b.len() && (#[trigger] b[i]).tree.has(m, p);
            assert(a[i].tree.has(m, p));
        }
    }
    if version_ok(a, m, cap) {
        assert forall|i: int| 0 <= i < b.len() implies (#[trigger] b[i]).ok(m, cap) by {
            assert(a[i].ok(m, cap));
        }
        assert forall|i: int, j: int, q: u64|
            0 <= i < b.len() && 0 <= j < b.len() && i != j && #[trigger] b[i].tree.has(m, q) implies !#[trigger] b[j].tree.has(
            m,
            q,
        ) by {
            assert(a[i].tree == b[i].tree && a[j].tree == b[j].tree);
        }
        assert(a[0].alive == b[0].alive && a[1].alive == b[1].alive && a[1].name@ == b[1].name@);
    }
    if version_ok(b, m, cap) {
        assert forall|i: int| 0 <= i < a.len() implies (#[trigger] a[i]).ok(m, cap) by {
            assert(b[i].ok(m, cap));
        }
        assert forall|i: int, j: int, q: u64|
            0 <= i < a.len() && 0 <= j < a.len() && i != j && #[trigger] a[i].tree.has(m, q) implies !#[trigger] a[j].tree.has(
            m,
            q,
        ) by {
            assert(a[i].tree == b[i].tree && a[j].tree == b[j].tree);
        }
        assert(a[0].alive == b[0].alive && a[1].alive == b[1].alive && a[1].name@ == b[1].name@);
    }
    assert forall|pg: Pager| all_in_use(a, pg, m) == all_in_use(b, pg, m) by {
        if all_in_use(a, pg, m) {
            assert forall|i: int| 0 <= i < b.len() implies (#[trigger] b[i]).tree.in_use(pg, m) by {
                assert(a[i].tree.in_use(pg, m));
            }
        }
        if all_in_use(b, pg, m) {
            assert forall|i: int| 0 <= i < a.len() implies (#[trigger] a[i]).tree.in_use(pg, m) by {
                assert(b[i].tree.in_use(pg, m));
            }
        }
    }
}

/// A record reads the same, and stays in order, in every set of pages
/// that has the pages of its tree as they are.
pub proof fn lemma_record_frame(r: DbRecord, a: Pages, b: Pages, cap: nat)
    requires
        forall|p: u64| r.tree.has(a, p) ==> page(b, p) == page(a, p),
    ensures
        r.state(b) == r.state(a),
        r.ok(b, cap) == r.ok(a, cap),
        forall|p: u64| r.tree.has(b, p) == r.tree.has(a, p),
{
    if r.tree.count > 0 {
        lemma_sub_frame(a, b, r.tree.root, r.tree.height as nat, r.tree.count as nat, cap);
        lemma_census_frame(a, b, r.tree.root, r.tree.height as nat);
    }
}

/// A version reads the same, and stays in order, in every set of pages
/// that has its pages as they are.
pub proof fn lemma_frame(dbs: Seq<DbRecord>, a: Pages, b: Pages, cap: nat)
    requires
        forall|p: u64| uses(dbs, a, p) ==> page(b, p) == page(a, p),
    ensures
        version_ok(dbs, b, cap) == version_ok(dbs, a, cap),
        version_view(dbs, b) == version_view(dbs, a),
        forall|p: u64| uses(dbs, b, p) == uses(dbs, a, p),
{
    assert forall|i: int| 0 <= i < dbs.len() implies (#[trigger] dbs[i]).state(b) == dbs[i].state(a)
        && dbs[i].ok(b, cap) == dbs[i].ok(a, cap) && (forall|p: u64|
        dbs[i].tree.has(b, p) == dbs[i].tree.has(a, p)) by {
        assert forall|p: u64| dbs[i].tree.has(a, p) implies page(b, p) == page(a, p) by {
            assert(uses(dbs, a, p));
        }
        lemma_record_frame(dbs[i], a, b, cap);
    }
    assert(version_view(dbs, b) =~= version_view(dbs, a));
    assert forall|p: u64| uses(dbs, b, p) == uses(dbs, a, p) by {
        if uses(dbs, a, p) {
            let i = choose|i: int| 0 <= i < dbs.len() && (#[trigger] dbs[i]).tree.has(a, p);
            assert(dbs[i].tree.has(b, p));
        }
        if uses(dbs, b, p) {
            let i = choose|i: int| 0 <= i < dbs.len() && (#[trigger] dbs[i]).tree.has(b, p);
            assert(dbs[i].tree.has(a, p));
        }
    }
    if version_ok(dbs, a, cap) {
        assert forall|i: int, j: int, q: u64|
            0 <= i < dbs.len() && 0 <= j < dbs.len() && i != j && #[trigger] dbs[i].tree.has(b, q) implies !#[trigger] dbs[j].tree.has(
            b,
            q,
        ) by {
            assert(dbs[i].tree.has(a, q));
        }
    }
    if version_ok(dbs, b, cap) {
        assert forall|i: int, j: int, q: u64|
            0 <= i < dbs.len() && 0 <= j < dbs.len() && i != j && #[trigger] dbs[i].tree.has(a, q) implies !#[trigger] dbs[j].tree.has(
            a,
            q,
        ) by {
            assert(dbs[i].tree.has(b, q));
        }
    }
}

/// A copy of a version.
pub fn copy_version(dbs: &Vec<DbRecord>) -> (c: Vec<DbRecord>)
    ensures
        same_version(c@, dbs@),
{
    let mut c: Vec<DbRecord> = Vec::new();
    let mut i: usize = 0;
    while i < dbs.len()
        invariant
            i <= dbs.len(),
            c.len() == i,
            same_version(c@, dbs@.take(i as int)),
        decreases dbs.len() - i,
    {
        let r = copy_record(&dbs[i]);
        c.push(r);
        i += 1;
    }
    assert(dbs@.take(i as int) =~= dbs@);
    c
}

/// A copy of a page.
pub fn copy_page(p: &Page) -> (c: Page)
    ensures
        c@ == p@,
{
    match p {
        Page::Free => Page::Free,
        Page::Leaf(es) => Page::Leaf(copy_entries(es)),
        Page::Branch(ls) => Page::Branch(copy_links(ls)),
    }
}

/// A copy of a pager.
pub fn copy_pager(pg: &Pager) -> (c: Pager)
    ensures
        same_pager(*pg, c),
{
    let mut over: Vec<Dirty> = Vec::new();
    let mut i: usize = 0;
    while i < pg.over.len()
        invariant
            i <= pg.over.len(),
            over.len() == i,
            forall|k: int|
                0 <= k < i ==> (#[trigger] pg.over@[k]).pgno == over@[k].pgno && pg.over@[k].page@
                    == over@[k].page@,
        decreases pg.over.len() - i,
    {
        over.push(Dirty { pgno: pg.over[i].pgno, page: copy_page(&pg.over[i].page) });
        i += 1;
    }
    Pager { over, space: pg.space.copy(), freed: pg.freed.clone() }
}

} // verus!
