//! The orders in which keys and duplicate values are kept.
//!
//! Every order here is a strict total order on byte strings: two different
//! strings are always comparable, and the comparison is transitive. The
//! storage layer relies on both facts to keep its pages sorted.
use vstd::prelude::*;

verus! {

/// How two byte strings are ordered.
#[derive(Debug, Copy, Clone, PartialEq, Eq, Structural)]
pub enum ByteOrder {
    /// Byte by byte from the front; a proper prefix sorts first.
    Lexical,
    /// Byte by byte from the back; a proper suffix sorts first.
    Reverse,
    /// Shorter strings first; strings of one length byte by byte from the
    /// back, which is the order of the unsigned little-endian numbers they
    /// hold.
    Integer,
}

/// `a` sorts before `b` when both are read from the front.
pub open spec fn lex_lt(a: Seq<u8>, b: Seq<u8>) -> bool
    decreases a.len(),
{
    if b.len() == 0 {
        false
    } else if a.len() == 0 {
        true
    } else if a[0] != b[0] {
        a[0] < b[0]
    } else {
        lex_lt(a.skip(1), b.skip(1))
    }
}

/// `a` sorts before `b` when both are read from the back.
pub open spec fn rev_lt(a: Seq<u8>, b: Seq<u8>) -> bool
    decreases a.len(),
{
    if b.len() == 0 {
        false
    } else if a.len() == 0 {
        true
    } else if a.last() != b.last() {
        a.last() < b.last()
    } else {
        rev_lt(a.drop_last(), b.drop_last())
    }
}

/// `a` sorts strictly before `b` in the order `ord`.
pub open spec fn bytes_lt(ord: ByteOrder, a: Seq<u8>, b: Seq<u8>) -> bool {
    match ord {
        ByteOrder::Lexical => lex_lt(a, b),
        ByteOrder::Reverse => rev_lt(a, b),
        ByteOrder::Integer => a.len() < b.len() || (a.len() == b.len() && rev_lt(a, b)),
    }
}

/// The sign of comparing `a` with `b`: -1, 0 or 1.
pub open spec fn bytes_sign(ord: ByteOrder, a: Seq<u8>, b: Seq<u8>) -> int {
    if bytes_lt(ord, a, b) {
        -1
    } else if a == b {
        0
    } else {
        1
    }
}

/// The number that a byte string holds when read as an unsigned
/// little-endian integer.
pub open spec fn le_value(a: Seq<u8>) -> nat
    decreases a.len(),
{
    if a.len() == 0 {
        0
    } else {
        a[0] as nat + 256 * le_value(a.skip(1))
    }
}

/// 256 to the power of `n`: the weight of byte `n` of a little-endian
/// integer.
pub open spec fn place(n: nat) -> nat
    decreases n,
{
    if n == 0 {
        1
    } else {
        256 * place((n - 1) as nat)
    }
}

/// A little-endian integer of `n` bytes is less than 256 to the `n`.
pub proof fn lemma_le_value_bound(a: Seq<u8>)
    ensures
        le_value(a) < place(a.len()),
    decreases a.len(),
{
    if a.len() > 0 {
        lemma_le_value_bound(a.skip(1));
    }
}

/// The last byte of a little-endian integer weighs most.
pub proof fn lemma_le_value_last(a: Seq<u8>)
    requires
        a.len() > 0,
    ensures
        le_value(a) == le_value(a.drop_last()) + a.last() * place((a.len() - 1) as nat),
    decreases a.len(),
{
    if a.len() == 1 {
        assert(a.drop_last() =~= Seq::<u8>::empty());
        assert(a.skip(1) =~= Seq::<u8>::empty());
        assert(le_value(a.skip(1)) == 0);
        assert(le_value(a.drop_last()) == 0);
        assert(le_value(a) == a[0] as nat + 256 * le_value(a.skip(1)));
        assert(a.last() == a[0]);
        assert(place(0) == 1);
        assert(a.last() * place(0) == a.last()) by (nonlinear_arith)
            requires
                place(0) == 1,
        ;
    } else {
        let s = a.skip(1);
        let d = a.drop_last();
        lemma_le_value_last(s);
        assert(d.skip(1) =~= s.drop_last());
        assert(d[0] == a[0]);
        assert(s.last() == a.last());
        let p = place((a.len() - 2) as nat);
        let l = a.last() as nat;
        let v = le_value(s.drop_last());
        assert(le_value(a) == a[0] as nat + 256 * le_value(s));
        assert(le_value(d) == d[0] as nat + 256 * le_value(d.skip(1)));
        assert(le_value(s) == v + l * p);
        assert(place((a.len() - 1) as nat) == 256 * p);
        assert(256 * (v + l * p) == 256 * v + l * (256 * p)) by (nonlinear_arith);
    }
}

/// In the order of integers, keys of one length sort as the unsigned
/// little-endian numbers that they hold.
pub proof fn lemma_integer_order(a: Seq<u8>, b: Seq<u8>)
    requires
        a.len() == b.len(),
    ensures
        bytes_lt(ByteOrder::Integer, a, b) <==> le_value(a) < le_value(b),
    decreases a.len(),
{
    if a.len() > 0 {
        lemma_le_value_last(a);
        lemma_le_value_last(b);
        lemma_le_value_bound(a.drop_last());
        lemma_le_value_bound(b.drop_last());
        let p = place((a.len() - 1) as nat);
        let x = a.last() as nat;
        let y = b.last() as nat;
        if x < y {
            assert((x + 1) * p <= y * p) by (nonlinear_arith)
                requires
                    x + 1 <= y,
            ;
            assert((x + 1) * p == x * p + p) by (nonlinear_arith);
        } else if y < x {
            assert((y + 1) * p <= x * p) by (nonlinear_arith)
                requires
                    y + 1 <= x,
            ;
            assert((y + 1) * p == y * p + p) by (nonlinear_arith);
        } else {
            lemma_integer_order(a.drop_last(), b.drop_last());
        }
    }
}

/// Read from the front, no byte string sorts before itself.
proof fn lemma_lex_irreflexive(a: Seq<u8>)
    ensures
        !lex_lt(a, a),
    decreases a.len(),
{
    if a.len() > 0 {
        lemma_lex_irreflexive(a.skip(1));
    }
}

/// Read from the front, of two different byte strings one sorts before
/// the other.
proof fn lemma_lex_total(a: Seq<u8>, b: Seq<u8>)
    ensures
        a != b ==> lex_lt(a, b) || lex_lt(b, a),
        !(lex_lt(a, b) && lex_lt(b, a)),
    decreases a.len(),
{
    if a.len() > 0 && b.len() > 0 {
        if a[0] == b[0] {
            lemma_lex_total(a.skip(1), b.skip(1));
            if a.skip(1) == b.skip(1) {
                assert(a =~= seq![a[0]] + a.skip(1));
                assert(b =~= seq![b[0]] + b.skip(1));
            }
        }
    } else if a.len() == 0 && b.len() == 0 {
        assert(a =~= b);
    }
}

/// Read from the front, what sorts before a byte string sorts before
/// everything that the byte string sorts before.
proof fn lemma_lex_transitive(a: Seq<u8>, b: Seq<u8>, c: Seq<u8>)
    requires
        lex_lt(a, b),
        lex_lt(b, c),
    ensures
        lex_lt(a, c),
    decreases a.len(),
{
    if a.len() > 0 {
        if a[0] == b[0] && b[0] == c[0] {
            lemma_lex_transitive(a.skip(1), b.skip(1), c.skip(1));
        }
    }
}

/// Read from the back, no byte string sorts before itself.
proof fn lemma_rev_irreflexive(a: Seq<u8>)
    ensures
        !rev_lt(a, a),
    decreases a.len(),
{
    if a.len() > 0 {
        lemma_rev_irreflexive(a.drop_last());
    }
}

/// Read from the back, of two different byte strings one sorts before
/// the other.
proof fn lemma_rev_total(a: Seq<u8>, b: Seq<u8>)
    ensures
        a != b ==> rev_lt(a, b) || rev_lt(b, a),
        !(rev_lt(a, b) && rev_lt(b, a)),
    decreases a.len(),
{
    if a.len() > 0 && b.len() > 0 {
        if a.last() == b.last() {
            lemma_rev_total(a.drop_last(), b.drop_last());
            if a.drop_last() == b.drop_last() {
                assert(a =~= a.drop_last().push(a.last()));
                assert(b =~= b.drop_last().push(b.last()));
            }
        }
    } else if a.len() == 0 && b.len() == 0 {
        assert(a =~= b);
    }
}

/// Read from the back, what sorts before a byte string sorts before
/// everything that the byte string sorts before.
proof fn lemma_rev_transitive(a: Seq<u8>, b: Seq<u8>, c: Seq<u8>)
    requires
        rev_lt(a, b),
        rev_lt(b, c),
    ensures
        rev_lt(a, c),
    decreases a.len(),
{
    if a.len() > 0 {
        if a.last() == b.last() && b.last() == c.last() {
            lemma_rev_transitive(a.drop_last(), b.drop_last(), c.drop_last());
        }
    }
}

/// No byte string sorts before itself.
pub proof fn lemma_order_irreflexive(ord: ByteOrder, a: Seq<u8>)
    ensures
        !bytes_lt(ord, a, a),
{
    lemma_lex_irreflexive(a);
    lemma_rev_irreflexive(a);
}

/// Of two different byte strings exactly one sorts before the other.
pub proof fn lemma_order_total(ord: ByteOrder, a: Seq<u8>, b: Seq<u8>)
    ensures
        a != b ==> bytes_lt(ord, a, b) || bytes_lt(ord, b, a),
        !(bytes_lt(ord, a, b) && bytes_lt(ord, b, a)),
{
    lemma_lex_total(a, b);
    lemma_rev_total(a, b);
}

/// What sorts before something that sorts before `c` sorts before `c`.
pub proof fn lemma_order_transitive(ord: ByteOrder, a: Seq<u8>, b: Seq<u8>, c: Seq<u8>)
    requires
        bytes_lt(ord, a, b),
        bytes_lt(ord, b, c),
    ensures
        bytes_lt(ord, a, c),
{
    match ord {
        ByteOrder::Lexical => lemma_lex_transitive(a, b, c),
        ByteOrder::Reverse => lemma_rev_transitive(a, b, c),
        ByteOrder::Integer => {
            if a.len() == b.len() && b.len() == c.len() {
                lemma_rev_transitive(a, b, c);
            }
        },
    }
}

/// Byte strings that agree in their first `i` bytes sort, read from the
/// front, as what follows those bytes.
proof fn lemma_lex_skip(a: Seq<u8>, b: Seq<u8>, i: int)
    requires
        0 <= i <= a.len(),
        i <= b.len(),
        forall|j: int| 0 <= j < i ==> a[j] == b[j],
    ensures
        lex_lt(a, b) == lex_lt(a.skip(i), b.skip(i)),
    decreases i,
{
    if i == 0 {
        assert(a.skip(0) =~= a);
        assert(b.skip(0) =~= b);
    } else {
        lemma_lex_skip(a, b, i - 1);
        let a1 = a.skip(i - 1);
        let b1 = b.skip(i - 1);
        assert(a1[0] == b1[0]);
        assert(a1.skip(1) =~= a.skip(i));
        assert(b1.skip(1) =~= b.skip(i));
    }
}

/// Byte strings that agree in all bytes from `i` on sort, read from the
/// back, as their first `i` bytes.
proof fn lemma_rev_take(a: Seq<u8>, b: Seq<u8>, i: int)
    requires
        0 <= i <= a.len(),
        i <= b.len(),
        forall|j: int| a.len() - i <= j < a.len() ==> #[trigger] a[j] == b[j + b.len() - a.len()],
    ensures
        rev_lt(a, b) == rev_lt(a.take(a.len() - i), b.take(b.len() - i)),
    decreases i,
{
    if i == 0 {
        assert(a.take(a.len() as int) =~= a);
        assert(b.take(b.len() as int) =~= b);
    } else {
        lemma_rev_take(a, b, i - 1);
        let a1 = a.take(a.len() - (i - 1));
        let b1 = b.take(b.len() - (i - 1));
        assert(a1.last() == a[a.len() - i]);
        assert(b1.last() == b[b.len() - i]);
        assert(a1.drop_last() =~= a.take(a.len() - i));
        assert(b1.drop_last() =~= b.take(b.len() - i));
    }
}

/// The sign of comparing `a` with `b` from the front: -1, 0 or 1.
fn lex_sign(a: &[u8], b: &[u8]) -> (r: i32)
    ensures
        r == bytes_sign(ByteOrder::Lexical, a@, b@),
{
    let n: usize = if a.len() < b.len() { a.len() } else { b.len() };
    let mut i: usize = 0;
    while i < n
        invariant
            i <= n,
            n <= a.len(),
            n <= b.len(),
            n == a.len() || n == b.len(),
            forall|j: int| 0 <= j < i ==> a@[j] == b@[j],
        decreases n - i,
    {
        if a[i] != b[i] {
            proof {
                lemma_lex_skip(a@, b@, i as int);
                lemma_lex_total(a@, b@);
            }
            if a[i] < b[i] {
                return -1;
            } else {
                return 1;
            }
        }
        i += 1;
    }
    proof {
        lemma_lex_skip(a@, b@, n as int);
        lemma_lex_total(a@, b@);
        if a.len() == b.len() {
            assert(a@ =~= b@);
            lemma_lex_irreflexive(a@);
        }
    }
    if a.len() < b.len() {
        -1
    } else if a.len() == b.len() {
        0
    } else {
        1
    }
}

/// The sign of comparing `a` with `b` from the back: -1, 0 or 1.
fn rev_sign(a: &[u8], b: &[u8]) -> (r: i32)
    ensures
        r == bytes_sign(ByteOrder::Reverse, a@, b@),
{
    let n: usize = if a.len() < b.len() { a.len() } else { b.len() };
    let mut i: usize = 0;
    while i < n
        invariant
            i <= n,
            n <= a.len(),
            n <= b.len(),
            n == a.len() || n == b.len(),
            forall|j: int|
                a@.len() - i <= j < a@.len() ==> #[trigger] a@[j] == b@[j + b@.len() - a@.len()],
        decreases n - i,
    {
        let x = a[a.len() - 1 - i];
        let y = b[b.len() - 1 - i];
        if x != y {
            proof {
                lemma_rev_take(a@, b@, i as int);
                lemma_rev_total(a@, b@);
            }
            if x < y {
                return -1;
            } else {
                return 1;
            }
        }
        i += 1;
    }
    proof {
        lemma_rev_take(a@, b@, n as int);
        lemma_rev_total(a@, b@);
        if a.len() == b.len() {
            assert(a@ =~= b@);
            lemma_rev_irreflexive(a@);
        }
    }
    if a.len() < b.len() {
        -1
    } else if a.len() == b.len() {
        0
    } else {
        1
    }
}

/// Compares two byte strings in the order `ord` and returns -1, 0 or 1.
pub fn compare_bytes(ord: ByteOrder, a: &[u8], b: &[u8]) -> (r: i32)
    ensures
        r == bytes_sign(ord, a@, b@),
        r == 0 <==> a@ == b@,
        r < 0 <==> bytes_lt(ord, a@, b@),
        r > 0 <==> bytes_lt(ord, b@, a@),
{
    proof {
        lemma_order_total(ord, a@, b@);
        lemma_order_irreflexive(ord, a@);
    }
    match ord {
        ByteOrder::Lexical => lex_sign(a, b),
        ByteOrder::Reverse => rev_sign(a, b),
        ByteOrder::Integer => {
            if a.len() < b.len() {
                -1
            } else if a.len() > b.len() {
                1
            } else {
                rev_sign(a, b)
            }
        },
    }
}

} // verus!
