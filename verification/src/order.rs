//! The order and the equality of rows.
//!
//! Rows are ordered by their length in bytes and, at equal length, by their
//! bytes. The order is total and cheap, and it is not the order of the
//! datums: it serves where any fixed order will do.

use crate::row::{Row, RowRef};
use core::cmp::Ordering;
use vstd::prelude::*;
use vstd::std_specs::cmp::PartialEqSpecImpl;

verus! {

/// `a` comes before `b` byte by byte: at the first place where they differ
/// `a` has the lesser byte, or `a` ends there and `b` goes on.
pub open spec fn lex_less(a: Seq<u8>, b: Seq<u8>) -> bool
    decreases a.len(),
{
    if b.len() == 0 {
        false
    } else if a.len() == 0 {
        true
    } else if a[0] != b[0] {
        a[0] < b[0]
    } else {
        lex_less(a.drop_first(), b.drop_first())
    }
}

/// The order of two rows by their bytes: the shorter first, and of two of
/// one length the one that comes first byte by byte.
pub open spec fn row_order(a: Seq<u8>, b: Seq<u8>) -> Ordering {
    if a.len() < b.len() {
        Ordering::Less
    } else if a.len() > b.len() {
        Ordering::Greater
    } else if a == b {
        Ordering::Equal
    } else if lex_less(a, b) {
        Ordering::Less
    } else {
        Ordering::Greater
    }
}

/// Behind a common beginning the byte-by-byte order is that of the rests.
pub proof fn lemma_lex_less_skip(a: Seq<u8>, b: Seq<u8>, n: int)
    requires
        0 <= n <= a.len(),
        n <= b.len(),
        a.take(n) == b.take(n),
    ensures
        lex_less(a, b) == lex_less(a.skip(n), b.skip(n)),
    decreases n,
{
    if n == 0 {
        assert(a.skip(0) =~= a);
        assert(b.skip(0) =~= b);
    } else {
        assert(a[0] == a.take(n)[0]);
        assert(b[0] == b.take(n)[0]);
        let ra = a.drop_first();
        let rb = b.drop_first();
        assert(ra.take(n - 1) =~= a.take(n).drop_first());
        assert(rb.take(n - 1) =~= b.take(n).drop_first());
        lemma_lex_less_skip(ra, rb, n - 1);
        assert(ra.skip(n - 1) =~= a.skip(n));
        assert(rb.skip(n - 1) =~= b.skip(n));
    }
}

/// Two rows are equal in the order exactly when their bytes are the same.
pub proof fn lemma_order_equal(a: Seq<u8>, b: Seq<u8>)
    ensures
        row_order(a, b) == Ordering::Equal <==> a == b,
{
}

/// Turning two rows round turns their order round.
pub proof fn lemma_order_antisymmetric(a: Seq<u8>, b: Seq<u8>)
    ensures
        row_order(a, b) == Ordering::Less <==> row_order(b, a) == Ordering::Greater,
{
    if a.len() == b.len() && a != b {
        lemma_lex_total(a, b);
    }
}

/// Of two different byte strings of one length, one comes first.
pub proof fn lemma_lex_total(a: Seq<u8>, b: Seq<u8>)
    requires
        a.len() == b.len(),
        a != b,
    ensures
        lex_less(a, b) != lex_less(b, a),
    decreases a.len(),
{
    if a.len() == 0 {
        assert(a =~= b);
    } else if a[0] == b[0] {
        if a.drop_first() =~= b.drop_first() {
            assert(a =~= seq![a[0]] + a.drop_first());
            assert(b =~= seq![b[0]] + b.drop_first());
        }
        lemma_lex_total(a.drop_first(), b.drop_first());
    }
}

/// The order of two rows is the order of their copies: it rests on nothing
/// but the bytes.
pub proof fn lemma_order_of_copies(a: Row, b: Row, a_copy: Row, b_copy: Row)
    requires
        a_copy@ == a@,
        b_copy@ == b@,
    ensures
        row_order(a_copy@, b_copy@) == row_order(a@, b@),
{
}

/// The first place at which `a` and `b` differ, or the length of the shorter
/// where they do not differ before it ends.
pub fn first_difference(a: &[u8], b: &[u8]) -> (i: usize)
    ensures
        i <= a@.len(),
        i <= b@.len(),
        a@.take(i as int) == b@.take(i as int),
        i < a@.len() && i < b@.len() ==> a@[i as int] != b@[i as int] && lex_less(a@, b@) == (a@[i as int]
            < b@[i as int]),
        a@.len() == b@.len() ==> (i == a@.len() <==> a@ == b@),
{
    let mut i: usize = 0;
    assert(a@.take(0) =~= b@.take(0));
    while i < a.len() && i < b.len() && a[i] == b[i]
        invariant
            i <= a@.len(),
            i <= b@.len(),
            a@.take(i as int) == b@.take(i as int),
        decreases a@.len() - i,
    {
        assert(a@.take(i + 1) =~= a@.take(i as int).push(a@[i as int]));
        assert(b@.take(i + 1) =~= b@.take(i as int).push(b@[i as int]));
        i = i + 1;
    }
    proof {
        lemma_lex_less_skip(a@, b@, i as int);
        if i < a@.len() && i < b@.len() {
            assert(a@.skip(i as int)[0] == a@[i as int]);
            assert(b@.skip(i as int)[0] == b@[i as int]);
            assert(a@.take(i + 1)[i as int] == a@[i as int]);
        }
        if a@.len() == b@.len() && i == a@.len() {
            assert(a@.take(i as int) =~= a@);
            assert(b@.take(i as int) =~= b@);
        }
        if a@ == b@ && i < a@.len() {
        }
    }
    i
}

/// Whether `a` comes before `b` byte by byte.
pub fn bytes_less(a: &[u8], b: &[u8]) -> (less: bool)
    ensures
        less == lex_less(a@, b@),
{
    let at = first_difference(a, b);
    proof {
        lemma_lex_less_skip(a@, b@, at as int);
    }
    if at < a.len() && at < b.len() {
        a[at] < b[at]
    } else {
        at == a.len() && at < b.len()
    }
}

/// Whether `a` and `b` are the same bytes.
pub fn bytes_equal(a: &[u8], b: &[u8]) -> (equal: bool)
    ensures
        equal == (a@ == b@),
{
    a.len() == b.len() && first_difference(a, b) == a.len()
}

/// No byte string comes before itself, and of two that differ one comes
/// before the other.
pub proof fn lemma_lex_trichotomy(a: Seq<u8>, b: Seq<u8>)
    ensures
        !lex_less(a, a),
        a != b ==> lex_less(a, b) != lex_less(b, a),
        a == b ==> !lex_less(a, b),
    decreases a.len(),
{
    if a.len() > 0 {
        lemma_lex_trichotomy(a.drop_first(), a.drop_first());
        if b.len() > 0 {
            lemma_lex_trichotomy(a.drop_first(), b.drop_first());
            if a[0] == b[0] && a.drop_first() == b.drop_first() {
                assert(a =~= seq![a[0]] + a.drop_first());
                assert(b =~= seq![b[0]] + b.drop_first());
            }
        }
    } else if b.len() == 0 {
        assert(a =~= b);
    }
}

/// The byte-by-byte order goes on from one byte string over a second to a
/// third.
pub proof fn lemma_lex_transitive(a: Seq<u8>, b: Seq<u8>, c: Seq<u8>)
    requires
        lex_less(a, b),
        lex_less(b, c),
    ensures
        lex_less(a, c),
    decreases a.len(),
{
    if a.len() > 0 && b.len() > 0 && c.len() > 0 && a[0] == b[0] && b[0] == c[0] {
        lemma_lex_transitive(a.drop_first(), b.drop_first(), c.drop_first());
    }
}

/// The order of the rows whose bytes `a` and `b` are.
pub fn order_of_bytes(a: &[u8], b: &[u8]) -> (o: Ordering)
    ensures
        o == row_order(a@, b@),
{
    if a.len() < b.len() {
        Ordering::Less
    } else if a.len() > b.len() {
        Ordering::Greater
    } else {
        let i = first_difference(a, b);
        if i == a.len() {
            Ordering::Equal
        } else if a[i] < b[i] {
            Ordering::Less
        } else {
            Ordering::Greater
        }
    }
}

impl Row {
    /// The order of this row and `other`.
    pub fn cmp(&self, other: &Row) -> (o: Ordering)
        ensures
            o == row_order(self@, other@),
    {
        order_of_bytes(self.data(), other.data())
    }
}

impl<'a> RowRef<'a> {
    /// The order of these bytes and `other` as rows.
    pub fn cmp(&self, other: &RowRef<'_>) -> (o: Ordering)
        ensures
            o == row_order(self@, other@),
    {
        order_of_bytes(self.data(), other.data())
    }
}

impl PartialEq for Row {
    fn eq(&self, other: &Row) -> (equal: bool) {
        let a = self.data();
        let b = other.data();
        a.len() == b.len() && first_difference(a, b) == a.len()
    }
}

impl PartialEqSpecImpl for Row {
    open spec fn obeys_eq_spec() -> bool {
        true
    }

    open spec fn eq_spec(&self, other: &Row) -> bool {
        self@ == other@
    }
}

impl Eq for Row {

}

} // verus!
