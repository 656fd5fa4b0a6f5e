//! The total order that every stored value and key must carry.
//!
//! The containers never interpret a value. They only ask whether two values
//! are the same and, when two writes carry the same timestamp, which of the two
//! values sorts first. Every replica gives the same answer, so every replica
//! resolves a tie in the same way.

use vstd::prelude::*;

verus! {

/// A value with a strict total order on its view.
///
/// `lt` is the order, the three proof functions are the axioms of a strict
/// total order, and the executable methods decide the order and equality of
/// two values and copy a value without changing its view.
pub trait Ordered: View + Sized {
    /// `a` sorts strictly before `b`.
    spec fn lt(a: Self::V, b: Self::V) -> bool;

    /// No value sorts before itself.
    proof fn lt_irreflexive(a: Self::V)
        ensures
            !Self::lt(a, a),
    ;

    /// The order is transitive.
    proof fn lt_transitive(a: Self::V, b: Self::V, c: Self::V)
        requires
            Self::lt(a, b),
            Self::lt(b, c),
        ensures
            Self::lt(a, c),
    ;

    /// Two different values are always ordered, one way or the other.
    proof fn lt_connected(a: Self::V, b: Self::V)
        ensures
            a == b || Self::lt(a, b) || Self::lt(b, a),
    ;

    /// Decides `lt` on two values.
    fn sorts_before(&self, other: &Self) -> (r: bool)
        ensures
            r == Self::lt(self@, other@),
    ;

    /// Decides whether two values have the same view.
    fn same_as(&self, other: &Self) -> (r: bool)
        ensures
            r == (self@ == other@),
    ;

    /// A copy of the value, with the same view.
    fn duplicate(&self) -> (r: Self)
        ensures
            r@ == self@,
    ;
}

/// The order is asymmetric: of two values at most one sorts before the other.
pub proof fn lt_asymmetric<T: Ordered>(a: T::V, b: T::V)
    requires
        T::lt(a, b),
    ensures
        !T::lt(b, a),
        a != b,
{
    if T::lt(b, a) {
        T::lt_transitive(a, b, a);
    }
    T::lt_irreflexive(a);
}

/// The order laws for every pair and triple among three values, at once.
pub proof fn lt_facts<T: Ordered>(u: T::V, v: T::V, w: T::V)
    ensures
        !T::lt(u, u) && !T::lt(v, v) && !T::lt(w, w),
        u == v || T::lt(u, v) || T::lt(v, u),
        u == w || T::lt(u, w) || T::lt(w, u),
        v == w || T::lt(v, w) || T::lt(w, v),
        !(T::lt(u, v) && T::lt(v, u)),
        !(T::lt(u, w) && T::lt(w, u)),
        !(T::lt(v, w) && T::lt(w, v)),
        T::lt(u, v) && T::lt(v, w) ==> T::lt(u, w),
        T::lt(u, w) && T::lt(w, v) ==> T::lt(u, v),
        T::lt(v, u) && T::lt(u, w) ==> T::lt(v, w),
        T::lt(v, w) && T::lt(w, u) ==> T::lt(v, u),
        T::lt(w, u) && T::lt(u, v) ==> T::lt(w, v),
        T::lt(w, v) && T::lt(v, u) ==> T::lt(w, u),
{
    T::lt_irreflexive(u);
    T::lt_irreflexive(v);
    T::lt_irreflexive(w);
    T::lt_connected(u, v);
    T::lt_connected(u, w);
    T::lt_connected(v, w);
    if T::lt(u, v) {
        lt_asymmetric::<T>(u, v);
    }
    if T::lt(u, w) {
        lt_asymmetric::<T>(u, w);
    }
    if T::lt(v, w) {
        lt_asymmetric::<T>(v, w);
    }
    if T::lt(u, v) && T::lt(v, w) {
        T::lt_transitive(u, v, w);
    }
    if T::lt(u, w) && T::lt(w, v) {
        T::lt_transitive(u, w, v);
    }
    if T::lt(v, u) && T::lt(u, w) {
        T::lt_transitive(v, u, w);
    }
    if T::lt(v, w) && T::lt(w, u) {
        T::lt_transitive(v, w, u);
    }
    if T::lt(w, u) && T::lt(u, v) {
        T::lt_transitive(w, u, v);
    }
    if T::lt(w, v) && T::lt(v, u) {
        T::lt_transitive(w, v, u);
    }
}

/// Lexicographic order on byte strings: the first differing byte decides, and
/// a proper prefix sorts first.
pub open spec fn bytes_lt(a: Seq<u8>, b: Seq<u8>) -> bool
    decreases a.len(),
{
    if b.len() == 0 {
        false
    } else if a.len() == 0 {
        true
    } else if a[0] != b[0] {
        a[0] < b[0]
    } else {
        bytes_lt(a.drop_first(), b.drop_first())
    }
}

/// `bytes_lt` read off at the first position where the two strings differ:
/// when they agree on their first `i` bytes, the suffixes decide.
pub proof fn bytes_lt_skip_common(a: Seq<u8>, b: Seq<u8>, i: int)
    requires
        0 <= i <= a.len(),
        i <= b.len(),
        a.take(i) == b.take(i),
    ensures
        bytes_lt(a, b) == bytes_lt(a.skip(i), b.skip(i)),
    decreases i,
{
    if i == 0 {
        assert(a.skip(0) =~= a);
        assert(b.skip(0) =~= b);
    } else {
        assert(a[0] == a.take(i)[0]);
        assert(b[0] == b.take(i)[0]);
        assert(a.drop_first().take(i - 1) =~= a.take(i).drop_first());
        assert(b.drop_first().take(i - 1) =~= b.take(i).drop_first());
        bytes_lt_skip_common(a.drop_first(), b.drop_first(), i - 1);
        assert(a.drop_first().skip(i - 1) =~= a.skip(i));
        assert(b.drop_first().skip(i - 1) =~= b.skip(i));
    }
}

pub proof fn bytes_lt_irreflexive(a: Seq<u8>)
    ensures
        !bytes_lt(a, a),
    decreases a.len(),
{
    if a.len() > 0 {
        bytes_lt_irreflexive(a.drop_first());
    }
}

pub proof fn bytes_lt_transitive(a: Seq<u8>, b: Seq<u8>, c: Seq<u8>)
    requires
        bytes_lt(a, b),
        bytes_lt(b, c),
    ensures
        bytes_lt(a, c),
    decreases a.len(),
{
    if a.len() > 0 && a[0] == b[0] && b[0] == c[0] {
        bytes_lt_transitive(a.drop_first(), b.drop_first(), c.drop_first());
    }
}

pub proof fn bytes_lt_connected(a: Seq<u8>, b: Seq<u8>)
    ensures
        a == b || bytes_lt(a, b) || bytes_lt(b, a),
    decreases a.len(),
{
    if a.len() == 0 || b.len() == 0 {
        if a.len() == 0 && b.len() == 0 {
            assert(a =~= b);
        }
    } else if a[0] == b[0] {
        bytes_lt_connected(a.drop_first(), b.drop_first());
        if a.drop_first() == b.drop_first() {
            assert(a =~= seq![a[0]] + a.drop_first());
            assert(b =~= seq![b[0]] + b.drop_first());
        }
    }
}

/// Decides `bytes_lt` on two slices.
pub fn slice_lt(a: &[u8], b: &[u8]) -> (r: bool)
    ensures
        r == bytes_lt(a@, b@),
{
    let mut i: usize = 0;
    while i < a.len() && i < b.len()
        invariant
            i <= a@.len(),
            i <= b@.len(),
            a@.take(i as int) == b@.take(i as int),
        decreases a@.len() - i,
    {
        if a[i] != b[i] {
            proof {
                bytes_lt_skip_common(a@, b@, i as int);
            }
            return a[i] < b[i];
        }
        proof {
            assert(a@.take(i + 1) =~= a@.take(i as int).push(a@[i as int]));
            assert(b@.take(i + 1) =~= b@.take(i as int).push(b@[i as int]));
        }
        i += 1;
    }
    proof {
        bytes_lt_skip_common(a@, b@, i as int);
    }
    i < b.len()
}

} // verus!
