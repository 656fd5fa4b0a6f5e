//! Algebra of finite maps that the merge laws rest on: joining two maps key by
//! key, and keeping the entries whose value passes a test.

use vstd::prelude::*;

verus! {

/// The join of two maps: a key of either map is a key of the join, and where
/// both maps hold the key, `f` picks the value.
pub open spec fn join_with<A, W>(a: Map<A, W>, b: Map<A, W>, f: spec_fn(W, W) -> W) -> Map<A, W> {
    Map::new(
        |k: A| a.contains_key(k) || b.contains_key(k),
        |k: A|
            if a.contains_key(k) && b.contains_key(k) {
                f(a[k], b[k])
            } else if a.contains_key(k) {
                a[k]
            } else {
                b[k]
            },
    )
}

/// The entries of `m` whose value passes `f`.
pub open spec fn keep_where<A, W>(m: Map<A, W>, f: spec_fn(W) -> bool) -> Map<A, W> {
    m.restrict(Set::new(|k: A| m.contains_key(k) && f(m[k])))
}

/// Joining a map with itself changes nothing when `f` is idempotent.
pub proof fn join_with_idempotent<A, W>(a: Map<A, W>, f: spec_fn(W, W) -> W)
    requires
        forall|x: W| #[trigger] f(x, x) == x,
    ensures
        join_with(a, a, f) == a,
{
    assert(join_with(a, a, f) =~= a);
}

/// The join does not depend on the order of the two maps when `f` does not
/// depend on the order of its arguments.
pub proof fn join_with_commutative<A, W>(a: Map<A, W>, b: Map<A, W>, f: spec_fn(W, W) -> W)
    requires
        forall|x: W, y: W| #[trigger] f(x, y) == f(y, x),
    ensures
        join_with(a, b, f) == join_with(b, a, f),
{
    assert(join_with(a, b, f) =~= join_with(b, a, f));
}

/// The join of three maps does not depend on the grouping when `f` is
/// associative.
pub proof fn join_with_associative<A, W>(
    a: Map<A, W>,
    b: Map<A, W>,
    c: Map<A, W>,
    f: spec_fn(W, W) -> W,
)
    requires
        forall|x: W, y: W, z: W| #[trigger] f(f(x, y), z) == f(x, f(y, z)),
    ensures
        join_with(join_with(a, b, f), c, f) == join_with(a, join_with(b, c, f), f),
{
    assert(join_with(join_with(a, b, f), c, f) =~= join_with(a, join_with(b, c, f), f));
}

/// Joining with a map that holds one more entry under a new key is joining
/// first and then merging that entry in.
pub proof fn join_with_step<A, W>(a: Map<A, W>, b: Map<A, W>, k: A, w: W, f: spec_fn(W, W) -> W)
    requires
        !b.contains_key(k),
    ensures
        join_with(a, b.insert(k, w), f) == join_with(a, b, f).insert(
            k,
            if a.contains_key(k) {
                f(a[k], w)
            } else {
                w
            },
        ),
        join_with(a, b, f).contains_key(k) == a.contains_key(k),
        a.contains_key(k) ==> join_with(a, b, f)[k] == a[k],
{
    assert(join_with(a, b.insert(k, w), f) =~= join_with(a, b, f).insert(
        k,
        if a.contains_key(k) {
            f(a[k], w)
        } else {
            w
        },
    ));
}

/// Joining with the empty map changes nothing.
pub proof fn join_with_empty<A, W>(a: Map<A, W>, f: spec_fn(W, W) -> W)
    ensures
        join_with(a, Map::<A, W>::empty(), f) == a,
{
    assert(join_with(a, Map::<A, W>::empty(), f) =~= a);
}

/// Keeping the entries that pass a test, twice over, is keeping them once.
pub proof fn keep_where_idempotent<A, W>(m: Map<A, W>, f: spec_fn(W) -> bool)
    ensures
        keep_where(keep_where(m, f), f) == keep_where(m, f),
{
    assert(keep_where(keep_where(m, f), f) =~= keep_where(m, f));
}

} // verus!
