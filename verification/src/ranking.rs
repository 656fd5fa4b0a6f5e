//! The ranking of time-stamped entries, and the choice of the best `n` of them.
//!
//! An entry is a value with the time at which it was written. The entry that
//! was written earlier ranks better; of two entries written at the same time
//! the one whose value sorts first ranks better. The best `n` entries of a map
//! are those that fewer than `n` entries outrank.

use crate::order::{lt_asymmetric, Ordered};
use vstd::prelude::*;
use vstd::set_lib::{lemma_len_subset, lemma_set_subset_finite};

verus! {

/// The entry of value `j`, written at `wj`, ranks strictly better than the
/// entry of value `k`, written at `wk`.
pub open spec fn outranks<T: Ordered>(j: T::V, wj: i64, k: T::V, wk: i64) -> bool {
    wj < wk || (wj == wk && T::lt(j, k))
}

/// No entry outranks itself, and of two entries at most one outranks the other.
pub proof fn outranks_asymmetric<T: Ordered>(j: T::V, wj: i64, k: T::V, wk: i64)
    requires
        outranks::<T>(j, wj, k, wk),
    ensures
        !outranks::<T>(k, wk, j, wj),
        j != k || wj != wk,
{
    if wj == wk {
        lt_asymmetric::<T>(j, k);
    }
}

/// The ranking is transitive.
pub proof fn outranks_transitive<T: Ordered>(i: T::V, wi: i64, j: T::V, wj: i64, k: T::V, wk: i64)
    requires
        outranks::<T>(i, wi, j, wj),
        outranks::<T>(j, wj, k, wk),
    ensures
        outranks::<T>(i, wi, k, wk),
{
    if wi == wj && wj == wk {
        T::lt_transitive(i, j, k);
    }
}

/// Entries of two different values are always ranked, one way or the other.
pub proof fn outranks_connected<T: Ordered>(j: T::V, wj: i64, k: T::V, wk: i64)
    requires
        j != k,
    ensures
        outranks::<T>(j, wj, k, wk) || outranks::<T>(k, wk, j, wj),
{
    T::lt_connected(j, k);
}

/// The values of `m` whose entries outrank the entry of `k`. The second
/// component of an entry plays no part in the ranking.
pub open spec fn ahead<T: Ordered>(m: Map<T::V, (i64, i64)>, k: T::V) -> Set<T::V> {
    Set::new(|j: T::V| m.contains_key(j) && outranks::<T>(j, m[j].0, k, m[k].0))
}

/// The entry of `k` is among the best `n` of `m`.
pub open spec fn survives<T: Ordered>(m: Map<T::V, (i64, i64)>, n: nat, k: T::V) -> bool {
    m.contains_key(k) && ahead::<T>(m, k).len() < n
}

/// The best `n` entries of `m`: all of `m` if it has no more than `n`.
pub open spec fn best<T: Ordered>(m: Map<T::V, (i64, i64)>, n: nat) -> Map<T::V, (i64, i64)> {
    m.restrict(Set::new(|k: T::V| survives::<T>(m, n, k)))
}

/// Every entry of `m` is outranked by every other: `w` ranks worst.
pub open spec fn ranks_worst<T: Ordered>(m: Map<T::V, (i64, i64)>, w: T::V) -> bool {
    &&& m.contains_key(w)
    &&& forall|j: T::V| #[trigger]
        m.contains_key(j) && j != w ==> outranks::<T>(j, m[j].0, w, m[w].0)
}

/// The values ahead of `k` are values of `m` other than `k`.
pub proof fn ahead_bounded<T: Ordered>(m: Map<T::V, (i64, i64)>, k: T::V)
    requires
        m.dom().finite(),
        m.contains_key(k),
    ensures
        ahead::<T>(m, k).finite(),
        ahead::<T>(m, k).len() < m.len(),
{
    let rest = m.dom().remove(k);
    assert forall|j: T::V| ahead::<T>(m, k).contains(j) implies rest.contains(j) by {
        if j == k {
            outranks_asymmetric::<T>(j, m[j].0, k, m[k].0);
        }
    }
    lemma_len_subset(ahead::<T>(m, k), rest);
    lemma_set_subset_finite(rest, ahead::<T>(m, k));
}

/// A map with no more than `n` entries keeps them all.
pub proof fn best_of_few<T: Ordered>(m: Map<T::V, (i64, i64)>, n: nat)
    requires
        m.dom().finite(),
        m.len() <= n,
    ensures
        best::<T>(m, n) == m,
{
    assert forall|k: T::V| m.contains_key(k) implies survives::<T>(m, n, k) by {
        ahead_bounded::<T>(m, k);
    }
    assert(best::<T>(m, n) =~= m);
}

/// Nothing is kept where nothing may be kept.
pub proof fn best_of_none<T: Ordered>(m: Map<T::V, (i64, i64)>)
    ensures
        best::<T>(m, 0) == Map::<T::V, (i64, i64)>::empty(),
{
    assert(best::<T>(m, 0) =~= Map::<T::V, (i64, i64)>::empty());
}

/// A map with more than `n` entries loses its worst entry, and the choice
/// among the others is not affected by that.
pub proof fn best_drops_worst<T: Ordered>(m: Map<T::V, (i64, i64)>, n: nat, w: T::V)
    requires
        m.dom().finite(),
        m.len() > n,
        ranks_worst::<T>(m, w),
    ensures
        best::<T>(m, n) == best::<T>(m.remove(w), n),
{
    let r = m.remove(w);
    // Everything else is ahead of the worst entry.
    T::lt_irreflexive(w);
    assert(ahead::<T>(m, w) =~= m.dom().remove(w));
    assert(!survives::<T>(m, n, w));
    assert forall|k: T::V| k != w && m.contains_key(k) implies ahead::<T>(m, k) == ahead::<T>(
        r,
        k,
    ) by {
        outranks_asymmetric::<T>(k, m[k].0, w, m[w].0);
        assert(ahead::<T>(m, k) =~= ahead::<T>(r, k));
    }
    assert(best::<T>(m, n) =~= best::<T>(r, n));
}

/// A finite map that is not empty has a worst-ranked entry.
pub proof fn worst_exists<T: Ordered>(m: Map<T::V, (i64, i64)>)
    requires
        m.dom().finite(),
        m.len() > 0,
    ensures
        exists|w: T::V| ranks_worst::<T>(m, w),
    decreases m.len(),
{
    let k = m.dom().choose();
    let r = m.remove(k);
    if r.len() == 0 {
        assert forall|j: T::V| #[trigger] m.contains_key(j) && j != k implies outranks::<T>(
            j,
            m[j].0,
            k,
            m[k].0,
        ) by {
            assert(r.dom().contains(j));
            assert(r.dom() =~= Set::empty());
        }
        assert(ranks_worst::<T>(m, k));
    } else {
        worst_exists::<T>(r);
        let w = choose|w: T::V| ranks_worst::<T>(r, w);
        outranks_connected::<T>(k, m[k].0, w, m[w].0);
        if outranks::<T>(w, m[w].0, k, m[k].0) {
            assert forall|j: T::V| #[trigger] m.contains_key(j) && j != k implies outranks::<T>(
                j,
                m[j].0,
                k,
                m[k].0,
            ) by {
                assert(r.contains_key(j));
                if j != w {
                    outranks_transitive::<T>(j, m[j].0, w, m[w].0, k, m[k].0);
                }
            }
            assert(ranks_worst::<T>(m, k));
        } else {
            assert forall|j: T::V| #[trigger] m.contains_key(j) && j != w implies outranks::<T>(
                j,
                m[j].0,
                w,
                m[w].0,
            ) by {
                if j != k {
                    assert(r.contains_key(j));
                }
            }
            assert(ranks_worst::<T>(m, w));
        }
    }
}

/// The best `n` entries of a finite map are `n` entries, or all of them
/// where the map has fewer.
pub proof fn best_len<T: Ordered>(m: Map<T::V, (i64, i64)>, n: nat)
    requires
        m.dom().finite(),
    ensures
        best::<T>(m, n).dom().finite(),
        best::<T>(m, n).len() == if m.len() <= n {
            m.len()
        } else {
            n
        },
    decreases m.len(),
{
    if m.len() <= n {
        best_of_few::<T>(m, n);
    } else {
        worst_exists::<T>(m);
        let w = choose|w: T::V| ranks_worst::<T>(m, w);
        best_drops_worst::<T>(m, n, w);
        best_len::<T>(m.remove(w), n);
    }
}

/// Whatever outranks one of the best `n` entries is one of them too.
pub proof fn best_is_closed<T: Ordered>(m: Map<T::V, (i64, i64)>, n: nat, j: T::V, k: T::V)
    requires
        m.dom().finite(),
        survives::<T>(m, n, k),
        m.contains_key(j),
        outranks::<T>(j, m[j].0, k, m[k].0),
    ensures
        survives::<T>(m, n, j),
{
    assert forall|i: T::V| ahead::<T>(m, j).contains(i) implies ahead::<T>(m, k).contains(i) by {
        outranks_transitive::<T>(i, m[i].0, j, m[j].0, k, m[k].0);
    }
    ahead_bounded::<T>(m, k);
    lemma_len_subset(ahead::<T>(m, j), ahead::<T>(m, k));
}

/// Each of the best `n` entries outranks each entry that is not among them.
pub proof fn best_outranks_rest<T: Ordered>(m: Map<T::V, (i64, i64)>, n: nat, j: T::V, k: T::V)
    requires
        m.dom().finite(),
        survives::<T>(m, n, j),
        m.contains_key(k),
        !survives::<T>(m, n, k),
    ensures
        outranks::<T>(j, m[j].0, k, m[k].0),
{
    outranks_connected::<T>(j, m[j].0, k, m[k].0);
    if outranks::<T>(k, m[k].0, j, m[j].0) {
        best_is_closed::<T>(m, n, k, j);
    }
}

/// Where an entry of a finite map is not among the best `n`, the best `n`
/// are `n` entries, and each of them outranks it.
pub proof fn best_is_full<T: Ordered>(m: Map<T::V, (i64, i64)>, n: nat, k: T::V)
    requires
        m.dom().finite(),
        m.contains_key(k),
        !survives::<T>(m, n, k),
    ensures
        best::<T>(m, n).dom().finite(),
        best::<T>(m, n).len() == n,
        forall|j: T::V| #[trigger]
            best::<T>(m, n).contains_key(j) ==> m.contains_key(j) && outranks::<T>(
                j,
                m[j].0,
                k,
                m[k].0,
            ),
{
    best_len::<T>(m, n);
    if m.len() <= n {
        ahead_bounded::<T>(m, k);
    }
    assert forall|j: T::V| #[trigger] best::<T>(m, n).contains_key(j) implies m.contains_key(j)
        && outranks::<T>(j, m[j].0, k, m[k].0) by {
        best_outranks_rest::<T>(m, n, j, k);
    }
}

} // verus!
