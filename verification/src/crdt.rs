//! The contract that every container of this library meets.

use crate::error::MergeError;
use vstd::prelude::*;

verus! {

/// A replicated container: a value whose state can absorb the state of a peer
/// and can drop what has lapsed.
///
/// The view of the container is its state. `join` says what a merge computes,
/// `purge` what a cleanup computes, and `mergeable` on which pairs of states a
/// merge is defined at all.
pub trait Crdt: View + Sized {
    /// The two states have the same fixed parameters, so they can be joined.
    spec fn mergeable(a: Self::V, b: Self::V) -> bool;

    /// The state that holds what `a` holds and what `b` holds.
    spec fn join(a: Self::V, b: Self::V) -> Self::V;

    /// The state `a` without the entries whose validity has lapsed at `now`.
    spec fn purge(a: Self::V, now: i64) -> Self::V;

    /// Absorbs the state of `other`. Fails, and changes nothing, exactly when
    /// the two states are not mergeable.
    fn merge(&mut self, other: &Self) -> (r: Result<(), MergeError>)
        ensures
            Self::mergeable(old(self)@, other@) ==> r == Ok::<(), MergeError>(())
                && final(self)@ == Self::join(old(self)@, other@),
            !Self::mergeable(old(self)@, other@) ==> r == Err::<(), MergeError>(
                MergeError::IncompatibleConfiguration,
            ) && final(self)@ == old(self)@,
    ;

    /// Drops what has lapsed at `now`.
    fn cleanup(&mut self, now: i64)
        ensures
            final(self)@ == Self::purge(old(self)@, now),
    ;
}

} // verus!
