//! A set whose members each carry an expiry bound.
//!
//! A member stays until a cleanup finds its bound lapsed. Inserting a member
//! again, or merging with a peer that holds it, can only move its bound later.

use crate::crdt::Crdt;
use crate::error::MergeError;
use crate::maps::{
    join_with,
    join_with_associative,
    join_with_commutative,
    join_with_empty,
    join_with_idempotent,
    join_with_step,
    keep_where,
    keep_where_idempotent,
};
use crate::order::Ordered;
use crate::sorted_map::{ascending, to_map, to_map_injective, to_map_take, views, Keep, SortedMap};
use vstd::prelude::*;

verus! {

/// The later of two expiry bounds.
pub open spec fn later(a: i64, b: i64) -> i64 {
    if a >= b {
        a
    } else {
        b
    }
}

/// The test that a cleanup at `now` applies to an expiry bound.
pub struct LiveAfter {
    pub now: i64,
}

impl Keep<i64> for LiveAfter {
    open spec fn keeps(&self, v: i64) -> bool {
        v > self.now
    }

    fn test(&self, v: &i64) -> (r: bool) {
        *v > self.now
    }
}

/// A set of values, each with the time at which it expires.
pub struct ExpiringSet<T: Ordered> {
    entries: SortedMap<T, i64>,
}

impl<T: Ordered> View for ExpiringSet<T> {
    type V = Map<T::V, i64>;

    /// The expiry bound of each member.
    closed spec fn view(&self) -> Map<T::V, i64> {
        self.entries@
    }
}

/// The state `m` after `k` was inserted with bound `e`: a member keeps the
/// later of its bound and `e`, a new value gets `e`.
pub open spec fn put<A>(m: Map<A, i64>, k: A, e: i64) -> Map<A, i64> {
    m.insert(
        k,
        if m.contains_key(k) {
            later(m[k], e)
        } else {
            e
        },
    )
}

/// The state `m` after the entries of `s` were inserted one after the other.
pub open spec fn put_all<A>(m: Map<A, i64>, s: Seq<(A, i64)>) -> Map<A, i64>
    decreases s.len(),
{
    if s.len() == 0 {
        m
    } else {
        put(put_all(m, s.drop_last()), s.last().0, s.last().1)
    }
}

impl<T: Ordered> ExpiringSet<T> {
    /// The members with their bounds, in ascending order of the members.
    pub closed spec fn listing(&self) -> Seq<(T::V, i64)> {
        self.entries.listing()
    }

    /// The stored form is canonical: the members ascend strictly.
    #[verifier::type_invariant]
    pub closed spec fn wf(&self) -> bool {
        self.entries.wf()
    }

    /// The listing of a well-formed set is ascending and stands for its view.
    pub proof fn listing_agrees(&self)
        requires
            self.wf(),
        ensures
            ascending::<T, i64>(self.listing()),
            to_map(self.listing()) == self@,
            self@.dom().finite(),
            self@.len() == self.listing().len(),
    {
        self.entries.listing_agrees();
    }

    /// An empty set.
    pub fn new() -> (r: Self)
        ensures
            r@ == Map::<T::V, i64>::empty(),
    {
        let entries = SortedMap::new();
        proof {
            use_type_invariant(&entries);
        }
        ExpiringSet { entries }
    }

    /// The number of members.
    pub fn len(&self) -> (n: usize)
        ensures
            self@.dom().finite(),
            n == self@.len(),
    {
        self.entries.len()
    }

    /// Whether the set has no member.
    pub fn is_empty(&self) -> (r: bool)
        ensures
            r == (self@ == Map::<T::V, i64>::empty()),
    {
        let n = self.entries.len();
        proof {
            if n == 0 {
                assert(self@ =~= Map::empty());
            }
        }
        n == 0
    }

    /// Adds `value` with bound `expires`, or moves the bound of a member to
    /// `expires` if that is later.
    pub fn insert(&mut self, value: T, expires: i64)
        ensures
            final(self)@ == put(old(self)@, value@, expires),
    {
        let mut entries = SortedMap::new();
        core::mem::swap(&mut entries, &mut self.entries);
        let ghost m = entries@;
        let (found, at) = entries.locate(&value);
        if found {
            let (_, held) = entries.entry(at);
            if *held < expires {
                entries.set_value(at, expires);
            } else {
                assert(m =~= put(m, value@, expires));
            }
        } else {
            entries.insert(value, expires);
        }
        proof {
            use_type_invariant(&entries);
        }
        self.entries = entries;
    }

    /// Whether `value` is a member. A member whose bound has lapsed is a
    /// member until a cleanup removes it.
    pub fn contains(&self, value: &T) -> (r: bool)
        ensures
            r == self@.contains_key(value@),
    {
        self.entries.contains_key(value)
    }

    /// The expiry bound of `value`, if it is a member.
    pub fn expires(&self, value: &T) -> (r: Option<i64>)
        ensures
            r == if self@.contains_key(value@) {
                Some(self@[value@])
            } else {
                None
            },
    {
        match self.entries.get(value) {
            Some(e) => Some(*e),
            None => None,
        }
    }

    /// The members with their bounds, in ascending order of the members: the
    /// full state of the set.
    pub fn entries(&self) -> (r: Vec<(T, i64)>)
        ensures
            views(r@) == self.listing(),
            ascending::<T, i64>(views(r@)),
            to_map(views(r@)) == self@,
    {
        proof {
            use_type_invariant(&self.entries);
            self.entries.listing_agrees();
        }
        let n = self.entries.len();
        let mut r: Vec<(T, i64)> = Vec::new();
        let mut i: usize = 0;
        while i < n
            invariant
                n == self.entries.listing().len(),
                i <= n,
                r@.len() == i,
                views(r@) == self.entries.listing().take(i as int),
            decreases n - i,
        {
            let (k, e) = self.entries.entry(i);
            let ghost pre = r@;
            r.push((k.duplicate(), *e));
            proof {
                let l = self.entries.listing();
                assert(e@ == *e);
                assert forall|j: int| 0 <= j < i + 1 implies views(r@)[j] == l.take(i + 1)[j] by {
                    if j < i {
                        assert(views(r@)[j] == views(pre)[j]);
                        assert(l.take(i as int)[j] == l[j]);
                    }
                }
                assert(views(r@) =~= l.take(i + 1));
            }
            i += 1;
        }
        proof {
            assert(self.entries.listing().take(n as int) =~= self.entries.listing());
        }
        r
    }

    /// The set that results from inserting the given entries, in their order,
    /// into an empty set.
    pub fn from_entries(entries: Vec<(T, i64)>) -> (r: Self)
        ensures
            r@ == put_all(Map::<T::V, i64>::empty(), views(entries@)),
    {
        let mut r = Self::new();
        let n = entries.len();
        let mut i: usize = 0;
        while i < n
            invariant
                n == entries@.len(),
                i <= n,
                r@ == put_all(Map::<T::V, i64>::empty(), views(entries@).take(i as int)),
            decreases n - i,
        {
            let k = entries[i].0.duplicate();
            let e = entries[i].1;
            r.insert(k, e);
            proof {
                let s = views(entries@);
                assert(s.take(i + 1).drop_last() =~= s.take(i as int));
                assert(s.take(i + 1).last() == (k@, e));
            }
            i += 1;
        }
        proof {
            assert(views(entries@).take(n as int) =~= views(entries@));
        }
        r
    }
}

impl<T: Ordered> Default for ExpiringSet<T> {
    /// An empty set.
    fn default() -> (r: Self)
        ensures
            r@ == Map::<T::V, i64>::empty(),
    {
        Self::new()
    }
}

impl<T: Ordered> Crdt for ExpiringSet<T> {
    /// Two expiring sets can always be merged.
    open spec fn mergeable(a: Map<T::V, i64>, b: Map<T::V, i64>) -> bool {
        true
    }

    /// The members of either set, each with the later of its bounds.
    open spec fn join(a: Map<T::V, i64>, b: Map<T::V, i64>) -> Map<T::V, i64> {
        join_with(a, b, |x: i64, y: i64| later(x, y))
    }

    /// The members whose bound is later than `now`.
    open spec fn purge(a: Map<T::V, i64>, now: i64) -> Map<T::V, i64> {
        keep_where(a, |e: i64| e > now)
    }

    fn merge(&mut self, other: &Self) -> (r: Result<(), MergeError>) {
        proof {
            use_type_invariant(&other.entries);
            other.entries.listing_agrees();
        }
        let ghost a = self@;
        let ghost s = other.entries.listing();
        let n = other.entries.len();
        let mut i: usize = 0;
        proof {
            assert(to_map(s.take(0)) =~= Map::empty());
            join_with_empty(a, |x: i64, y: i64| later(x, y));
        }
        while i < n
            invariant
                s == other.entries.listing(),
                ascending::<T, i64>(s),
                n == s.len(),
                i <= n,
                self@ == Self::join(a, to_map(s.take(i as int))),
            decreases n - i,
        {
            let (k, e) = other.entries.entry(i);
            proof {
                assert(e@ == *e);
                to_map_take::<T, i64>(s, i as int);
                join_with_step(a, to_map(s.take(i as int)), k@, *e, |x: i64, y: i64| later(x, y));
            }
            self.insert(k.duplicate(), *e);
            proof {
                assert(self@ =~= Self::join(a, to_map(s.take(i + 1))));
            }
            i += 1;
        }
        proof {
            assert(s.take(n as int) =~= s);
        }
        Ok(())
    }

    fn cleanup(&mut self, now: i64) {
        let live = LiveAfter { now };
        let mut entries = SortedMap::new();
        core::mem::swap(&mut entries, &mut self.entries);
        let ghost m = entries@;
        entries.retain(&live);
        proof {
            use_type_invariant(&entries);
            assert(entries@ =~= Self::purge(m, now));
        }
        self.entries = entries;
    }
}

/// Merging a set with itself changes nothing.
pub proof fn merge_idempotent<T: Ordered>(a: ExpiringSet<T>)
    ensures
        ExpiringSet::<T>::join(a@, a@) == a@,
{
    join_with_idempotent(a@, |x: i64, y: i64| later(x, y));
}

/// Merging two sets gives the same state in either direction.
pub proof fn merge_commutative<T: Ordered>(a: ExpiringSet<T>, b: ExpiringSet<T>)
    ensures
        ExpiringSet::<T>::join(a@, b@) == ExpiringSet::<T>::join(b@, a@),
{
    join_with_commutative(a@, b@, |x: i64, y: i64| later(x, y));
}

/// Merging three sets gives the same state in either grouping.
pub proof fn merge_associative<T: Ordered>(a: ExpiringSet<T>, b: ExpiringSet<T>, c: ExpiringSet<T>)
    ensures
        ExpiringSet::<T>::join(ExpiringSet::<T>::join(a@, b@), c@) == ExpiringSet::<T>::join(
            a@,
            ExpiringSet::<T>::join(b@, c@),
        ),
{
    join_with_associative(a@, b@, c@, |x: i64, y: i64| later(x, y));
}

/// A second cleanup at the same time changes nothing.
pub proof fn cleanup_idempotent<T: Ordered>(a: ExpiringSet<T>, now: i64)
    ensures
        ExpiringSet::<T>::purge(ExpiringSet::<T>::purge(a@, now), now) == ExpiringSet::<T>::purge(
            a@,
            now,
        ),
{
    keep_where_idempotent(a@, |e: i64| e > now);
}

/// Inserting the entries of an ascending list into an empty set gives the map
/// that the list stands for.
pub proof fn put_all_ascending<T: Ordered>(s: Seq<(T::V, i64)>)
    requires
        ascending::<T, i64>(s),
    ensures
        put_all(Map::<T::V, i64>::empty(), s) == to_map(s),
    decreases s.len(),
{
    if s.len() == 0 {
        assert(to_map(s) =~= Map::empty());
    } else {
        let i = s.len() - 1;
        to_map_take::<T, i64>(s, i);
        assert(s.take(i) =~= s.drop_last());
        assert(s.take(i + 1) =~= s);
        put_all_ascending::<T>(s.drop_last());
    }
}

/// Writing a set out and reading it back gives the same state, and two sets
/// in the same state write out the same list.
pub proof fn snapshot_round_trip<T: Ordered>(a: ExpiringSet<T>, b: ExpiringSet<T>)
    requires
        a.wf(),
        b.wf(),
        b@ == put_all(Map::<T::V, i64>::empty(), a.listing()),
    ensures
        b@ == a@,
        b.listing() == a.listing(),
{
    a.listing_agrees();
    b.listing_agrees();
    put_all_ascending::<T>(a.listing());
    to_map_injective::<T, i64>(a.listing(), b.listing());
}

} // verus!
