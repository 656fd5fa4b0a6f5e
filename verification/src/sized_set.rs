//! A set with a fixed capacity whose members each carry the time of their
//! first write and an expiry bound.
//!
//! When more values compete than the capacity admits, the earliest writers
//! stay. A cleanup removes the members whose bound has lapsed and so makes
//! room for later inserts.

use crate::crdt::Crdt;
use crate::error::MergeError;
use crate::maps::{
    join_with,
    join_with_associative,
    join_with_commutative,
    join_with_empty,
    join_with_idempotent,
    join_with_step,
    keep_where,
    keep_where_idempotent,
};
use crate::order::Ordered;
use crate::ranking::{
    ahead,
    ahead_bounded,
    best,
    best_drops_worst,
    best_is_full,
    best_len,
    best_of_few,
    best_of_none,
    outranks,
    outranks_connected,
    outranks_transitive,
    ranks_worst,
    survives,
};
use crate::sorted_map::{
    ascending,
    to_map,
    to_map_injective,
    to_map_len,
    to_map_take,
    views,
    Keep,
    SortedMap,
};
use vstd::prelude::*;
use vstd::set_lib::lemma_len_subset;

verus! {

/// The state of a sized set: its capacity, and for each member the time at
/// which it was written and the time at which it expires, in this order.
#[verifier::reject_recursive_types(A)]
pub struct SizedState<A> {
    pub capacity: nat,
    pub entries: Map<A, (i64, i64)>,
}

/// Of two stamps of one value, the one that a merge keeps: the earlier write,
/// and of two writes at the same time the one that expires later.
pub open spec fn fresher(x: (i64, i64), y: (i64, i64)) -> (i64, i64) {
    if x.0 < y.0 || (x.0 == y.0 && x.1 >= y.1) {
        x
    } else {
        y
    }
}

/// The entries of both maps, with one stamp for each value.
pub open spec fn pooled<A>(a: Map<A, (i64, i64)>, b: Map<A, (i64, i64)>) -> Map<A, (i64, i64)> {
    join_with(a, b, |x: (i64, i64), y: (i64, i64)| fresher(x, y))
}

/// The map `m` after a write of `k` at `now`: a value that `m` holds from an
/// earlier or equal time keeps its stamp, any other value gets the new one.
pub open spec fn refreshed<A>(m: Map<A, (i64, i64)>, k: A, now: i64, expires: i64) -> Map<
    A,
    (i64, i64),
> {
    if m.contains_key(k) && m[k].0 <= now {
        m
    } else {
        m.insert(k, (now, expires))
    }
}

/// The entries of a set of capacity `n` after `k` was inserted at `now`.
pub open spec fn placed<T: Ordered>(
    m: Map<T::V, (i64, i64)>,
    n: nat,
    k: T::V,
    now: i64,
    expires: i64,
) -> Map<T::V, (i64, i64)> {
    best::<T>(refreshed(m, k, now, expires), n)
}

/// The entries of a set of capacity `n` after the entries of `s` were
/// inserted one after the other.
pub open spec fn placed_all<T: Ordered>(
    m: Map<T::V, (i64, i64)>,
    n: nat,
    s: Seq<(T::V, (i64, i64))>,
) -> Map<T::V, (i64, i64)>
    decreases s.len(),
{
    if s.len() == 0 {
        m
    } else {
        placed::<T>(placed_all::<T>(m, n, s.drop_last()), n, s.last().0, s.last().1.0, s.last().1.1)
    }
}

/// The test that a cleanup at `now` applies to a stamp.
pub struct StampLiveAfter {
    pub now: i64,
}

impl Keep<(i64, i64)> for StampLiveAfter {
    open spec fn keeps(&self, v: (i64, i64)) -> bool {
        v.1 > self.now
    }

    fn test(&self, v: &(i64, i64)) -> (r: bool) {
        v.1 > self.now
    }
}

/// The position of the worst-ranked entry: the last of those that were
/// written latest.
fn worst_position<T: Ordered>(entries: &SortedMap<T, (i64, i64)>) -> (w: usize)
    requires
        entries.listing().len() > 0,
    ensures
        w < entries.listing().len(),
        ranks_worst::<T>(entries@, entries.listing()[w as int].0),
{
    proof {
        use_type_invariant(entries);
        entries.listing_agrees();
    }
    let ghost l = entries.listing();
    let n = entries.len();
    let mut w: usize = 0;
    let mut latest: i64 = entries.entry(0).1.0;
    let mut i: usize = 1;
    while i < n
        invariant
            l == entries.listing(),
            ascending::<T, (i64, i64)>(l),
            n == l.len(),
            w < i <= n,
            latest == l[w as int].1.0,
            forall|j: int|
                0 <= j < i && j != w ==> outranks::<T>(
                    (#[trigger] l[j]).0,
                    l[j].1.0,
                    l[w as int].0,
                    l[w as int].1.0,
                ),
        decreases n - i,
    {
        let written = entries.entry(i).1.0;
        if latest <= written {
            proof {
                assert forall|j: int| 0 <= j < i + 1 && j != i implies outranks::<T>(
                    (#[trigger] l[j]).0,
                    l[j].1.0,
                    l[i as int].0,
                    l[i as int].1.0,
                ) by {
                    if j != w {
                        outranks_transitive::<T>(
                            l[j].0,
                            l[j].1.0,
                            l[w as int].0,
                            l[w as int].1.0,
                            l[i as int].0,
                            l[i as int].1.0,
                        );
                    }
                }
            }
            w = i;
            latest = written;
        }
        i += 1;
    }
    proof {
        let m = entries@;
        let kw = l[w as int].0;
        assert forall|j: T::V| #[trigger] m.contains_key(j) && j != kw implies outranks::<T>(
            j,
            m[j].0,
            kw,
            m[kw].0,
        ) by {
            let at = crate::sorted_map::index_of(l, j);
            assert(l[at].0 == j);
        }
    }
    w
}

/// A set of at most `capacity` values, each with the time of its first write
/// and the time at which it expires.
pub struct SizedFWWExpiringSet<T: Ordered> {
    entries: SortedMap<T, (i64, i64)>,
    capacity: usize,
}

impl<T: Ordered> View for SizedFWWExpiringSet<T> {
    type V = SizedState<T::V>;

    closed spec fn view(&self) -> SizedState<T::V> {
        SizedState { capacity: self.capacity as nat, entries: self.entries@ }
    }
}

impl<T: Ordered> SizedFWWExpiringSet<T> {
    /// The members with their stamps, in ascending order of the members.
    pub closed spec fn listing(&self) -> Seq<(T::V, (i64, i64))> {
        self.entries.listing()
    }

    /// The members ascend strictly and are no more than the capacity admits.
    #[verifier::type_invariant]
    pub closed spec fn wf(&self) -> bool {
        &&& self.entries.wf()
        &&& self.entries.listing().len() <= self.capacity
    }

    /// The listing of a well-formed set is ascending and stands for its
    /// entries, which are no more than the capacity admits.
    pub proof fn listing_agrees(&self)
        requires
            self.wf(),
        ensures
            ascending::<T, (i64, i64)>(self.listing()),
            to_map(self.listing()) == self@.entries,
            self@.entries.dom().finite(),
            self@.entries.len() == self.listing().len(),
            self@.entries.len() <= self@.capacity,
    {
        self.entries.listing_agrees();
    }

    /// An empty set that admits `capacity` members.
    pub fn new(capacity: usize) -> (r: Self)
        ensures
            r@.capacity == capacity,
            r@.entries == Map::<T::V, (i64, i64)>::empty(),
    {
        let entries = SortedMap::new();
        proof {
            use_type_invariant(&entries);
        }
        SizedFWWExpiringSet { entries, capacity }
    }

    /// The number of members that the set admits.
    pub fn capacity(&self) -> (n: usize)
        ensures
            n == self@.capacity,
    {
        self.capacity
    }

    /// The number of members.
    pub fn len(&self) -> (n: usize)
        ensures
            self@.entries.dom().finite(),
            n == self@.entries.len(),
            n <= self@.capacity,
    {
        proof {
            use_type_invariant(self);
        }
        self.entries.len()
    }

    /// Whether the set has no member.
    pub fn is_empty(&self) -> (r: bool)
        ensures
            r == (self@.entries == Map::<T::V, (i64, i64)>::empty()),
    {
        let n = self.entries.len();
        proof {
            if n == 0 {
                assert(self@.entries =~= Map::empty());
            }
        }
        n == 0
    }

    /// Whether `value` is a member.
    pub fn contains(&self, value: &T) -> (r: bool)
        ensures
            r == self@.entries.contains_key(value@),
    {
        self.entries.contains_key(value)
    }

    /// The time at which `value` was written and the time at which it
    /// expires, if it is a member.
    pub fn stamp(&self, value: &T) -> (r: Option<(i64, i64)>)
        ensures
            r == if self@.entries.contains_key(value@) {
                Some(self@.entries[value@])
            } else {
                None
            },
    {
        match self.entries.get(value) {
            Some(s) => Some(*s),
            None => None,
        }
    }

    /// Writes `value` at `now` with bound `expires`. A member is refreshed
    /// only by an earlier write. A new value is admitted while there is room;
    /// in a full set it takes the place of the worst-ranked member if it
    /// outranks that member, and is dropped if it does not.
    pub fn insert(&mut self, value: T, now: i64, expires: i64)
        ensures
            final(self)@.capacity == old(self)@.capacity,
            final(self)@.entries == placed::<T>(
                old(self)@.entries,
                old(self)@.capacity,
                value@,
                now,
                expires,
            ),
            final(self)@.entries.dom().finite(),
            final(self)@.entries.len() <= final(self)@.capacity,
    {
        proof {
            use_type_invariant(&*self);
        }
        let mut entries = SortedMap::new();
        core::mem::swap(&mut entries, &mut self.entries);
        proof {
            use_type_invariant(&entries);
            entries.listing_agrees();
        }
        let ghost m = entries@;
        let ghost n = self.capacity as nat;
        let ghost target = refreshed(m, value@, now, expires);
        let (found, at) = entries.locate(&value);
        let count = entries.len();
        if found {
            let written = entries.entry(at).1.0;
            if now < written {
                entries.set_value(at, (now, expires));
            }
            proof {
                assert(target.dom() =~= m.dom());
                best_of_few::<T>(target, n);
            }
        } else if count < self.capacity {
            entries.insert(value, (now, expires));
            proof {
                best_of_few::<T>(target, n);
            }
        } else if count > 0 {
            let w = worst_position(&entries);
            let (worst, stamp) = entries.entry(w);
            let ghost kw = worst@;
            let ghost ww = stamp.0;
            if now < stamp.0 || (now == stamp.0 && value.sorts_before(worst)) {
                proof {
                    assert forall|j: T::V| #[trigger]
                        target.contains_key(j) && j != kw implies outranks::<T>(
                        j,
                        target[j].0,
                        kw,
                        target[kw].0,
                    ) by {}
                    best_drops_worst::<T>(target, n, kw);
                    best_of_few::<T>(target.remove(kw), n);
                }
                entries.remove_at(w);
                entries.insert(value, (now, expires));
                proof {
                    assert(entries@ =~= target.remove(kw));
                }
            } else {
                proof {
                    outranks_connected::<T>(value@, now, kw, ww);
                    assert forall|j: T::V| #[trigger]
                        target.contains_key(j) && j != value@ implies outranks::<T>(
                        j,
                        target[j].0,
                        value@,
                        target[value@].0,
                    ) by {
                        if j != kw {
                            outranks_transitive::<T>(j, m[j].0, kw, ww, value@, now);
                        }
                    }
                    best_drops_worst::<T>(target, n, value@);
                    assert(target.remove(value@) =~= m);
                    best_of_few::<T>(m, n);
                }
            }
        } else {
            proof {
                best_of_none::<T>(target);
                assert(m =~= Map::empty());
            }
        }
        proof {
            use_type_invariant(&entries);
            entries.listing_agrees();
        }
        self.entries = entries;
    }

    /// The members with their stamps, in ascending order of the members.
    /// Together with the capacity this is the full state of the set.
    pub fn entries(&self) -> (r: Vec<(T, (i64, i64))>)
        ensures
            views(r@) == self.listing(),
            ascending::<T, (i64, i64)>(views(r@)),
            to_map(views(r@)) == self@.entries,
    {
        proof {
            use_type_invariant(&self.entries);
            self.entries.listing_agrees();
        }
        let n = self.entries.len();
        let mut r: Vec<(T, (i64, i64))> = Vec::new();
        let mut i: usize = 0;
        while i < n
            invariant
                n == self.entries.listing().len(),
                i <= n,
                r@.len() == i,
                views(r@) == self.entries.listing().take(i as int),
            decreases n - i,
        {
            let (k, stamp) = self.entries.entry(i);
            let ghost pre = r@;
            r.push((k.duplicate(), *stamp));
            proof {
                let l = self.entries.listing();
                assert(stamp@ == *stamp);
                assert forall|j: int| 0 <= j < i + 1 implies views(r@)[j] == l.take(i + 1)[j] by {
                    if j < i {
                        assert(views(r@)[j] == views(pre)[j]);
                        assert(l.take(i as int)[j] == l[j]);
                    }
                }
                assert(views(r@) =~= l.take(i + 1));
            }
            i += 1;
        }
        proof {
            assert(self.entries.listing().take(n as int) =~= self.entries.listing());
        }
        r
    }

    /// The set of the given capacity that results from inserting the given
    /// entries, in their order, into an empty set.
    pub fn from_entries(capacity: usize, entries: Vec<(T, (i64, i64))>) -> (r: Self)
        ensures
            r@.capacity == capacity,
            r@.entries == placed_all::<T>(
                Map::<T::V, (i64, i64)>::empty(),
                capacity as nat,
                views(entries@),
            ),
    {
        let mut r = Self::new(capacity);
        let n = entries.len();
        let mut i: usize = 0;
        while i < n
            invariant
                n == entries@.len(),
                i <= n,
                r@.capacity == capacity,
                r@.entries == placed_all::<T>(
                    Map::<T::V, (i64, i64)>::empty(),
                    capacity as nat,
                    views(entries@).take(i as int),
                ),
            decreases n - i,
        {
            let k = entries[i].0.duplicate();
            let stamp = entries[i].1;
            r.insert(k, stamp.0, stamp.1);
            proof {
                let s = views(entries@);
                assert(stamp@ == stamp);
                assert(s.take(i + 1).drop_last() =~= s.take(i as int));
                assert(s.take(i + 1).last() == (k@, stamp));
            }
            i += 1;
        }
        proof {
            assert(views(entries@).take(n as int) =~= views(entries@));
        }
        r
    }
}

impl<T: Ordered> Crdt for SizedFWWExpiringSet<T> {
    /// Two sized sets can be merged when they have the same capacity.
    open spec fn mergeable(a: SizedState<T::V>, b: SizedState<T::V>) -> bool {
        a.capacity == b.capacity
    }

    /// The best entries of both sets, as many as the capacity admits.
    open spec fn join(a: SizedState<T::V>, b: SizedState<T::V>) -> SizedState<T::V> {
        SizedState {
            capacity: a.capacity,
            entries: best::<T>(pooled(a.entries, b.entries), a.capacity),
        }
    }

    /// The members whose bound is later than `now`.
    open spec fn purge(a: SizedState<T::V>, now: i64) -> SizedState<T::V> {
        SizedState {
            capacity: a.capacity,
            entries: keep_where(a.entries, |s: (i64, i64)| s.1 > now),
        }
    }

    fn merge(&mut self, other: &Self) -> (r: Result<(), MergeError>)
        ensures
            final(self)@.entries.dom().finite(),
            final(self)@.entries.len() <= final(self)@.capacity,
    {
        proof {
            use_type_invariant(&*self);
            self.entries.listing_agrees();
        }
        if self.capacity != other.capacity {
            return Err(MergeError::IncompatibleConfiguration);
        }
        proof {
            use_type_invariant(&other.entries);
            other.entries.listing_agrees();
        }
        let mut entries = SortedMap::new();
        core::mem::swap(&mut entries, &mut self.entries);
        let ghost a = entries@;
        let ghost s = other.entries.listing();
        let ghost cap = self.capacity as nat;
        let n = other.entries.len();
        let mut i: usize = 0;
        proof {
            assert(to_map(s.take(0)) =~= Map::empty());
            join_with_empty(a, |x: (i64, i64), y: (i64, i64)| fresher(x, y));
        }
        while i < n
            invariant
                s == other.entries.listing(),
                ascending::<T, (i64, i64)>(s),
                n == s.len(),
                i <= n,
                entries@ == pooled(a, to_map(s.take(i as int))),
            decreases n - i,
        {
            let (k, theirs) = other.entries.entry(i);
            proof {
                assert(theirs@ == *theirs);
                to_map_take::<T, (i64, i64)>(s, i as int);
                join_with_step(
                    a,
                    to_map(s.take(i as int)),
                    k@,
                    *theirs,
                    |x: (i64, i64), y: (i64, i64)| fresher(x, y),
                );
            }
            let ghost before = entries@;
            let (found, at) = entries.locate(k);
            if found {
                let ours = *entries.entry(at).1;
                if theirs.0 < ours.0 || (theirs.0 == ours.0 && theirs.1 > ours.1) {
                    entries.set_value(at, *theirs);
                } else {
                    assert(before =~= before.insert(k@, ours));
                }
            } else {
                entries.insert(k.duplicate(), *theirs);
            }
            proof {
                assert(entries@ =~= pooled(a, to_map(s.take(i + 1))));
            }
            i += 1;
        }
        proof {
            assert(s.take(n as int) =~= s);
        }
        let ghost pool = entries@;
        let mut count = entries.len();
        while count > self.capacity
            invariant
                cap == self.capacity,
                count == entries.listing().len(),
                count == entries@.len(),
                entries@.dom().finite(),
                best::<T>(entries@, cap) == best::<T>(pool, cap),
            decreases count,
        {
            let w = worst_position(&entries);
            proof {
                best_drops_worst::<T>(entries@, cap, entries.listing()[w as int].0);
            }
            entries.remove_at(w);
            count = entries.len();
        }
        proof {
            best_of_few::<T>(entries@, cap);
            use_type_invariant(&entries);
        }
        self.entries = entries;
        Ok(())
    }

    fn cleanup(&mut self, now: i64)
        ensures
            final(self)@.entries.dom().finite(),
            final(self)@.entries.len() <= final(self)@.capacity,
    {
        proof {
            use_type_invariant(&*self);
        }
        let live = StampLiveAfter { now };
        let mut entries = SortedMap::new();
        core::mem::swap(&mut entries, &mut self.entries);
        let ghost m = entries@;
        let before = entries.len();
        entries.retain(&live);
        let after = entries.len();
        proof {
            use_type_invariant(&entries);
            assert(entries@ =~= keep_where(m, |s: (i64, i64)| s.1 > now));
            lemma_len_subset(entries@.dom(), m.dom());
        }
        self.entries = entries;
    }
}

/// What an insert does, case by case. A member takes the new stamp if the
/// write is earlier than its own. A new value is added while there is room.
/// In a full set it takes the place of the worst-ranked member `w` if it
/// outranks that member, and changes nothing if it does not.
pub proof fn placed_by_cases<T: Ordered>(
    m: Map<T::V, (i64, i64)>,
    n: nat,
    k: T::V,
    now: i64,
    expires: i64,
    w: T::V,
)
    requires
        m.dom().finite(),
        m.len() <= n,
        m.len() == n && n > 0 ==> ranks_worst::<T>(m, w),
    ensures
        placed::<T>(m, n, k, now, expires) == if m.contains_key(k) {
            if now < m[k].0 {
                m.insert(k, (now, expires))
            } else {
                m
            }
        } else if m.len() < n {
            m.insert(k, (now, expires))
        } else if n > 0 && outranks::<T>(k, now, w, m[w].0) {
            m.remove(w).insert(k, (now, expires))
        } else {
            m
        },
{
    let target = refreshed(m, k, now, expires);
    if m.contains_key(k) {
        assert(target.dom() =~= m.dom());
        best_of_few::<T>(target, n);
    } else if m.len() < n {
        best_of_few::<T>(target, n);
    } else if n == 0 {
        best_of_none::<T>(target);
        assert(m =~= Map::empty());
    } else if outranks::<T>(k, now, w, m[w].0) {
        assert(ranks_worst::<T>(target, w));
        best_drops_worst::<T>(target, n, w);
        best_of_few::<T>(target.remove(w), n);
        assert(target.remove(w) =~= m.remove(w).insert(k, (now, expires)));
    } else {
        outranks_connected::<T>(k, now, w, m[w].0);
        assert forall|j: T::V| #[trigger]
            target.contains_key(j) && j != k implies outranks::<T>(
            j,
            target[j].0,
            k,
            target[k].0,
        ) by {
            if j != w {
                outranks_transitive::<T>(j, m[j].0, w, m[w].0, k, now);
            }
        }
        best_drops_worst::<T>(target, n, k);
        assert(target.remove(k) =~= m);
        best_of_few::<T>(m, n);
    }
}

/// Of two stamps the fresher one does not depend on the order or the grouping
/// in which stamps are compared.
pub proof fn fresher_is_a_semilattice()
    ensures
        forall|x: (i64, i64)| #[trigger] fresher(x, x) == x,
        forall|x: (i64, i64), y: (i64, i64)| #[trigger] fresher(x, y) == fresher(y, x),
        forall|x: (i64, i64), y: (i64, i64), z: (i64, i64)| #[trigger]
            fresher(fresher(x, y), z) == fresher(x, fresher(y, z)),
{
}

/// Merging a set with itself changes nothing.
pub proof fn merge_idempotent<T: Ordered>(a: SizedFWWExpiringSet<T>)
    requires
        a.wf(),
    ensures
        SizedFWWExpiringSet::<T>::join(a@, a@) == a@,
{
    a.listing_agrees();
    fresher_is_a_semilattice();
    join_with_idempotent(a@.entries, |x: (i64, i64), y: (i64, i64)| fresher(x, y));
    best_of_few::<T>(a@.entries, a@.capacity);
}

/// Merging two sets of one capacity gives the same state in either
/// direction.
pub proof fn merge_commutative<T: Ordered>(a: SizedFWWExpiringSet<T>, b: SizedFWWExpiringSet<T>)
    requires
        SizedFWWExpiringSet::<T>::mergeable(a@, b@),
    ensures
        SizedFWWExpiringSet::<T>::join(a@, b@) == SizedFWWExpiringSet::<T>::join(b@, a@),
{
    fresher_is_a_semilattice();
    join_with_commutative(a@.entries, b@.entries, |x: (i64, i64), y: (i64, i64)| fresher(x, y));
}

/// A second cleanup at the same time changes nothing.
pub proof fn cleanup_idempotent<T: Ordered>(a: SizedFWWExpiringSet<T>, now: i64)
    ensures
        SizedFWWExpiringSet::<T>::purge(SizedFWWExpiringSet::<T>::purge(a@, now), now)
            == SizedFWWExpiringSet::<T>::purge(a@, now),
{
    keep_where_idempotent(a@.entries, |s: (i64, i64)| s.1 > now);
}

/// Inserting the entries of an ascending list that the capacity admits into
/// an empty set gives the map that the list stands for.
pub proof fn placed_all_ascending<T: Ordered>(n: nat, s: Seq<(T::V, (i64, i64))>)
    requires
        ascending::<T, (i64, i64)>(s),
        s.len() <= n,
    ensures
        placed_all::<T>(Map::<T::V, (i64, i64)>::empty(), n, s) == to_map(s),
    decreases s.len(),
{
    if s.len() == 0 {
        assert(to_map(s) =~= Map::empty());
    } else {
        let i = s.len() - 1;
        to_map_take::<T, (i64, i64)>(s, i);
        assert(s.take(i) =~= s.drop_last());
        assert(s.take(i + 1) =~= s);
        placed_all_ascending::<T>(n, s.drop_last());
        to_map_len::<T, (i64, i64)>(s);
        best_of_few::<T>(to_map(s), n);
    }
}

/// Writing a set out and reading it back gives the same state, and two sets
/// in the same state write out the same list.
pub proof fn snapshot_round_trip<T: Ordered>(a: SizedFWWExpiringSet<T>, b: SizedFWWExpiringSet<T>)
    requires
        a.wf(),
        b.wf(),
        b@.capacity == a@.capacity,
        b@.entries == placed_all::<T>(
            Map::<T::V, (i64, i64)>::empty(),
            a@.capacity,
            a.listing(),
        ),
    ensures
        b@ == a@,
        b.listing() == a.listing(),
{
    a.listing_agrees();
    b.listing_agrees();
    placed_all_ascending::<T>(a@.capacity, a.listing());
    to_map_injective::<T, (i64, i64)>(a.listing(), b.listing());
}

/// Choosing the best entries of one map before pooling it with another does
/// not change which entries are the best of the pool.
pub proof fn best_absorbs<T: Ordered>(
    x: Map<T::V, (i64, i64)>,
    y: Map<T::V, (i64, i64)>,
    n: nat,
)
    requires
        x.dom().finite(),
        y.dom().finite(),
    ensures
        best::<T>(pooled(best::<T>(x, n), y), n) == best::<T>(pooled(x, y), n),
{
    let t = best::<T>(x, n);
    let p = pooled(t, y);
    let q = pooled(x, y);
    best_len::<T>(x, n);
    assert(p.dom() =~= t.dom().union(y.dom()));
    assert(q.dom() =~= x.dom().union(y.dom()));
    // An entry of the pool that the narrowed pool lacks, or holds with
    // another stamp, is an entry of `x` that is not among its best.
    assert forall|j: T::V| #[trigger] q.contains_key(j) implies (p.contains_key(j) && p[j] == q[j])
        || (x.contains_key(j) && !survives::<T>(x, n, j) && q[j].0 == x[j].0) by {}
    assert forall|k: T::V| survives::<T>(q, n, k) implies survives::<T>(p, n, k) && p[k]
        == q[k] by {
        ahead_bounded::<T>(q, k);
        if !(p.contains_key(k) && p[k] == q[k]) {
            best_is_full::<T>(x, n, k);
            assert forall|i: T::V| t.dom().contains(i) implies ahead::<T>(q, k).contains(i) by {
                assert(t.contains_key(i));
            }
            lemma_len_subset(t.dom(), ahead::<T>(q, k));
        }
        assert forall|j: T::V| ahead::<T>(p, k).contains(j) implies ahead::<T>(q, k).contains(
            j,
        ) by {}
        lemma_len_subset(ahead::<T>(p, k), ahead::<T>(q, k));
    }
    assert forall|k: T::V| survives::<T>(p, n, k) implies survives::<T>(q, n, k) && p[k]
        == q[k] by {
        ahead_bounded::<T>(p, k);
        assert(q.contains_key(k));
        if p[k] != q[k] {
            best_is_full::<T>(x, n, k);
            assert forall|i: T::V| t.dom().contains(i) implies ahead::<T>(p, k).contains(i) by {
                assert(t.contains_key(i));
            }
            lemma_len_subset(t.dom(), ahead::<T>(p, k));
        }
        assert forall|j: T::V| ahead::<T>(q, k).contains(j) implies ahead::<T>(p, k).contains(
            j,
        ) by {
            if !(p.contains_key(j) && p[j] == q[j]) {
                best_is_full::<T>(x, n, j);
                assert forall|i: T::V| t.dom().contains(i) implies ahead::<T>(p, k).contains(
                    i,
                ) by {
                    assert(t.contains_key(i));
                    outranks_transitive::<T>(i, p[i].0, j, q[j].0, k, q[k].0);
                }
                lemma_len_subset(t.dom(), ahead::<T>(p, k));
            }
        }
        lemma_len_subset(ahead::<T>(q, k), ahead::<T>(p, k));
    }
    assert(best::<T>(p, n) =~= best::<T>(q, n));
}

/// Merging three sets of one capacity gives the same state in either
/// grouping.
pub proof fn merge_associative<T: Ordered>(
    a: SizedFWWExpiringSet<T>,
    b: SizedFWWExpiringSet<T>,
    c: SizedFWWExpiringSet<T>,
)
    requires
        a.wf(),
        b.wf(),
        c.wf(),
        SizedFWWExpiringSet::<T>::mergeable(a@, b@),
        SizedFWWExpiringSet::<T>::mergeable(b@, c@),
    ensures
        SizedFWWExpiringSet::<T>::join(SizedFWWExpiringSet::<T>::join(a@, b@), c@)
            == SizedFWWExpiringSet::<T>::join(a@, SizedFWWExpiringSet::<T>::join(b@, c@)),
{
    a.listing_agrees();
    b.listing_agrees();
    c.listing_agrees();
    let n = a@.capacity;
    let (x, y, z) = (a@.entries, b@.entries, c@.entries);
    let f = |u: (i64, i64), v: (i64, i64)| fresher(u, v);
    fresher_is_a_semilattice();
    assert(pooled(x, y).dom() =~= x.dom().union(y.dom()));
    assert(pooled(y, z).dom() =~= y.dom().union(z.dom()));
    // Left grouping: the best of all three pooled.
    best_absorbs::<T>(pooled(x, y), z, n);
    // Right grouping: the same, read from the other side.
    join_with_commutative(x, best::<T>(pooled(y, z), n), f);
    best_absorbs::<T>(pooled(y, z), x, n);
    join_with_commutative(pooled(y, z), x, f);
    join_with_associative(x, y, z, f);
}

} // verus!
