//! A set that only grows: a value that was inserted stays for good.

use crate::crdt::Crdt;
use crate::error::MergeError;
use crate::order::Ordered;
use crate::sorted_map::{ascending, to_map, to_map_injective, to_map_take, SortedMap};
use vstd::prelude::*;

verus! {

/// A set of values without removal.
pub struct GrowOnlySet<T: Ordered> {
    entries: SortedMap<T, ()>,
}

impl<T: Ordered> View for GrowOnlySet<T> {
    type V = Set<T::V>;

    /// The members.
    closed spec fn view(&self) -> Set<T::V> {
        self.entries@.dom()
    }
}

/// The members of a list of values.
pub open spec fn members_of<A>(s: Seq<A>) -> Set<A> {
    Set::new(|v: A| s.contains(v))
}

/// The views of a list of stored values.
pub open spec fn value_views<T: View>(s: Seq<T>) -> Seq<T::V> {
    Seq::new(s.len(), |i: int| s[i]@)
}

/// The values of `s` ascend strictly from front to back.
pub open spec fn values_ascending<T: Ordered>(s: Seq<T::V>) -> bool {
    forall|i: int, j: int| 0 <= i < j < s.len() ==> T::lt(#[trigger] s[i], #[trigger] s[j])
}

impl<T: Ordered> GrowOnlySet<T> {
    /// The members in ascending order.
    pub closed spec fn listing(&self) -> Seq<T::V> {
        Seq::new(self.entries.listing().len(), |i: int| self.entries.listing()[i].0)
    }

    /// The stored form is canonical: the members ascend strictly.
    #[verifier::type_invariant]
    pub closed spec fn wf(&self) -> bool {
        self.entries.wf()
    }

    /// The listing of a well-formed set is ascending and holds its members.
    pub proof fn listing_agrees(&self)
        requires
            self.wf(),
        ensures
            values_ascending::<T>(self.listing()),
            members_of(self.listing()) == self@,
            self@.finite(),
            self@.len() == self.listing().len(),
    {
        self.entries.listing_agrees();
        let l = self.entries.listing();
        let s = self.listing();
        assert forall|i: int, j: int| 0 <= i < j < s.len() implies T::lt(
            #[trigger] s[i],
            #[trigger] s[j],
        ) by {
            assert(T::lt(l[i].0, l[j].0));
        }
        assert forall|v: T::V| members_of(s).contains(v) <==> self@.contains(v) by {
            if s.contains(v) {
                let i = choose|i: int| 0 <= i < s.len() && s[i] == v;
                assert(l[i].0 == v);
            }
            if self@.contains(v) {
                let i = crate::sorted_map::index_of(l, v);
                assert(s[i] == v);
            }
        }
        assert(members_of(s) =~= self@);
    }

    /// An empty set.
    pub fn new() -> (r: Self)
        ensures
            r@ == Set::<T::V>::empty(),
    {
        let entries = SortedMap::new();
        proof {
            use_type_invariant(&entries);
            assert(entries@.dom() =~= Set::empty());
        }
        GrowOnlySet { entries }
    }

    /// The number of members.
    pub fn len(&self) -> (n: usize)
        ensures
            self@.finite(),
            n == self@.len(),
    {
        self.entries.len()
    }

    /// Whether the set has no member.
    pub fn is_empty(&self) -> (r: bool)
        ensures
            r == (self@ == Set::<T::V>::empty()),
    {
        let n = self.entries.len();
        proof {
            if n == 0 {
                assert(self@ =~= Set::empty());
            } else {
                assert(self@.len() != Set::<T::V>::empty().len());
            }
        }
        n == 0
    }

    /// Adds `value`.
    pub fn insert(&mut self, value: T)
        ensures
            final(self)@ == old(self)@.insert(value@),
    {
        let mut entries = SortedMap::new();
        core::mem::swap(&mut entries, &mut self.entries);
        let ghost m = entries@;
        let (found, _) = entries.locate(&value);
        if !found {
            entries.insert(value, ());
        }
        proof {
            use_type_invariant(&entries);
            assert(entries@.dom() =~= m.dom().insert(value@));
        }
        self.entries = entries;
    }

    /// Whether `value` is a member.
    pub fn contains(&self, value: &T) -> (r: bool)
        ensures
            r == self@.contains(value@),
    {
        self.entries.contains_key(value)
    }

    /// The members in ascending order: the full state of the set.
    pub fn members(&self) -> (r: Vec<T>)
        ensures
            value_views(r@) == self.listing(),
            values_ascending::<T>(value_views(r@)),
            members_of(value_views(r@)) == self@,
    {
        proof {
            use_type_invariant(self);
            self.listing_agrees();
        }
        let n = self.entries.len();
        let mut r: Vec<T> = Vec::new();
        let mut i: usize = 0;
        while i < n
            invariant
                n == self.entries.listing().len(),
                n == self.listing().len(),
                i <= n,
                r@.len() == i,
                value_views(r@) == self.listing().take(i as int),
            decreases n - i,
        {
            let (k, _) = self.entries.entry(i);
            let ghost pre = r@;
            r.push(k.duplicate());
            proof {
                let l = self.listing();
                assert forall|j: int| 0 <= j < i + 1 implies value_views(r@)[j] == l.take(i + 1)[j] by {
                    if j < i {
                        assert(value_views(r@)[j] == value_views(pre)[j]);
                        assert(l.take(i as int)[j] == l[j]);
                    }
                }
                assert(value_views(r@) =~= l.take(i + 1));
            }
            i += 1;
        }
        proof {
            assert(self.listing().take(n as int) =~= self.listing());
        }
        r
    }

    /// The set of the given values.
    pub fn from_members(members: Vec<T>) -> (r: Self)
        ensures
            r@ == members_of(value_views(members@)),
    {
        let mut r = Self::new();
        let n = members.len();
        let mut i: usize = 0;
        proof {
            assert(members_of(value_views(members@).take(0)) =~= Set::<T::V>::empty());
        }
        while i < n
            invariant
                n == members@.len(),
                i <= n,
                r@ == members_of(value_views(members@).take(i as int)),
            decreases n - i,
        {
            let v = members[i].duplicate();
            r.insert(v);
            proof {
                let s = value_views(members@);
                let a = s.take(i as int);
                let b = s.take(i + 1);
                assert forall|x: T::V| members_of(b).contains(x) <==> members_of(a).insert(
                    s[i as int],
                ).contains(x) by {
                    if b.contains(x) {
                        let j = choose|j: int| 0 <= j < b.len() && b[j] == x;
                        if j < i {
                            assert(a[j] == x);
                        }
                    }
                    if a.contains(x) {
                        let j = choose|j: int| 0 <= j < a.len() && a[j] == x;
                        assert(b[j] == x);
                    }
                    if x == s[i as int] {
                        assert(b[i as int] == x);
                    }
                }
                assert(members_of(b) =~= members_of(a).insert(s[i as int]));
            }
            i += 1;
        }
        proof {
            assert(value_views(members@).take(n as int) =~= value_views(members@));
        }
        r
    }
}

impl<T: Ordered> Default for GrowOnlySet<T> {
    /// An empty set.
    fn default() -> (r: Self)
        ensures
            r@ == Set::<T::V>::empty(),
    {
        Self::new()
    }
}

impl<T: Ordered> Crdt for GrowOnlySet<T> {
    /// Two grow-only sets can always be merged.
    open spec fn mergeable(a: Set<T::V>, b: Set<T::V>) -> bool {
        true
    }

    /// The union of the two sets.
    open spec fn join(a: Set<T::V>, b: Set<T::V>) -> Set<T::V> {
        a.union(b)
    }

    /// A grow-only set loses nothing.
    open spec fn purge(a: Set<T::V>, now: i64) -> Set<T::V> {
        a
    }

    fn merge(&mut self, other: &Self) -> (r: Result<(), MergeError>) {
        proof {
            use_type_invariant(&other.entries);
            other.entries.listing_agrees();
        }
        let ghost a = self@;
        let ghost s = other.entries.listing();
        let n = other.entries.len();
        let mut i: usize = 0;
        proof {
            assert(to_map(s.take(0)).dom() =~= Set::empty());
            assert(a.union(Set::empty()) =~= a);
        }
        while i < n
            invariant
                s == other.entries.listing(),
                ascending::<T, ()>(s),
                n == s.len(),
                i <= n,
                self@ == a.union(to_map(s.take(i as int)).dom()),
            decreases n - i,
        {
            let (k, _) = other.entries.entry(i);
            proof {
                to_map_take::<T, ()>(s, i as int);
            }
            if !self.contains(k) {
                self.insert(k.duplicate());
            }
            proof {
                assert(self@ =~= a.union(to_map(s.take(i + 1)).dom()));
            }
            i += 1;
        }
        proof {
            assert(s.take(n as int) =~= s);
        }
        Ok(())
    }

    fn cleanup(&mut self, now: i64) {
    }
}

/// Merging a set with itself changes nothing.
pub proof fn merge_idempotent<T: Ordered>(a: GrowOnlySet<T>)
    ensures
        GrowOnlySet::<T>::join(a@, a@) == a@,
{
    assert(a@.union(a@) =~= a@);
}

/// Merging two sets gives the same state in either direction.
pub proof fn merge_commutative<T: Ordered>(a: GrowOnlySet<T>, b: GrowOnlySet<T>)
    ensures
        GrowOnlySet::<T>::join(a@, b@) == GrowOnlySet::<T>::join(b@, a@),
{
    assert(a@.union(b@) =~= b@.union(a@));
}

/// Merging three sets gives the same state in either grouping.
pub proof fn merge_associative<T: Ordered>(a: GrowOnlySet<T>, b: GrowOnlySet<T>, c: GrowOnlySet<T>)
    ensures
        GrowOnlySet::<T>::join(GrowOnlySet::<T>::join(a@, b@), c@) == GrowOnlySet::<T>::join(
            a@,
            GrowOnlySet::<T>::join(b@, c@),
        ),
{
    assert(a@.union(b@).union(c@) =~= a@.union(b@.union(c@)));
}

/// A merge never removes a member.
pub proof fn merge_grows<T: Ordered>(a: GrowOnlySet<T>, b: GrowOnlySet<T>)
    ensures
        a@.subset_of(GrowOnlySet::<T>::join(a@, b@)),
        b@.subset_of(GrowOnlySet::<T>::join(a@, b@)),
{
}

/// A second cleanup at the same time changes nothing.
pub proof fn cleanup_idempotent<T: Ordered>(a: GrowOnlySet<T>, now: i64)
    ensures
        GrowOnlySet::<T>::purge(GrowOnlySet::<T>::purge(a@, now), now) == GrowOnlySet::<T>::purge(
            a@,
            now,
        ),
{
}

/// Writing a set out and reading it back gives the same state, and two sets
/// in the same state write out the same list.
pub proof fn snapshot_round_trip<T: Ordered>(a: GrowOnlySet<T>, b: GrowOnlySet<T>)
    requires
        a.wf(),
        b.wf(),
        b@ == members_of(a.listing()),
    ensures
        b@ == a@,
        b.listing() == a.listing(),
{
    a.listing_agrees();
    b.listing_agrees();
    a.entries.listing_agrees();
    b.entries.listing_agrees();
    let la = a.entries.listing();
    let lb = b.entries.listing();
    assert(to_map(la) =~= to_map(lb));
    to_map_injective::<T, ()>(la, lb);
}

} // verus!
