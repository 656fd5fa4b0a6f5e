//! A map from keys to values in which each entry carries the time of its
//! write, and a policy fixed by the type decides which of two writes of one
//! key survives a merge.

use crate::crdt::Crdt;
use crate::error::MergeError;
use crate::maps::{
    join_with,
    join_with_associative,
    join_with_commutative,
    join_with_empty,
    join_with_idempotent,
    join_with_step,
};
use crate::order::{lt_facts, Ordered};
use crate::sorted_map::{ascending, to_map, to_map_injective, to_map_take, views, SortedMap};
use core::marker::PhantomData;
use vstd::prelude::*;

verus! {

/// The policy of a map: which of two writes of one key survives.
pub trait Mode {
    /// The later write survives. Where this is false the earlier one does.
    spec fn latest_wins() -> bool;

    /// Decides `latest_wins`.
    fn keeps_latest() -> (r: bool)
        ensures
            r == Self::latest_wins(),
    ;
}

/// First writer wins: the earlier write survives, and of two writes at the
/// same time the one whose value sorts first.
pub struct Fww;

/// Last writer wins: the later write survives, and of two writes at the same
/// time the one whose value sorts last.
pub struct Lww;

impl Mode for Fww {
    open spec fn latest_wins() -> bool {
        false
    }

    fn keeps_latest() -> (r: bool) {
        false
    }
}

impl Mode for Lww {
    open spec fn latest_wins() -> bool {
        true
    }

    fn keeps_latest() -> (r: bool) {
        true
    }
}

/// The write `y` takes the place of the write `x` of the same key. A write is
/// a value with the time at which it was written.
pub open spec fn overrides<V: Ordered>(latest: bool, y: (V::V, i64), x: (V::V, i64)) -> bool {
    if latest {
        y.1 > x.1 || (y.1 == x.1 && V::lt(x.0, y.0))
    } else {
        y.1 < x.1 || (y.1 == x.1 && V::lt(y.0, x.0))
    }
}

/// Of two writes of one key, the one that survives.
pub open spec fn resolved<V: Ordered>(latest: bool, x: (V::V, i64), y: (V::V, i64)) -> (
    V::V,
    i64,
) {
    if overrides::<V>(latest, y, x) {
        y
    } else {
        x
    }
}

/// The surviving write does not depend on the order or the grouping in which
/// writes are compared.
pub proof fn resolved_is_a_semilattice<V: Ordered>(latest: bool)
    ensures
        forall|x: (V::V, i64)| #[trigger] resolved::<V>(latest, x, x) == x,
        forall|x: (V::V, i64), y: (V::V, i64)| #[trigger]
            resolved::<V>(latest, x, y) == resolved::<V>(latest, y, x),
        forall|x: (V::V, i64), y: (V::V, i64), z: (V::V, i64)| #[trigger]
            resolved::<V>(latest, resolved::<V>(latest, x, y), z) == resolved::<V>(
                latest,
                x,
                resolved::<V>(latest, y, z),
            ),
{
    assert forall|x: (V::V, i64)| #[trigger] resolved::<V>(latest, x, x) == x by {
        V::lt_irreflexive(x.0);
    }
    assert forall|x: (V::V, i64), y: (V::V, i64)| #[trigger]
        resolved::<V>(latest, x, y) == resolved::<V>(latest, y, x) by {
        lt_facts::<V>(x.0, y.0, y.0);
    }
    assert forall|x: (V::V, i64), y: (V::V, i64), z: (V::V, i64)| #[trigger]
        resolved::<V>(latest, resolved::<V>(latest, x, y), z) == resolved::<V>(
            latest,
            x,
            resolved::<V>(latest, y, z),
        ) by {
        lt_facts::<V>(x.0, y.0, z.0);
    }
}

/// The state `m` after the given entries were inserted one after the other.
pub open spec fn insert_all<A, W>(m: Map<A, W>, s: Seq<(A, W)>) -> Map<A, W>
    decreases s.len(),
{
    if s.len() == 0 {
        m
    } else {
        insert_all(m, s.drop_last()).insert(s.last().0, s.last().1)
    }
}

/// A map from keys to values, each with the time at which it was written.
pub struct CrdtMap<K: Ordered, V: Ordered, M: Mode> {
    entries: SortedMap<K, (V, i64)>,
    mode: PhantomData<M>,
}

impl<K: Ordered, V: Ordered, M: Mode> View for CrdtMap<K, V, M> {
    type V = Map<K::V, (V::V, i64)>;

    /// For each key its value and the time at which it was written.
    closed spec fn view(&self) -> Map<K::V, (V::V, i64)> {
        self.entries@
    }
}

impl<K: Ordered, V: Ordered, M: Mode> CrdtMap<K, V, M> {
    /// The entries in ascending order of the keys.
    pub closed spec fn listing(&self) -> Seq<(K::V, (V::V, i64))> {
        self.entries.listing()
    }

    /// The stored form is canonical: the keys ascend strictly.
    #[verifier::type_invariant]
    pub closed spec fn wf(&self) -> bool {
        self.entries.wf()
    }

    /// The listing of a well-formed map is ascending and stands for its view.
    pub proof fn listing_agrees(&self)
        requires
            self.wf(),
        ensures
            ascending::<K, (V::V, i64)>(self.listing()),
            to_map(self.listing()) == self@,
            self@.dom().finite(),
            self@.len() == self.listing().len(),
    {
        self.entries.listing_agrees();
    }

    /// An empty map.
    pub fn new() -> (r: Self)
        ensures
            r@ == Map::<K::V, (V::V, i64)>::empty(),
    {
        let entries = SortedMap::new();
        proof {
            use_type_invariant(&entries);
        }
        CrdtMap { entries, mode: PhantomData }
    }

    /// The number of keys.
    pub fn len(&self) -> (n: usize)
        ensures
            self@.dom().finite(),
            n == self@.len(),
    {
        self.entries.len()
    }

    /// Whether the map has no key.
    pub fn is_empty(&self) -> (r: bool)
        ensures
            r == (self@ == Map::<K::V, (V::V, i64)>::empty()),
    {
        let n = self.entries.len();
        proof {
            if n == 0 {
                assert(self@ =~= Map::empty());
            }
        }
        n == 0
    }

    /// Writes `value` under `key` at `now`, in place of what was there.
    pub fn insert(&mut self, key: K, value: V, now: i64)
        ensures
            final(self)@ == old(self)@.insert(key@, (value@, now)),
    {
        let mut entries = SortedMap::new();
        core::mem::swap(&mut entries, &mut self.entries);
        entries.insert(key, (value, now));
        proof {
            use_type_invariant(&entries);
        }
        self.entries = entries;
    }

    /// Whether `key` has an entry.
    pub fn contains_key(&self, key: &K) -> (r: bool)
        ensures
            r == self@.contains_key(key@),
    {
        self.entries.contains_key(key)
    }

    /// The value under `key` and the time at which it was written, if the key
    /// has an entry.
    pub fn get(&self, key: &K) -> (r: Option<(&V, i64)>)
        ensures
            match r {
                Some(e) => self@.contains_key(key@) && (e.0@, e.1) == self@[key@],
                None => !self@.contains_key(key@),
            },
    {
        match self.entries.get(key) {
            Some(e) => Some((&e.0, e.1)),
            None => None,
        }
    }

    /// The entries in ascending order of the keys: the full state of the map.
    pub fn entries(&self) -> (r: Vec<(K, (V, i64))>)
        ensures
            views(r@) == self.listing(),
            ascending::<K, (V::V, i64)>(views(r@)),
            to_map(views(r@)) == self@,
    {
        proof {
            use_type_invariant(&self.entries);
            self.entries.listing_agrees();
        }
        let n = self.entries.len();
        let mut r: Vec<(K, (V, i64))> = Vec::new();
        let mut i: usize = 0;
        while i < n
            invariant
                n == self.entries.listing().len(),
                i <= n,
                r@.len() == i,
                views(r@) == self.entries.listing().take(i as int),
            decreases n - i,
        {
            let (k, e) = self.entries.entry(i);
            let ghost pre = r@;
            r.push((k.duplicate(), (e.0.duplicate(), e.1)));
            proof {
                let l = self.entries.listing();
                assert forall|j: int| 0 <= j < i + 1 implies views(r@)[j] == l.take(i + 1)[j] by {
                    if j < i {
                        assert(views(r@)[j] == views(pre)[j]);
                        assert(l.take(i as int)[j] == l[j]);
                    }
                }
                assert(views(r@) =~= l.take(i + 1));
            }
            i += 1;
        }
        proof {
            assert(self.entries.listing().take(n as int) =~= self.entries.listing());
        }
        r
    }

    /// The map that results from inserting the given entries, in their order,
    /// into an empty map.
    pub fn from_entries(entries: Vec<(K, (V, i64))>) -> (r: Self)
        ensures
            r@ == insert_all(Map::<K::V, (V::V, i64)>::empty(), views(entries@)),
    {
        let mut r = Self::new();
        let n = entries.len();
        let mut i: usize = 0;
        while i < n
            invariant
                n == entries@.len(),
                i <= n,
                r@ == insert_all(Map::<K::V, (V::V, i64)>::empty(), views(entries@).take(i as int)),
            decreases n - i,
        {
            let k = entries[i].0.duplicate();
            let v = entries[i].1.0.duplicate();
            let w = entries[i].1.1;
            r.insert(k, v, w);
            proof {
                let s = views(entries@);
                assert(s.take(i + 1).drop_last() =~= s.take(i as int));
                assert(s.take(i + 1).last() == (k@, (v@, w)));
            }
            i += 1;
        }
        proof {
            assert(views(entries@).take(n as int) =~= views(entries@));
        }
        r
    }
}

impl<K: Ordered, V: Ordered, M: Mode> Default for CrdtMap<K, V, M> {
    /// An empty map.
    fn default() -> (r: Self)
        ensures
            r@ == Map::<K::V, (V::V, i64)>::empty(),
    {
        Self::new()
    }
}

impl<K: Ordered, V: Ordered, M: Mode> Crdt for CrdtMap<K, V, M> {
    /// Two maps of one policy can always be merged.
    open spec fn mergeable(a: Map<K::V, (V::V, i64)>, b: Map<K::V, (V::V, i64)>) -> bool {
        true
    }

    /// The entries of either map, and for a key of both the write that the
    /// policy lets survive.
    open spec fn join(a: Map<K::V, (V::V, i64)>, b: Map<K::V, (V::V, i64)>) -> Map<
        K::V,
        (V::V, i64),
    > {
        join_with(a, b, |x: (V::V, i64), y: (V::V, i64)| resolved::<V>(M::latest_wins(), x, y))
    }

    /// A map has nothing that expires.
    open spec fn purge(a: Map<K::V, (V::V, i64)>, now: i64) -> Map<K::V, (V::V, i64)> {
        a
    }

    fn merge(&mut self, other: &Self) -> (r: Result<(), MergeError>) {
        proof {
            use_type_invariant(&other.entries);
            other.entries.listing_agrees();
        }
        let latest = M::keeps_latest();
        let mut entries = SortedMap::new();
        core::mem::swap(&mut entries, &mut self.entries);
        let ghost a = entries@;
        let ghost s = other.entries.listing();
        let n = other.entries.len();
        let mut i: usize = 0;
        proof {
            assert(to_map(s.take(0)) =~= Map::empty());
            join_with_empty(
                a,
                |x: (V::V, i64), y: (V::V, i64)| resolved::<V>(M::latest_wins(), x, y),
            );
        }
        while i < n
            invariant
                s == other.entries.listing(),
                ascending::<K, (V::V, i64)>(s),
                n == s.len(),
                i <= n,
                latest == M::latest_wins(),
                entries@ == Self::join(a, to_map(s.take(i as int))),
            decreases n - i,
        {
            let (k, theirs) = other.entries.entry(i);
            proof {
                to_map_take::<K, (V::V, i64)>(s, i as int);
                join_with_step(
                    a,
                    to_map(s.take(i as int)),
                    k@,
                    theirs@,
                    |x: (V::V, i64), y: (V::V, i64)| resolved::<V>(M::latest_wins(), x, y),
                );
            }
            let ghost before = entries@;
            let (found, at) = entries.locate(k);
            if found {
                let ours = entries.entry(at).1;
                let takes = if latest {
                    theirs.1 > ours.1 || (theirs.1 == ours.1 && ours.0.sorts_before(&theirs.0))
                } else {
                    theirs.1 < ours.1 || (theirs.1 == ours.1 && theirs.0.sorts_before(&ours.0))
                };
                if takes {
                    entries.set_value(at, (theirs.0.duplicate(), theirs.1));
                } else {
                    assert(before =~= before.insert(k@, before[k@]));
                }
            } else {
                entries.insert(k.duplicate(), (theirs.0.duplicate(), theirs.1));
            }
            proof {
                assert(entries@ =~= Self::join(a, to_map(s.take(i + 1))));
            }
            i += 1;
        }
        proof {
            assert(s.take(n as int) =~= s);
            use_type_invariant(&entries);
        }
        self.entries = entries;
        Ok(())
    }

    fn cleanup(&mut self, now: i64) {
    }
}

/// Merging a map with itself changes nothing.
pub proof fn merge_idempotent<K: Ordered, V: Ordered, M: Mode>(a: CrdtMap<K, V, M>)
    ensures
        CrdtMap::<K, V, M>::join(a@, a@) == a@,
{
    resolved_is_a_semilattice::<V>(M::latest_wins());
    join_with_idempotent(
        a@,
        |x: (V::V, i64), y: (V::V, i64)| resolved::<V>(M::latest_wins(), x, y),
    );
}

/// Merging two maps gives the same state in either direction.
pub proof fn merge_commutative<K: Ordered, V: Ordered, M: Mode>(
    a: CrdtMap<K, V, M>,
    b: CrdtMap<K, V, M>,
)
    ensures
        CrdtMap::<K, V, M>::join(a@, b@) == CrdtMap::<K, V, M>::join(b@, a@),
{
    resolved_is_a_semilattice::<V>(M::latest_wins());
    join_with_commutative(
        a@,
        b@,
        |x: (V::V, i64), y: (V::V, i64)| resolved::<V>(M::latest_wins(), x, y),
    );
}

/// Merging three maps gives the same state in either grouping.
pub proof fn merge_associative<K: Ordered, V: Ordered, M: Mode>(
    a: CrdtMap<K, V, M>,
    b: CrdtMap<K, V, M>,
    c: CrdtMap<K, V, M>,
)
    ensures
        CrdtMap::<K, V, M>::join(CrdtMap::<K, V, M>::join(a@, b@), c@) == CrdtMap::<K, V, M>::join(
            a@,
            CrdtMap::<K, V, M>::join(b@, c@),
        ),
{
    resolved_is_a_semilattice::<V>(M::latest_wins());
    join_with_associative(
        a@,
        b@,
        c@,
        |x: (V::V, i64), y: (V::V, i64)| resolved::<V>(M::latest_wins(), x, y),
    );
}

/// A second cleanup at the same time changes nothing.
pub proof fn cleanup_idempotent<K: Ordered, V: Ordered, M: Mode>(a: CrdtMap<K, V, M>, now: i64)
    ensures
        CrdtMap::<K, V, M>::purge(CrdtMap::<K, V, M>::purge(a@, now), now) == CrdtMap::<
            K,
            V,
            M,
        >::purge(a@, now),
{
}

/// Inserting the entries of an ascending list into an empty map gives the map
/// that the list stands for.
pub proof fn insert_all_ascending<K: Ordered, W>(s: Seq<(K::V, W)>)
    requires
        ascending::<K, W>(s),
    ensures
        insert_all(Map::<K::V, W>::empty(), s) == to_map(s),
    decreases s.len(),
{
    if s.len() == 0 {
        assert(to_map(s) =~= Map::empty());
    } else {
        let i = s.len() - 1;
        to_map_take::<K, W>(s, i);
        assert(s.take(i) =~= s.drop_last());
        assert(s.take(i + 1) =~= s);
        insert_all_ascending::<K, W>(s.drop_last());
    }
}

/// Writing a map out and reading it back gives the same state, and two maps
/// in the same state write out the same list.
pub proof fn snapshot_round_trip<K: Ordered, V: Ordered, M: Mode>(
    a: CrdtMap<K, V, M>,
    b: CrdtMap<K, V, M>,
)
    requires
        a.wf(),
        b.wf(),
        b@ == insert_all(Map::<K::V, (V::V, i64)>::empty(), a.listing()),
    ensures
        b@ == a@,
        b.listing() == a.listing(),
{
    a.listing_agrees();
    b.listing_agrees();
    insert_all_ascending::<K, (V::V, i64)>(a.listing());
    to_map_injective::<K, (V::V, i64)>(a.listing(), b.listing());
}

} // verus!
