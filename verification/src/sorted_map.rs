//! A map kept as a vector of entries in strictly ascending key order.
//!
//! Every container of this library stores its entries in a `SortedMap`. The
//! order makes the stored form canonical: two maps with the same contents hold
//! the same entries at the same positions, so replicas that converge also
//! agree on what they write out.

use crate::maps::keep_where;
use crate::order::{lt_asymmetric, Ordered};
use vstd::prelude::*;

verus! {

/// The keys of `s` ascend strictly from front to back.
pub open spec fn ascending<K: Ordered, W>(s: Seq<(K::V, W)>) -> bool {
    forall|i: int, j: int| 0 <= i < j < s.len() ==> K::lt(#[trigger] s[i].0, #[trigger] s[j].0)
}

/// Some entry of `s` has key `k`.
pub open spec fn has_key<A, W>(s: Seq<(A, W)>, k: A) -> bool {
    exists|i: int| 0 <= i < s.len() && #[trigger] s[i].0 == k
}

/// A position in `s` at which key `k` stands.
pub open spec fn index_of<A, W>(s: Seq<(A, W)>, k: A) -> int {
    choose|i: int| 0 <= i < s.len() && #[trigger] s[i].0 == k
}

/// The map that a list of entries stands for.
pub open spec fn to_map<A, W>(s: Seq<(A, W)>) -> Map<A, W> {
    Map::new(|k: A| has_key(s, k), |k: A| s[index_of(s, k)].1)
}

/// In an ascending list a key stands at one position only.
pub proof fn ascending_keys_distinct<K: Ordered, W>(s: Seq<(K::V, W)>, i: int, j: int)
    requires
        ascending::<K, W>(s),
        0 <= i < s.len(),
        0 <= j < s.len(),
        s[i].0 == s[j].0,
    ensures
        i == j,
{
    if i < j {
        lt_asymmetric::<K>(s[i].0, s[j].0);
    } else if j < i {
        lt_asymmetric::<K>(s[j].0, s[i].0);
    }
}

/// The entry at position `i` of an ascending list is what the map holds for
/// its key.
pub proof fn to_map_at<K: Ordered, W>(s: Seq<(K::V, W)>, i: int)
    requires
        ascending::<K, W>(s),
        0 <= i < s.len(),
    ensures
        to_map(s).contains_key(s[i].0),
        to_map(s)[s[i].0] == s[i].1,
        index_of(s, s[i].0) == i,
{
    assert(has_key(s, s[i].0));
    ascending_keys_distinct::<K, W>(s, i, index_of(s, s[i].0));
}

/// Appending an entry whose key is new adds it to the map.
pub proof fn to_map_push<K: Ordered, W>(s: Seq<(K::V, W)>, e: (K::V, W))
    requires
        ascending::<K, W>(s.push(e)),
    ensures
        ascending::<K, W>(s),
        !to_map(s).contains_key(e.0),
        to_map(s.push(e)) == to_map(s).insert(e.0, e.1),
{
    let t = s.push(e);
    assert forall|i: int, j: int| 0 <= i < j < s.len() implies K::lt(
        #[trigger] s[i].0,
        #[trigger] s[j].0,
    ) by {
        assert(s[i] == t[i] && s[j] == t[j]);
    }
    if has_key(s, e.0) {
        let i = index_of(s, e.0);
        assert(t[i] == s[i]);
        ascending_keys_distinct::<K, W>(t, i, s.len() as int);
    }
    assert forall|k: K::V| to_map(t).contains_key(k) <==> to_map(s).insert(e.0, e.1).contains_key(
        k,
    ) by {
        if has_key(t, k) {
            let i = index_of(t, k);
            if i < s.len() {
                assert(s[i].0 == k);
            }
        }
        if has_key(s, k) {
            let i = index_of(s, k);
            assert(t[i].0 == k);
        }
        if k == e.0 {
            assert(t[s.len() as int].0 == k);
        }
    }
    assert forall|k: K::V| to_map(t).contains_key(k) implies to_map(t)[k] == to_map(s).insert(
        e.0,
        e.1,
    )[k] by {
        let i = index_of(t, k);
        to_map_at::<K, W>(t, i);
        if i < s.len() {
            assert(s[i] == t[i]);
            to_map_at::<K, W>(s, i);
            ascending_keys_distinct::<K, W>(t, i, index_of(t, k));
        }
    }
    assert(to_map(t) =~= to_map(s).insert(e.0, e.1));
}

/// An ascending list stands for a finite map with one key for each entry.
pub proof fn to_map_len<K: Ordered, W>(s: Seq<(K::V, W)>)
    requires
        ascending::<K, W>(s),
    ensures
        to_map(s).dom().finite(),
        to_map(s).len() == s.len(),
    decreases s.len(),
{
    if s.len() == 0 {
        assert(to_map(s) =~= Map::empty());
    } else {
        let e = s.last();
        let r = s.drop_last();
        assert(r.push(e) =~= s);
        to_map_push::<K, W>(r, e);
        to_map_len::<K, W>(r);
    }
}

/// Two ascending lists that stand for the same map are the same list.
pub proof fn to_map_injective<K: Ordered, W>(s: Seq<(K::V, W)>, t: Seq<(K::V, W)>)
    requires
        ascending::<K, W>(s),
        ascending::<K, W>(t),
        to_map(s) == to_map(t),
    ensures
        s == t,
    decreases s.len(),
{
    to_map_len::<K, W>(s);
    to_map_len::<K, W>(t);
    if s.len() > 0 {
        let n = s.len() - 1;
        to_map_at::<K, W>(s, n);
        to_map_at::<K, W>(t, n);
        // The last key of each list is the greatest key of the map.
        let i = index_of(t, s[n].0);
        let j = index_of(s, t[n].0);
        assert(has_key(t, s[n].0));
        assert(has_key(s, t[n].0));
        if i < n {
            lt_asymmetric::<K>(t[i].0, t[n].0);
            if j < n {
                K::lt_transitive(s[j].0, s[n].0, t[n].0);
                K::lt_irreflexive(s[j].0);
            }
        }
        assert(s[n].0 == t[n].0);
        assert(s[n].1 == t[n].1);
        assert(s.drop_last().push(s[n]) =~= s);
        assert(t.drop_last().push(t[n]) =~= t);
        to_map_push::<K, W>(s.drop_last(), s[n]);
        to_map_push::<K, W>(t.drop_last(), t[n]);
        assert(to_map(s.drop_last()) =~= to_map(s).remove(s[n].0));
        assert(to_map(t.drop_last()) =~= to_map(t).remove(t[n].0));
        to_map_injective::<K, W>(s.drop_last(), t.drop_last());
    } else {
        assert(s =~= t);
    }
}

/// Putting an entry in at the position that the order gives it adds it to the
/// map.
pub proof fn to_map_insert<K: Ordered, W>(s: Seq<(K::V, W)>, p: int, e: (K::V, W))
    requires
        ascending::<K, W>(s),
        0 <= p <= s.len(),
        forall|j: int| 0 <= j < p ==> K::lt(#[trigger] s[j].0, e.0),
        forall|j: int| p <= j < s.len() ==> K::lt(e.0, #[trigger] s[j].0),
    ensures
        ascending::<K, W>(s.insert(p, e)),
        to_map(s.insert(p, e)) == to_map(s).insert(e.0, e.1),
{
    let t = s.insert(p, e);
    assert forall|i: int, j: int| 0 <= i < j < t.len() implies K::lt(
        #[trigger] t[i].0,
        #[trigger] t[j].0,
    ) by {
        if j < p {
            assert(t[i] == s[i] && t[j] == s[j]);
        } else if j == p {
            assert(t[i] == s[i]);
        } else if i < p {
            assert(t[i] == s[i] && t[j] == s[j - 1]);
        } else if i == p {
            assert(t[j] == s[j - 1]);
        } else {
            assert(t[i] == s[i - 1] && t[j] == s[j - 1]);
        }
    }
    assert forall|k: K::V| to_map(t).contains_key(k) <==> to_map(s).insert(e.0, e.1).contains_key(
        k,
    ) by {
        if has_key(t, k) {
            let i = index_of(t, k);
            if i < p {
                assert(s[i].0 == k);
            } else if i > p {
                assert(s[i - 1].0 == k);
            }
        }
        if has_key(s, k) {
            let i = index_of(s, k);
            if i < p {
                assert(t[i].0 == k);
            } else {
                assert(t[i + 1].0 == k);
            }
        }
        if k == e.0 {
            assert(t[p].0 == k);
        }
    }
    assert forall|k: K::V| to_map(t).contains_key(k) implies to_map(t)[k] == to_map(s).insert(
        e.0,
        e.1,
    )[k] by {
        let i = index_of(t, k);
        to_map_at::<K, W>(t, i);
        if i < p {
            assert(s[i] == t[i]);
            to_map_at::<K, W>(s, i);
            lt_asymmetric::<K>(s[i].0, e.0);
        } else if i > p {
            assert(s[i - 1] == t[i]);
            to_map_at::<K, W>(s, i - 1);
            lt_asymmetric::<K>(e.0, s[i - 1].0);
        }
    }
    assert(to_map(t) =~= to_map(s).insert(e.0, e.1));
}

/// Giving the entry at position `p` a new value changes the map at its key
/// only.
pub proof fn to_map_update<K: Ordered, W>(s: Seq<(K::V, W)>, p: int, w: W)
    requires
        ascending::<K, W>(s),
        0 <= p < s.len(),
    ensures
        ascending::<K, W>(s.update(p, (s[p].0, w))),
        to_map(s.update(p, (s[p].0, w))) == to_map(s).insert(s[p].0, w),
{
    let t = s.update(p, (s[p].0, w));
    assert forall|i: int, j: int| 0 <= i < j < t.len() implies K::lt(
        #[trigger] t[i].0,
        #[trigger] t[j].0,
    ) by {
        assert(t[i].0 == s[i].0 && t[j].0 == s[j].0);
    }
    assert forall|k: K::V| to_map(t).contains_key(k) <==> to_map(s).insert(s[p].0, w).contains_key(
        k,
    ) by {
        if has_key(t, k) {
            let i = index_of(t, k);
            assert(s[i].0 == k);
        }
        if has_key(s, k) {
            let i = index_of(s, k);
            assert(t[i].0 == k);
        }
    }
    assert forall|k: K::V| to_map(t).contains_key(k) implies to_map(t)[k] == to_map(s).insert(
        s[p].0,
        w,
    )[k] by {
        let i = index_of(t, k);
        to_map_at::<K, W>(t, i);
        if i != p {
            assert(s[i] == t[i]);
            to_map_at::<K, W>(s, i);
            if k == s[p].0 {
                ascending_keys_distinct::<K, W>(s, i, p);
            }
        }
    }
    assert(to_map(t) =~= to_map(s).insert(s[p].0, w));
}

/// Taking the entry at position `p` out removes its key from the map.
pub proof fn to_map_remove<K: Ordered, W>(s: Seq<(K::V, W)>, p: int)
    requires
        ascending::<K, W>(s),
        0 <= p < s.len(),
    ensures
        ascending::<K, W>(s.remove(p)),
        to_map(s.remove(p)) == to_map(s).remove(s[p].0),
{
    let t = s.remove(p);
    assert forall|i: int, j: int| 0 <= i < j < t.len() implies K::lt(
        #[trigger] t[i].0,
        #[trigger] t[j].0,
    ) by {
        if j < p {
            assert(t[i] == s[i] && t[j] == s[j]);
        } else if i < p {
            assert(t[i] == s[i] && t[j] == s[j + 1]);
        } else {
            assert(t[i] == s[i + 1] && t[j] == s[j + 1]);
        }
    }
    assert forall|k: K::V| to_map(t).contains_key(k) <==> to_map(s).remove(s[p].0).contains_key(
        k,
    ) by {
        if has_key(t, k) {
            let i = index_of(t, k);
            if i < p {
                assert(s[i].0 == k);
                ascending_keys_distinct::<K, W>(s, i, if k == s[p].0 { p } else { i });
            } else {
                assert(s[i + 1].0 == k);
                ascending_keys_distinct::<K, W>(s, i + 1, if k == s[p].0 { p } else { i + 1 });
            }
        }
        if has_key(s, k) && k != s[p].0 {
            let i = index_of(s, k);
            if i < p {
                assert(t[i].0 == k);
            } else {
                assert(t[i - 1].0 == k);
            }
        }
    }
    assert forall|k: K::V| to_map(t).contains_key(k) implies to_map(t)[k] == to_map(s).remove(
        s[p].0,
    )[k] by {
        let i = index_of(t, k);
        to_map_at::<K, W>(t, i);
        if i < p {
            assert(s[i] == t[i]);
            to_map_at::<K, W>(s, i);
        } else {
            assert(s[i + 1] == t[i]);
            to_map_at::<K, W>(s, i + 1);
        }
    }
    assert(to_map(t) =~= to_map(s).remove(s[p].0));
}

/// The first `i` entries of an ascending list stand for a map to which the
/// entry at position `i` adds a new key.
pub proof fn to_map_take<K: Ordered, W>(s: Seq<(K::V, W)>, i: int)
    requires
        ascending::<K, W>(s),
        0 <= i < s.len(),
    ensures
        ascending::<K, W>(s.take(i)),
        ascending::<K, W>(s.take(i + 1)),
        !to_map(s.take(i)).contains_key(s[i].0),
        to_map(s.take(i + 1)) == to_map(s.take(i)).insert(s[i].0, s[i].1),
{
    let t = s.take(i + 1);
    assert forall|a: int, b: int| 0 <= a < b < t.len() implies K::lt(
        #[trigger] t[a].0,
        #[trigger] t[b].0,
    ) by {
        assert(t[a] == s[a] && t[b] == s[b]);
    }
    assert(s.take(i).push(s[i]) =~= t);
    to_map_push::<K, W>(s.take(i), s[i]);
}

/// A test on stored values, for `SortedMap::retain`.
pub trait Keep<V: View> {
    /// The value passes the test.
    spec fn keeps(&self, v: V::V) -> bool;

    /// Decides `keeps`.
    fn test(&self, v: &V) -> (r: bool)
        ensures
            r == self.keeps(v@),
    ;
}

/// A list of stored entries, each key and value by its view.
pub open spec fn views<K: View, V: View>(s: Seq<(K, V)>) -> Seq<(K::V, V::V)> {
    Seq::new(s.len(), |i: int| (s[i].0@, s[i].1@))
}

/// A map from keys to values, stored in ascending key order.
pub struct SortedMap<K: Ordered, V: View> {
    entries: Vec<(K, V)>,
}

impl<K: Ordered, V: View> View for SortedMap<K, V> {
    type V = Map<K::V, V::V>;

    /// The map that the entries stand for.
    open spec fn view(&self) -> Map<K::V, V::V> {
        to_map(self.listing())
    }
}

impl<K: Ordered, V: View> SortedMap<K, V> {
    /// The entries in storage order, each key and value by its view.
    pub closed spec fn listing(&self) -> Seq<(K::V, V::V)> {
        views(self.entries@)
    }

    /// The keys ascend strictly, so no key is stored twice.
    #[verifier::type_invariant]
    pub open spec fn wf(&self) -> bool {
        ascending::<K, V::V>(self.listing())
    }

    /// What the order of the entries gives: the map is finite, has one key for
    /// each entry, and holds each entry under its key.
    pub proof fn listing_agrees(&self)
        requires
            self.wf(),
        ensures
            self@.dom().finite(),
            self@.len() == self.listing().len(),
            forall|i: int|
                0 <= i < self.listing().len() ==> self@.contains_key(
                    (#[trigger] self.listing()[i]).0,
                ) && self@[self.listing()[i].0] == self.listing()[i].1,
            forall|k: K::V| #[trigger]
                self@.contains_key(k) ==> 0 <= index_of(self.listing(), k) < self.listing().len()
                    && self.listing()[index_of(self.listing(), k)].0 == k,
    {
        let s = self.listing();
        to_map_len::<K, V::V>(s);
        assert forall|i: int| 0 <= i < s.len() implies self@.contains_key((#[trigger] s[i]).0)
            && self@[s[i].0] == s[i].1 by {
            to_map_at::<K, V::V>(s, i);
        }
    }

    /// An empty map.
    pub fn new() -> (r: Self)
        ensures
            r@ == Map::<K::V, V::V>::empty(),
            r.listing() == Seq::<(K::V, V::V)>::empty(),
    {
        let r = SortedMap { entries: Vec::new() };
        assert(r.listing() =~= Seq::empty());
        assert(r@ =~= Map::empty());
        r
    }

    /// The number of keys.
    pub fn len(&self) -> (n: usize)
        ensures
            n == self.listing().len(),
            n == self@.len(),
            self@.dom().finite(),
    {
        proof {
            use_type_invariant(self);
            self.listing_agrees();
        }
        self.entries.len()
    }

    /// The entry at position `i` in ascending key order.
    pub fn entry(&self, i: usize) -> (r: (&K, &V))
        requires
            i < self.listing().len(),
        ensures
            (r.0@, r.1@) == self.listing()[i as int],
            self@.contains_key(r.0@),
            self@[r.0@] == r.1@,
    {
        proof {
            use_type_invariant(self);
            self.listing_agrees();
        }
        let e = &self.entries[i];
        (&e.0, &e.1)
    }

    /// Binary search for `key`: whether it is stored, and the position at
    /// which it stands or would have to be put in.
    pub fn locate(&self, key: &K) -> (r: (bool, usize))
        ensures
            r.1 <= self.listing().len(),
            r.0 == self@.contains_key(key@),
            r.0 ==> r.1 < self.listing().len() && self.listing()[r.1 as int].0 == key@,
            forall|j: int| 0 <= j < r.1 ==> K::lt(#[trigger] self.listing()[j].0, key@),
            !r.0 ==> forall|j: int|
                r.1 <= j < self.listing().len() ==> K::lt(key@, #[trigger] self.listing()[j].0),
    {
        proof {
            use_type_invariant(self);
            self.listing_agrees();
        }
        let ghost s = self.listing();
        let mut lo: usize = 0;
        let mut hi: usize = self.entries.len();
        while lo < hi
            invariant
                s == self.listing(),
                ascending::<K, V::V>(s),
                lo <= hi <= s.len(),
                s.len() == self.entries@.len(),
                forall|j: int| 0 <= j < lo ==> K::lt(#[trigger] s[j].0, key@),
                forall|j: int| hi <= j < s.len() ==> K::lt(key@, #[trigger] s[j].0),
            decreases hi - lo,
        {
            let mid: usize = lo + (hi - lo) / 2;
            let k = &self.entries[mid].0;
            assert(k@ == s[mid as int].0);
            if k.same_as(key) {
                proof {
                    to_map_at::<K, V::V>(s, mid as int);
                    assert forall|j: int| 0 <= j < mid implies K::lt(#[trigger] s[j].0, key@) by {}
                }
                return (true, mid);
            }
            if k.sorts_before(key) {
                proof {
                    assert forall|j: int| 0 <= j < mid + 1 implies K::lt(
                        #[trigger] s[j].0,
                        key@,
                    ) by {
                        if j < mid {
                            K::lt_transitive(s[j].0, s[mid as int].0, key@);
                        }
                    }
                }
                lo = mid + 1;
            } else {
                proof {
                    K::lt_connected(k@, key@);
                    assert forall|j: int| mid <= j < s.len() implies K::lt(
                        key@,
                        #[trigger] s[j].0,
                    ) by {
                        if mid < j {
                            K::lt_transitive(key@, s[mid as int].0, s[j].0);
                        }
                    }
                }
                hi = mid;
            }
        }
        proof {
            if has_key(s, key@) {
                let i = index_of(s, key@);
                if i < lo {
                    K::lt_irreflexive(key@);
                } else {
                    K::lt_irreflexive(key@);
                }
            }
        }
        (false, lo)
    }

    /// Whether `key` is stored.
    pub fn contains_key(&self, key: &K) -> (r: bool)
        ensures
            r == self@.contains_key(key@),
    {
        self.locate(key).0
    }

    /// The value stored under `key`, if there is one.
    pub fn get(&self, key: &K) -> (r: Option<&V>)
        ensures
            match r {
                Some(v) => self@.contains_key(key@) && v@ == self@[key@],
                None => !self@.contains_key(key@),
            },
    {
        let (found, pos) = self.locate(key);
        if found {
            proof {
                use_type_invariant(self);
                self.listing_agrees();
            }
            Some(&self.entries[pos].1)
        } else {
            None
        }
    }

    /// Stores `value` under `key`, in place of what was stored there.
    pub fn insert(&mut self, key: K, value: V)
        ensures
            final(self)@ == old(self)@.insert(key@, value@),
    {
        let (found, pos) = self.locate(&key);
        proof {
            use_type_invariant(&*self);
        }
        let ghost s = self.listing();
        let mut entries: Vec<(K, V)> = Vec::new();
        core::mem::swap(&mut entries, &mut self.entries);
        if found {
            entries[pos] = (key, value);
            proof {
                to_map_update::<K, V::V>(s, pos as int, value@);
                assert(views(entries@) =~= s.update(pos as int, (s[pos as int].0, value@)));
            }
        } else {
            entries.insert(pos, (key, value));
            proof {
                to_map_insert::<K, V::V>(s, pos as int, (key@, value@));
                assert(views(entries@) =~= s.insert(pos as int, (key@, value@)));
            }
        }
        self.entries = entries;
    }

    /// Gives the entry at position `i` a new value.
    pub fn set_value(&mut self, i: usize, value: V)
        requires
            i < old(self).listing().len(),
        ensures
            final(self)@ == old(self)@.insert(old(self).listing()[i as int].0, value@),
            final(self).listing() == old(self).listing().update(
                i as int,
                (old(self).listing()[i as int].0, value@),
            ),
    {
        proof {
            use_type_invariant(&*self);
        }
        let ghost s = self.listing();
        let mut entries: Vec<(K, V)> = Vec::new();
        core::mem::swap(&mut entries, &mut self.entries);
        let (k, _) = entries.remove(i);
        entries.insert(i, (k, value));
        proof {
            to_map_update::<K, V::V>(s, i as int, value@);
            assert(views(entries@) =~= s.update(i as int, (s[i as int].0, value@)));
        }
        self.entries = entries;
    }

    /// Drops every entry whose value fails the test `p`.
    pub fn retain<P: Keep<V>>(&mut self, p: &P)
        ensures
            final(self)@ == keep_where(old(self)@, |v: V::V| p.keeps(v)),
    {
        proof {
            use_type_invariant(&*self);
            self.listing_agrees();
        }
        let ghost s0 = self.listing();
        let ghost m0 = self@;
        let mut i: usize = self.len();
        assert(s0.take(i as int) =~= s0);
        while i > 0
            invariant
                ascending::<K, V::V>(s0),
                m0 == to_map(s0),
                i <= self.listing().len(),
                i <= s0.len(),
                self.listing().take(i as int) == s0.take(i as int),
                forall|k: K::V|
                    self@.contains_key(k) <==> m0.contains_key(k) && (index_of(s0, k) < i
                        || p.keeps(m0[k])),
                forall|k: K::V| self@.contains_key(k) ==> self@[k] == m0[k],
            decreases i,
        {
            i -= 1;
            proof {
                use_type_invariant(&*self);
                assert(self.listing()[i as int] == self.listing().take(i + 1)[i as int]);
                assert(s0[i as int] == s0.take(i + 1)[i as int]);
                to_map_at::<K, V::V>(s0, i as int);
                assert(self.listing().take(i as int) =~= self.listing().take(i + 1).take(i as int));
                assert(s0.take(i as int) =~= s0.take(i + 1).take(i as int));
            }
            let ghost before = self.listing();
            let ghost pre = self@;
            let (_, v) = self.entry(i);
            let keep = p.test(v);
            if !keep {
                self.remove_at(i);
                proof {
                    assert(self.listing().take(i as int) =~= before.take(i as int));
                }
            }
            proof {
                let ki = s0[i as int].0;
                assert(m0[ki] == s0[i as int].1);
                assert(keep == p.keeps(m0[ki]));
                assert forall|k: K::V|
                    self@.contains_key(k) <==> m0.contains_key(k) && (index_of(s0, k) < i
                        || p.keeps(m0[k])) by {
                    if m0.contains_key(k) {
                        assert(has_key(s0, k));
                        assert(s0[index_of(s0, k)].0 == k);
                    }
                    if keep {
                        assert(self@.contains_key(k) == pre.contains_key(k));
                    } else {
                        assert(self@.contains_key(k) == (pre.contains_key(k) && k != ki));
                    }
                }
            }
        }
        assert(self@ =~= keep_where(m0, |v: V::V| p.keeps(v)));
    }

    /// Takes the entry at position `i` out and returns it.
    pub fn remove_at(&mut self, i: usize) -> (r: (K, V))
        requires
            i < old(self).listing().len(),
        ensures
            (r.0@, r.1@) == old(self).listing()[i as int],
            final(self)@ == old(self)@.remove(r.0@),
            final(self).listing() == old(self).listing().remove(i as int),
    {
        proof {
            use_type_invariant(&*self);
        }
        let ghost s = self.listing();
        let mut entries: Vec<(K, V)> = Vec::new();
        core::mem::swap(&mut entries, &mut self.entries);
        let e = entries.remove(i);
        proof {
            to_map_remove::<K, V::V>(s, i as int);
            assert(views(entries@) =~= s.remove(i as int));
        }
        self.entries = entries;
        e
    }
}

} // verus!
