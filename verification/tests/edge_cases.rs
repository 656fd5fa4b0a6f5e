use replica_crdt::atom::Atom;
use replica_crdt::crdt::Crdt;
use replica_crdt::crdt_map::{CrdtMap, Fww, Lww};
use replica_crdt::error::MergeError;
use replica_crdt::expiring_set::{ExpiringSet, LiveAfter};
use replica_crdt::grow_only_set::GrowOnlySet;
use replica_crdt::order::{slice_lt, Ordered};
use replica_crdt::register::ExpiringFWWRegister;
use replica_crdt::sized_set::SizedFWWExpiringSet;
use replica_crdt::sorted_map::SortedMap;

fn s(text: &str) -> String {
    String::from(text)
}

#[test]
fn merge_of_different_capacities_fails_and_changes_nothing() {
    let mut a: SizedFWWExpiringSet<String> = SizedFWWExpiringSet::new(2);
    a.insert(s("a"), 1, 10);
    let mut b: SizedFWWExpiringSet<String> = SizedFWWExpiringSet::new(3);
    b.insert(s("b"), 0, 10);
    assert_eq!(a.merge(&b), Err(MergeError::IncompatibleConfiguration));
    assert_eq!(a.entries(), vec![(s("a"), (1, 10))]);
    assert_eq!(a.capacity(), 2);
    assert_eq!(b.merge(&a), Err(MergeError::IncompatibleConfiguration));
    assert_eq!(b.entries(), vec![(s("b"), (0, 10))]);
}

#[test]
fn merge_error_describes_itself() {
    assert_eq!(
        MergeError::IncompatibleConfiguration.describe(),
        "the two containers were built with different fixed parameters"
    );
}

#[test]
fn sized_set_of_capacity_zero_stays_empty() {
    let mut a: SizedFWWExpiringSet<u32> = SizedFWWExpiringSet::new(0);
    a.insert(1, 0, 10);
    assert!(a.is_empty());
    assert_eq!(a.len(), 0);
    let b: SizedFWWExpiringSet<u32> = SizedFWWExpiringSet::new(0);
    assert_eq!(a.merge(&b), Ok(()));
    assert!(a.is_empty());
}

#[test]
fn sized_set_refreshes_a_member_only_by_an_earlier_write() {
    let mut a: SizedFWWExpiringSet<u32> = SizedFWWExpiringSet::new(2);
    a.insert(7, 5, 100);
    a.insert(7, 9, 900);
    assert_eq!(a.stamp(&7), Some((5, 100)));
    a.insert(7, 5, 900);
    assert_eq!(a.stamp(&7), Some((5, 100)));
    a.insert(7, 4, 50);
    assert_eq!(a.stamp(&7), Some((4, 50)));
    assert_eq!(a.len(), 1);
    assert_eq!(a.stamp(&8), None);
}

#[test]
fn sized_set_breaks_ties_by_value() {
    let mut a: SizedFWWExpiringSet<u32> = SizedFWWExpiringSet::new(2);
    a.insert(20, 1, 100);
    a.insert(30, 1, 100);
    a.insert(40, 1, 100);
    assert_eq!(a.entries(), vec![(20, (1, 100)), (30, (1, 100))]);
    a.insert(10, 1, 100);
    assert_eq!(a.entries(), vec![(10, (1, 100)), (20, (1, 100))]);
    a.insert(5, 2, 100);
    assert_eq!(a.entries(), vec![(10, (1, 100)), (20, (1, 100))]);
    a.insert(50, 0, 100);
    assert_eq!(a.entries(), vec![(10, (1, 100)), (50, (0, 100))]);
}

#[test]
fn sized_set_cleanup_frees_room() {
    let mut a: SizedFWWExpiringSet<u32> = SizedFWWExpiringSet::new(2);
    a.insert(1, 1, 10);
    a.insert(2, 2, 20);
    a.insert(3, 3, 30);
    assert!(!a.contains(&3));
    a.cleanup(10);
    assert_eq!(a.entries(), vec![(2, (2, 20))]);
    a.insert(3, 3, 30);
    assert_eq!(a.entries(), vec![(2, (2, 20)), (3, (3, 30))]);
    a.cleanup(30);
    assert!(a.is_empty());
}

#[test]
fn sized_set_merge_keeps_the_best_of_both() {
    let mut a: SizedFWWExpiringSet<u32> = SizedFWWExpiringSet::new(3);
    a.insert(1, 10, 100);
    a.insert(2, 20, 100);
    a.insert(3, 30, 100);
    let mut b: SizedFWWExpiringSet<u32> = SizedFWWExpiringSet::new(3);
    b.insert(4, 5, 100);
    b.insert(2, 20, 500);
    b.insert(3, 15, 50);
    assert_eq!(a.merge(&b), Ok(()));
    assert_eq!(a.entries(), vec![(1, (10, 100)), (3, (15, 50)), (4, (5, 100))]);
}

#[test]
fn sized_set_merge_takes_the_later_bound_of_equal_writes() {
    let mut a: SizedFWWExpiringSet<u32> = SizedFWWExpiringSet::new(3);
    a.insert(2, 20, 100);
    let mut b: SizedFWWExpiringSet<u32> = SizedFWWExpiringSet::new(3);
    b.insert(2, 20, 500);
    assert_eq!(a.merge(&b), Ok(()));
    assert_eq!(a.stamp(&2), Some((20, 500)));
    assert_eq!(b.merge(&a), Ok(()));
    assert_eq!(b.stamp(&2), Some((20, 500)));
}

#[test]
fn register_starts_empty() {
    let r: ExpiringFWWRegister<String> = ExpiringFWWRegister::new();
    assert_eq!(r.get(), None);
    let d: ExpiringFWWRegister<String> = Default::default();
    assert_eq!(d.get(), None);
}

#[test]
fn register_set_lets_the_first_writer_win() {
    let mut r = ExpiringFWWRegister::new();
    r.set(s("m"), 10, 100);
    assert_eq!(r.get(), Some(&s("m")));
    r.set(s("late"), 11, 900);
    assert_eq!((r.get(), r.written, r.expires), (Some(&s("m")), 10, 100));
    r.set(s("z"), 10, 900);
    assert_eq!((r.get(), r.written, r.expires), (Some(&s("m")), 10, 100));
    r.set(s("m"), 10, 900);
    assert_eq!((r.get(), r.written, r.expires), (Some(&s("m")), 10, 100));
    r.set(s("a"), 10, 200);
    assert_eq!((r.get(), r.written, r.expires), (Some(&s("a")), 10, 200));
    r.set(s("early"), 9, 300);
    assert_eq!((r.get(), r.written, r.expires), (Some(&s("early")), 9, 300));
}

#[test]
fn register_update_expiry_is_not_a_write() {
    let mut r: ExpiringFWWRegister<String> = ExpiringFWWRegister::new();
    r.update_expiry(50);
    assert_eq!(r.get(), None);
    r.set(s("v"), 10, 100);
    r.update_expiry(40);
    assert_eq!((r.get(), r.written, r.expires), (Some(&s("v")), 10, 40));
    r.update_expiry(400);
    assert_eq!((r.get(), r.written, r.expires), (Some(&s("v")), 10, 400));
}

#[test]
fn register_merge_spreads_a_refresh() {
    let mut a = ExpiringFWWRegister::new();
    a.set(s("v"), 10, 100);
    let mut b = ExpiringFWWRegister::new();
    b.set(s("v"), 10, 100);
    b.update_expiry(300);
    assert_eq!(a.merge(&b), Ok(()));
    assert_eq!((a.get(), a.written, a.expires), (Some(&s("v")), 10, 300));
    assert_eq!(b.merge(&a), Ok(()));
    assert_eq!((b.get(), b.written, b.expires), (Some(&s("v")), 10, 300));

    let mut c = ExpiringFWWRegister::new();
    c.set(s("v"), 4, 20);
    assert_eq!(a.merge(&c), Ok(()));
    assert_eq!((a.get(), a.written, a.expires), (Some(&s("v")), 4, 300));
}

#[test]
fn register_merge_takes_the_bound_of_the_winner() {
    let mut a = ExpiringFWWRegister::new();
    a.set(s("b"), 10, 900);
    let mut b = ExpiringFWWRegister::new();
    b.set(s("a"), 10, 100);
    assert_eq!(a.merge(&b), Ok(()));
    assert_eq!((a.get(), a.written, a.expires), (Some(&s("a")), 10, 100));
    let empty: ExpiringFWWRegister<String> = ExpiringFWWRegister::new();
    assert_eq!(a.merge(&empty), Ok(()));
    assert_eq!((a.get(), a.written, a.expires), (Some(&s("a")), 10, 100));
}

#[test]
fn register_cleanup_clears_at_the_bound() {
    let mut r = ExpiringFWWRegister::new();
    r.set(s("v"), 10, 100);
    r.cleanup(99);
    assert_eq!(r.get(), Some(&s("v")));
    r.cleanup(100);
    assert_eq!(r.get(), None);
    r.set(s("w"), 500, 600);
    assert_eq!(r.get(), Some(&s("w")));
}

#[test]
fn register_readmits_an_expired_earlier_write() {
    let mut a = ExpiringFWWRegister::new();
    a.set(s("v"), 10, 100);
    let mut b = ExpiringFWWRegister::new();
    b.set(s("v"), 10, 100);
    a.cleanup(150);
    assert_eq!(a.get(), None);
    assert_eq!(a.merge(&b), Ok(()));
    assert_eq!((a.get(), a.written, a.expires), (Some(&s("v")), 10, 100));
}

#[test]
fn expiring_set_insert_only_moves_the_bound_later() {
    let mut set = ExpiringSet::new();
    assert!(set.is_empty());
    set.insert(s("x"), 100);
    set.insert(s("x"), 50);
    assert_eq!(set.expires(&s("x")), Some(100));
    set.insert(s("x"), 150);
    assert_eq!(set.expires(&s("x")), Some(150));
    assert_eq!(set.expires(&s("y")), None);
    assert_eq!(set.len(), 1);
    assert!(!set.is_empty());
}

#[test]
fn expiring_set_holds_an_expired_member_until_cleanup() {
    let mut set = ExpiringSet::new();
    set.insert(7u64, -5);
    assert!(set.contains(&7));
    set.cleanup(-6);
    assert!(set.contains(&7));
    set.cleanup(-5);
    assert!(!set.contains(&7));
    assert!(set.is_empty());
}

#[test]
fn expiring_set_merge_is_the_union() {
    let mut a = ExpiringSet::new();
    a.insert(1u8, 10);
    a.insert(2u8, 20);
    let mut b = ExpiringSet::new();
    b.insert(2u8, 5);
    b.insert(3u8, 30);
    assert_eq!(a.merge(&b), Ok(()));
    assert_eq!(a.entries(), vec![(1, 10), (2, 20), (3, 30)]);
    let d: ExpiringSet<u8> = Default::default();
    assert_eq!(a.merge(&d), Ok(()));
    assert_eq!(a.len(), 3);
}

#[test]
fn grow_only_set_never_shrinks() {
    let mut set: GrowOnlySet<i32> = Default::default();
    assert!(set.is_empty());
    set.insert(-3);
    set.insert(4);
    set.insert(-3);
    assert_eq!(set.len(), 2);
    set.cleanup(i64::MAX);
    assert_eq!(set.members(), vec![-3, 4]);
    assert!(set.contains(&4));
    assert!(!set.contains(&5));
    assert_eq!(GrowOnlySet::from_members(vec![9, 1, 9, 5]).members(), vec![1, 5, 9]);
}

#[test]
fn map_insert_overwrites() {
    let mut map: CrdtMap<String, String, Fww> = Default::default();
    assert!(map.is_empty());
    map.insert(s("k"), s("one"), 9);
    map.insert(s("k"), s("two"), 5);
    assert_eq!(map.get(&s("k")), Some((&s("two"), 5)));
    map.insert(s("k"), s("three"), 7);
    assert_eq!(map.get(&s("k")), Some((&s("three"), 7)));
    assert!(map.contains_key(&s("k")));
    assert!(!map.contains_key(&s("j")));
    assert_eq!(map.get(&s("j")), None);
    assert_eq!(map.len(), 1);
    map.cleanup(1000);
    assert_eq!(map.len(), 1);
}

#[test]
fn map_merge_takes_keys_of_either_side() {
    let mut a: CrdtMap<u32, u32, Lww> = CrdtMap::new();
    a.insert(1, 10, 1);
    let mut b: CrdtMap<u32, u32, Lww> = CrdtMap::new();
    b.insert(2, 20, 2);
    assert_eq!(a.merge(&b), Ok(()));
    assert_eq!(a.entries(), vec![(1, (10, 1)), (2, (20, 2))]);
}

#[test]
fn fww_map_breaks_ties_by_the_smaller_value() {
    let mut a: CrdtMap<u32, u32, Fww> = CrdtMap::new();
    a.insert(1, 10, 5);
    let mut b: CrdtMap<u32, u32, Fww> = CrdtMap::new();
    b.insert(1, 7, 5);
    let mut ab = CrdtMap::<u32, u32, Fww>::from_entries(a.entries());
    assert_eq!(ab.merge(&b), Ok(()));
    assert_eq!(ab.get(&1), Some((&7, 5)));
    assert_eq!(b.merge(&a), Ok(()));
    assert_eq!(b.get(&1), Some((&7, 5)));
}

#[test]
fn lww_map_breaks_ties_by_the_larger_value() {
    let mut a: CrdtMap<u32, u32, Lww> = CrdtMap::new();
    a.insert(1, 10, 5);
    let mut b: CrdtMap<u32, u32, Lww> = CrdtMap::new();
    b.insert(1, 7, 5);
    let mut ab = CrdtMap::<u32, u32, Lww>::from_entries(a.entries());
    assert_eq!(ab.merge(&b), Ok(()));
    assert_eq!(ab.get(&1), Some((&10, 5)));
    assert_eq!(b.merge(&a), Ok(()));
    assert_eq!(b.get(&1), Some((&10, 5)));
}

#[test]
fn map_from_entries_lets_the_last_entry_of_a_key_stand() {
    let map = CrdtMap::<u32, u32, Fww>::from_entries(vec![(3, (1, 1)), (1, (2, 2)), (3, (9, 9))]);
    assert_eq!(map.entries(), vec![(1, (2, 2)), (3, (9, 9))]);
}

#[test]
fn strings_sort_by_their_bytes() {
    assert!(s("a").sorts_before(&s("b")));
    assert!(!s("b").sorts_before(&s("a")));
    assert!(!s("a").sorts_before(&s("a")));
    assert!(s("").sorts_before(&s("a")));
    assert!(s("ab").sorts_before(&s("abc")));
    assert!(s("Z").sorts_before(&s("a")));
    assert!(s("z").sorts_before(&s("é")));
    assert!(s("é").sorts_before(&s("日本")));
    assert!(s("a").same_as(&s("a")));
    assert!(!s("a").same_as(&s("b")));
    assert_eq!(s("copy").duplicate(), s("copy"));
    for (x, y) in [("a", "b"), ("", "a"), ("ab", "abc"), ("z", "é"), ("x", "x"), ("b", "a")] {
        assert_eq!(s(x).sorts_before(&s(y)), s(x) < s(y));
    }
}

#[test]
fn byte_strings_sort_lexicographically() {
    assert!(slice_lt(&[], &[0]));
    assert!(!slice_lt(&[], &[]));
    assert!(!slice_lt(&[0], &[]));
    assert!(slice_lt(&[1, 2], &[1, 3]));
    assert!(slice_lt(&[1, 2], &[1, 2, 0]));
    assert!(!slice_lt(&[2], &[1, 9, 9]));
    assert!(!slice_lt(&[1, 2], &[1, 2]));
}

#[test]
fn integers_sort_by_their_value() {
    assert!((-1i64).sorts_before(&0));
    assert!(!0i64.sorts_before(&-1));
    assert!(200u8.sorts_before(&201));
    assert!(!5u32.sorts_before(&5));
    assert!(5usize.same_as(&5));
    assert!(!5i8.same_as(&-5));
    assert_eq!(i16::MIN.duplicate(), i16::MIN);
    assert!(i32::MIN.sorts_before(&i32::MAX));
    assert!(0u16.sorts_before(&u16::MAX));
    assert!(1u64.sorts_before(&2));
    assert!((-2isize).sorts_before(&-1));
}

#[test]
fn sorted_map_finds_every_key_it_holds() {
    let mut map: SortedMap<u32, i64> = SortedMap::new();
    assert_eq!(map.len(), 0);
    for k in (0..200u32).rev().filter(|k| k % 2 == 0) {
        map.insert(k, k as i64 * 10);
    }
    assert_eq!(map.len(), 100);
    for k in 0..200u32 {
        assert_eq!(map.contains_key(&k), k % 2 == 0);
        assert_eq!(map.get(&k).copied(), if k % 2 == 0 { Some(k as i64 * 10) } else { None });
        let (found, at) = map.locate(&k);
        assert_eq!(found, k % 2 == 0);
        assert_eq!(at as u32, (k + 1) / 2);
    }
    assert_eq!(map.entry(3), (&6, &60));
}

#[test]
fn sorted_map_changes_entries_in_place() {
    let mut map: SortedMap<u32, i64> = SortedMap::new();
    map.insert(2, 20);
    map.insert(1, 10);
    map.insert(3, 30);
    map.insert(2, 21);
    assert_eq!(map.len(), 3);
    assert_eq!(map.get(&2), Some(&21));
    map.set_value(0, 11);
    assert_eq!(map.entry(0), (&1, &11));
    assert_eq!(map.remove_at(1), (2, 21));
    assert_eq!(map.len(), 2);
    assert_eq!(map.entry(1), (&3, &30));
    assert!(!map.contains_key(&2));
}

#[test]
fn sorted_map_retains_what_passes_the_test() {
    let mut map: SortedMap<u32, i64> = SortedMap::new();
    for k in 0..10u32 {
        map.insert(k, k as i64);
    }
    map.retain(&LiveAfter { now: 6 });
    assert_eq!(map.len(), 3);
    assert_eq!(map.entry(0), (&7, &7));
    assert_eq!(map.entry(2), (&9, &9));
    map.retain(&LiveAfter { now: 100 });
    assert_eq!(map.len(), 0);
}

#[test]
fn atoms_sort_by_kind_and_then_by_value() {
    let ascending = vec![
        Atom::Int(i64::MIN),
        Atom::Int(-1),
        Atom::Int(7),
        Atom::Text(s("")),
        Atom::Text(s("a")),
        Atom::Text(s("ab")),
        Atom::Text(s("b")),
        Atom::Bytes(vec![]),
        Atom::Bytes(vec![0]),
        Atom::Bytes(vec![0, 1]),
        Atom::Bytes(vec![9]),
    ];
    for (i, x) in ascending.iter().enumerate() {
        for (j, y) in ascending.iter().enumerate() {
            assert_eq!(x.sorts_before(y), i < j);
            assert_eq!(x.same_as(y), i == j);
        }
        assert_eq!(&x.duplicate(), x);
    }
}

#[test]
fn atoms_of_all_kinds_share_a_container() {
    let mut set = GrowOnlySet::new();
    set.insert(Atom::Bytes(vec![1, 2]));
    set.insert(Atom::Text(s("x")));
    set.insert(Atom::Int(3));
    set.insert(Atom::Text(s("x")));
    assert_eq!(set.members(), vec![Atom::Int(3), Atom::Text(s("x")), Atom::Bytes(vec![1, 2])]);
    assert!(set.contains(&Atom::Int(3)));
    assert!(!set.contains(&Atom::Text(s("3"))));
}
