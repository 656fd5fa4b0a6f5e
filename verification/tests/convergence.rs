use replica_crdt::crdt::Crdt;
use replica_crdt::crdt_map::{CrdtMap, Fww, Lww};
use replica_crdt::expiring_set::ExpiringSet;
use replica_crdt::grow_only_set::GrowOnlySet;
use replica_crdt::register::ExpiringFWWRegister;
use replica_crdt::sized_set::SizedFWWExpiringSet;

fn s(text: &str) -> String {
    String::from(text)
}

#[test]
fn expiring_set_merge_keeps_the_later_bound() {
    let mut a: ExpiringSet<String> = ExpiringSet::new();
    a.insert(s("x"), 100);
    let mut b: ExpiringSet<String> = ExpiringSet::new();
    b.insert(s("x"), 50);

    let mut ab = ExpiringSet::from_entries(a.entries());
    assert_eq!(ab.merge(&b), Ok(()));
    assert_eq!(ab.expires(&s("x")), Some(100));

    let mut ba = ExpiringSet::from_entries(b.entries());
    assert_eq!(ba.merge(&a), Ok(()));
    assert_eq!(ba.expires(&s("x")), Some(100));
    assert_eq!(ab.entries(), ba.entries());
}

#[test]
fn sized_set_keeps_the_two_earliest_writers() {
    let mut set: SizedFWWExpiringSet<String> = SizedFWWExpiringSet::new(2);
    set.insert(s("a"), 5, 1000);
    set.insert(s("b"), 3, 1000);
    set.insert(s("c"), 10, 1000);
    assert_eq!(set.len(), 2);
    assert!(set.contains(&s("a")));
    assert!(set.contains(&s("b")));
    assert!(!set.contains(&s("c")));
    assert_eq!(set.entries(), vec![(s("a"), (5, 1000)), (s("b"), (3, 1000))]);
}

#[test]
fn register_converges_to_the_earlier_writer() {
    let mut a: ExpiringFWWRegister<String> = ExpiringFWWRegister::new();
    a.set(s("v1"), 10, 1000);
    let mut b: ExpiringFWWRegister<String> = ExpiringFWWRegister::new();
    b.set(s("v2"), 3, 1000);

    let mut a_then_b = ExpiringFWWRegister::new();
    assert_eq!(a_then_b.merge(&a), Ok(()));
    assert_eq!(a_then_b.merge(&b), Ok(()));
    assert_eq!(a.merge(&b), Ok(()));
    assert_eq!(b.merge(&a_then_b), Ok(()));

    assert_eq!(a.get(), Some(&s("v2")));
    assert_eq!(b.get(), Some(&s("v2")));
    assert_eq!(a_then_b.get(), Some(&s("v2")));
    assert_eq!(a.written, 3);
    assert_eq!(b.written, 3);
}

#[test]
fn lww_map_keeps_the_later_write() {
    let mut a: CrdtMap<String, i64, Lww> = CrdtMap::new();
    a.insert(s("k"), 1, 5);
    let mut b: CrdtMap<String, i64, Lww> = CrdtMap::new();
    b.insert(s("k"), 2, 9);

    let mut ab = CrdtMap::<String, i64, Lww>::from_entries(a.entries());
    assert_eq!(ab.merge(&b), Ok(()));
    assert_eq!(ab.get(&s("k")), Some((&2, 9)));
    assert_eq!(b.merge(&a), Ok(()));
    assert_eq!(b.get(&s("k")), Some((&2, 9)));
}

#[test]
fn fww_map_keeps_the_earlier_write() {
    let mut a: CrdtMap<String, i64, Fww> = CrdtMap::new();
    a.insert(s("k"), 1, 5);
    let mut b: CrdtMap<String, i64, Fww> = CrdtMap::new();
    b.insert(s("k"), 2, 9);

    let mut ab = CrdtMap::<String, i64, Fww>::from_entries(a.entries());
    assert_eq!(ab.merge(&b), Ok(()));
    assert_eq!(ab.get(&s("k")), Some((&1, 5)));
    assert_eq!(b.merge(&a), Ok(()));
    assert_eq!(b.get(&s("k")), Some((&1, 5)));
}

#[test]
fn grow_only_sets_converge_to_the_union() {
    let mut a: GrowOnlySet<String> = GrowOnlySet::new();
    a.insert(s("x"));
    let mut b: GrowOnlySet<String> = GrowOnlySet::new();
    b.insert(s("y"));

    let before = GrowOnlySet::from_members(a.members());
    assert_eq!(a.merge(&b), Ok(()));
    assert_eq!(b.merge(&before), Ok(()));
    assert_eq!(a.members(), vec![s("x"), s("y")]);
    assert_eq!(b.members(), vec![s("x"), s("y")]);
    assert!(a.contains(&s("x")) && a.contains(&s("y")));
}

#[test]
fn cleanup_drops_what_has_expired() {
    let mut set: ExpiringSet<String> = ExpiringSet::new();
    set.insert(s("x"), 500);
    set.insert(s("y"), 1500);
    set.cleanup(1000);
    assert!(!set.contains(&s("x")));
    assert!(set.contains(&s("y")));
    assert_eq!(set.entries(), vec![(s("y"), 1500)]);
}
