use replica_crdt::crdt::Crdt;
use replica_crdt::crdt_map::{CrdtMap, Fww, Lww, Mode};
use replica_crdt::expiring_set::ExpiringSet;
use replica_crdt::grow_only_set::GrowOnlySet;
use replica_crdt::register::ExpiringFWWRegister;
use replica_crdt::sized_set::SizedFWWExpiringSet;

/// A small generator of repeatable pseudo-random numbers.
struct Numbers(u64);

impl Numbers {
    fn next(&mut self, bound: u64) -> u64 {
        self.0 = self.0.wrapping_mul(6364136223846793005).wrapping_add(1442695040888963407);
        (self.0 >> 33) % bound
    }
}

fn some_expiring_set(n: &mut Numbers) -> ExpiringSet<u32> {
    let mut set = ExpiringSet::new();
    for _ in 0..n.next(6) {
        set.insert(n.next(5) as u32, n.next(8) as i64);
    }
    set
}

fn some_sized_set(n: &mut Numbers, capacity: usize) -> SizedFWWExpiringSet<u32> {
    let mut set = SizedFWWExpiringSet::new(capacity);
    for _ in 0..n.next(7) {
        set.insert(n.next(6) as u32, n.next(4) as i64, n.next(8) as i64);
    }
    set
}

fn some_grow_only_set(n: &mut Numbers) -> GrowOnlySet<u32> {
    let mut set = GrowOnlySet::new();
    for _ in 0..n.next(5) {
        set.insert(n.next(6) as u32);
    }
    set
}

fn some_map<M: Mode>(n: &mut Numbers) -> CrdtMap<u32, u32, M> {
    let mut map = CrdtMap::new();
    for _ in 0..n.next(5) {
        map.insert(n.next(4) as u32, n.next(3) as u32, n.next(3) as i64);
    }
    map
}

fn some_register(n: &mut Numbers) -> ExpiringFWWRegister<u32> {
    let mut register = ExpiringFWWRegister::new();
    if n.next(4) > 0 {
        register.set(n.next(3) as u32, n.next(3) as i64, n.next(3) as i64);
    }
    register
}

fn merged_expiring(a: &ExpiringSet<u32>, b: &ExpiringSet<u32>) -> Vec<(u32, i64)> {
    let mut r = ExpiringSet::from_entries(a.entries());
    assert_eq!(r.merge(b), Ok(()));
    r.entries()
}

fn merged_sized(a: &SizedFWWExpiringSet<u32>, b: &SizedFWWExpiringSet<u32>) -> SizedFWWExpiringSet<u32> {
    let mut r = SizedFWWExpiringSet::from_entries(a.capacity(), a.entries());
    assert_eq!(r.entries(), a.entries());
    assert_eq!(r.merge(b), Ok(()));
    r
}

fn merged_grow(a: &GrowOnlySet<u32>, b: &GrowOnlySet<u32>) -> GrowOnlySet<u32> {
    let mut r = GrowOnlySet::from_members(a.members());
    assert_eq!(r.merge(b), Ok(()));
    r
}

fn merged_map<M: Mode>(a: &CrdtMap<u32, u32, M>, b: &CrdtMap<u32, u32, M>) -> CrdtMap<u32, u32, M> {
    let mut r = CrdtMap::from_entries(a.entries());
    assert_eq!(r.merge(b), Ok(()));
    r
}

fn copy_of(a: &ExpiringFWWRegister<u32>) -> ExpiringFWWRegister<u32> {
    ExpiringFWWRegister { value: a.value, written: a.written, expires: a.expires }
}

fn state_of(a: &ExpiringFWWRegister<u32>) -> Option<(u32, i64, i64)> {
    a.value.map(|v| (v, a.written, a.expires))
}

fn merged_register(a: &ExpiringFWWRegister<u32>, b: &ExpiringFWWRegister<u32>) -> ExpiringFWWRegister<u32> {
    let mut r = copy_of(a);
    assert_eq!(r.merge(b), Ok(()));
    r
}

#[test]
fn expiring_set_merge_is_a_semilattice() {
    let mut n = Numbers(1);
    for _ in 0..300 {
        let (a, b, c) = (some_expiring_set(&mut n), some_expiring_set(&mut n), some_expiring_set(&mut n));
        assert_eq!(merged_expiring(&a, &a), a.entries());
        assert_eq!(merged_expiring(&a, &b), merged_expiring(&b, &a));
        let ab = ExpiringSet::from_entries(merged_expiring(&a, &b));
        let bc = ExpiringSet::from_entries(merged_expiring(&b, &c));
        assert_eq!(merged_expiring(&ab, &c), merged_expiring(&a, &bc));
    }
}

#[test]
fn sized_set_merge_is_a_semilattice() {
    let mut n = Numbers(2);
    for round in 0..400 {
        let capacity = round % 4;
        let a = some_sized_set(&mut n, capacity);
        let b = some_sized_set(&mut n, capacity);
        let c = some_sized_set(&mut n, capacity);
        assert_eq!(merged_sized(&a, &a).entries(), a.entries());
        assert_eq!(merged_sized(&a, &b).entries(), merged_sized(&b, &a).entries());
        let left = merged_sized(&merged_sized(&a, &b), &c);
        let right = merged_sized(&a, &merged_sized(&b, &c));
        assert_eq!(left.entries(), right.entries());
        assert!(left.len() <= capacity);
        assert_eq!(left.capacity(), capacity);
    }
}

#[test]
fn grow_only_set_merge_is_a_semilattice() {
    let mut n = Numbers(3);
    for _ in 0..200 {
        let (a, b, c) = (some_grow_only_set(&mut n), some_grow_only_set(&mut n), some_grow_only_set(&mut n));
        assert_eq!(merged_grow(&a, &a).members(), a.members());
        assert_eq!(merged_grow(&a, &b).members(), merged_grow(&b, &a).members());
        assert_eq!(
            merged_grow(&merged_grow(&a, &b), &c).members(),
            merged_grow(&a, &merged_grow(&b, &c)).members()
        );
        for v in a.members() {
            assert!(merged_grow(&a, &b).contains(&v));
        }
    }
}

#[test]
fn fww_map_merge_is_a_semilattice() {
    let mut n = Numbers(4);
    for _ in 0..300 {
        let (a, b, c) = (some_map::<Fww>(&mut n), some_map::<Fww>(&mut n), some_map::<Fww>(&mut n));
        assert_eq!(merged_map(&a, &a).entries(), a.entries());
        assert_eq!(merged_map(&a, &b).entries(), merged_map(&b, &a).entries());
        assert_eq!(
            merged_map(&merged_map(&a, &b), &c).entries(),
            merged_map(&a, &merged_map(&b, &c)).entries()
        );
    }
}

#[test]
fn lww_map_merge_is_a_semilattice() {
    let mut n = Numbers(5);
    for _ in 0..300 {
        let (a, b, c) = (some_map::<Lww>(&mut n), some_map::<Lww>(&mut n), some_map::<Lww>(&mut n));
        assert_eq!(merged_map(&a, &a).entries(), a.entries());
        assert_eq!(merged_map(&a, &b).entries(), merged_map(&b, &a).entries());
        assert_eq!(
            merged_map(&merged_map(&a, &b), &c).entries(),
            merged_map(&a, &merged_map(&b, &c)).entries()
        );
    }
}

/// The write `q` refreshes the earlier write `p` of the same value while the
/// write `r` of another value ranks between the two.
fn shadowed(p: (u32, i64, i64), q: (u32, i64, i64), r: (u32, i64, i64)) -> bool {
    let wins = |x: (u32, i64, i64), y: (u32, i64, i64)| x.1 < y.1 || (x.1 == y.1 && x.0 < y.0);
    p.0 == q.0 && p.0 != r.0 && q.2 > p.2 && wins(p, r) && wins(r, q)
}

#[test]
fn register_merge_is_idempotent_and_commutative() {
    let mut n = Numbers(6);
    for _ in 0..300 {
        let (a, b) = (some_register(&mut n), some_register(&mut n));
        assert_eq!(state_of(&merged_register(&a, &a)), state_of(&a));
        assert_eq!(state_of(&merged_register(&a, &b)), state_of(&merged_register(&b, &a)));
    }
}

#[test]
fn register_merge_is_associative_unless_a_refresh_is_shadowed() {
    let mut n = Numbers(7);
    let mut seen_failure = false;
    for _ in 0..2000 {
        let (a, b, c) = (some_register(&mut n), some_register(&mut n), some_register(&mut n));
        let left = state_of(&merged_register(&merged_register(&a, &b), &c));
        let right = state_of(&merged_register(&a, &merged_register(&b, &c)));
        let survives = match (state_of(&a), state_of(&b), state_of(&c)) {
            (Some(x), Some(y), Some(z)) => {
                !shadowed(x, y, z) && !shadowed(x, z, y) && !shadowed(z, x, y) && !shadowed(z, y, x)
            }
            _ => true,
        };
        assert_eq!(left == right, survives);
        seen_failure = seen_failure || !survives;
    }
    assert!(seen_failure);
}

#[test]
fn register_loses_a_shadowed_refresh() {
    let mut a = ExpiringFWWRegister::new();
    a.set(String::from("x"), 5, 100);
    let mut b = ExpiringFWWRegister::new();
    b.set(String::from("y"), 6, 10);
    let mut c = ExpiringFWWRegister::new();
    c.set(String::from("x"), 7, 200);

    let mut left = ExpiringFWWRegister::new();
    assert_eq!(left.merge(&a), Ok(()));
    assert_eq!(left.merge(&b), Ok(()));
    assert_eq!(left.merge(&c), Ok(()));
    assert_eq!((left.get(), left.written, left.expires), (Some(&String::from("x")), 5, 200));

    let mut bc = ExpiringFWWRegister::new();
    assert_eq!(bc.merge(&b), Ok(()));
    assert_eq!(bc.merge(&c), Ok(()));
    assert_eq!((bc.get(), bc.written, bc.expires), (Some(&String::from("y")), 6, 10));
    let mut right = ExpiringFWWRegister::new();
    assert_eq!(right.merge(&a), Ok(()));
    assert_eq!(right.merge(&bc), Ok(()));
    assert_eq!((right.get(), right.written, right.expires), (Some(&String::from("x")), 5, 100));
}

#[test]
fn cleanup_twice_is_cleanup_once() {
    let mut n = Numbers(8);
    for _ in 0..200 {
        let now = n.next(8) as i64;

        let mut a = some_expiring_set(&mut n);
        a.cleanup(now);
        let once = a.entries();
        a.cleanup(now);
        assert_eq!(a.entries(), once);

        let mut b = some_sized_set(&mut n, 3);
        b.cleanup(now);
        let once = b.entries();
        b.cleanup(now);
        assert_eq!(b.entries(), once);

        let mut c = some_register(&mut n);
        c.cleanup(now);
        let once = state_of(&c);
        c.cleanup(now);
        assert_eq!(state_of(&c), once);

        let mut d = some_grow_only_set(&mut n);
        let before = d.members();
        d.cleanup(now);
        d.cleanup(now);
        assert_eq!(d.members(), before);

        let mut e = some_map::<Lww>(&mut n);
        let before = e.entries();
        e.cleanup(now);
        e.cleanup(now);
        assert_eq!(e.entries(), before);
    }
}

#[test]
fn snapshots_round_trip() {
    let mut n = Numbers(9);
    for _ in 0..200 {
        let a = some_expiring_set(&mut n);
        assert_eq!(ExpiringSet::from_entries(a.entries()).entries(), a.entries());

        let b = some_sized_set(&mut n, 3);
        let back = SizedFWWExpiringSet::from_entries(b.capacity(), b.entries());
        assert_eq!(back.entries(), b.entries());
        assert_eq!(back.capacity(), b.capacity());

        let c = some_grow_only_set(&mut n);
        assert_eq!(GrowOnlySet::from_members(c.members()).members(), c.members());

        let d = some_map::<Fww>(&mut n);
        assert_eq!(CrdtMap::<u32, u32, Fww>::from_entries(d.entries()).entries(), d.entries());
    }
}

#[test]
fn snapshots_are_in_ascending_order() {
    let mut set = ExpiringSet::new();
    for v in [5u32, 1, 4, 2, 3, 1, 5] {
        set.insert(v, 10);
    }
    assert_eq!(set.entries(), vec![(1, 10), (2, 10), (3, 10), (4, 10), (5, 10)]);

    let mut forward = GrowOnlySet::new();
    let mut backward = GrowOnlySet::new();
    for v in 0..50u64 {
        forward.insert(v);
        backward.insert(49 - v);
    }
    assert_eq!(forward.members(), backward.members());
    assert_eq!(forward.members(), (0..50u64).collect::<Vec<u64>>());
}
