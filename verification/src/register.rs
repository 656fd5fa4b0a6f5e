//! A register that holds at most one value, for a bounded time, and in which
//! the first writer wins.
//!
//! A write replaces the held value only if it is logically earlier: written
//! at an earlier time, or at the same time with a value that sorts first. A
//! cleanup empties the register once the held value has expired; a later merge
//! with a peer that still holds an earlier write brings that write back.

use crate::crdt::Crdt;
use crate::error::MergeError;
use crate::order::{lt_asymmetric, lt_facts, Ordered};
use crate::ranking::outranks;
use vstd::prelude::*;

verus! {

/// What an occupied register holds: the value, the time at which it was
/// written and the time at which it expires.
pub struct Held<A> {
    pub value: A,
    pub written: i64,
    pub expires: i64,
}

/// A register with one optional slot. While `value` is `None` the register is
/// empty and the two times mean nothing.
pub struct ExpiringFWWRegister<T: Ordered> {
    pub value: Option<T>,
    pub written: i64,
    pub expires: i64,
}

impl<T: Ordered> View for ExpiringFWWRegister<T> {
    type V = Option<Held<T::V>>;

    /// What the register holds, or `None` for an empty register.
    open spec fn view(&self) -> Option<Held<T::V>> {
        match self.value {
            Some(v) => Some(Held { value: v@, written: self.written, expires: self.expires }),
            None => None,
        }
    }
}

/// The earlier of two times.
pub open spec fn earlier(a: i64, b: i64) -> i64 {
    if a <= b {
        a
    } else {
        b
    }
}

/// The later of two times.
pub open spec fn latest(a: i64, b: i64) -> i64 {
    if a >= b {
        a
    } else {
        b
    }
}

/// The write `x` wins against the write `y`: it is earlier, or as early with
/// a value that sorts first.
pub open spec fn wins<T: Ordered>(x: Held<T::V>, y: Held<T::V>) -> bool {
    outranks::<T>(x.value, x.written, y.value, y.written)
}

/// The state of a register in state `a` after a write was proposed to it.
pub open spec fn proposed<T: Ordered>(a: Option<Held<T::V>>, w: Held<T::V>) -> Option<Held<T::V>> {
    match a {
        None => Some(w),
        Some(h) => if wins::<T>(w, h) {
            Some(w)
        } else {
            a
        },
    }
}

/// What two occupied registers agree on. Two writes of the same value become
/// one, as early as the earlier and valid as long as the later. Of two writes
/// of different values the winner stays as it is.
pub open spec fn settled<T: Ordered>(x: Held<T::V>, y: Held<T::V>) -> Held<T::V> {
    if x.value == y.value {
        Held {
            value: x.value,
            written: earlier(x.written, y.written),
            expires: latest(x.expires, y.expires),
        }
    } else if wins::<T>(y, x) {
        y
    } else {
        x
    }
}

/// The write `q` refreshes the validity of the earlier write `p` of the same
/// value, and the write `r` of another value ranks between the two. Merged
/// with `r` first, `q` is lost before it can refresh `p`.
pub open spec fn shadowed<T: Ordered>(p: Held<T::V>, q: Held<T::V>, r: Held<T::V>) -> bool {
    &&& p.value == q.value
    &&& p.value != r.value
    &&& q.expires > p.expires
    &&& wins::<T>(p, r)
    &&& wins::<T>(r, q)
}

/// No grouping of the three states loses a refresh: whenever one of them
/// refreshes the validity of the winner, no third state stands between them
/// that is merged with the refresh first.
pub open spec fn refresh_survives<T: Ordered>(
    a: Option<Held<T::V>>,
    b: Option<Held<T::V>>,
    c: Option<Held<T::V>>,
) -> bool {
    match (a, b, c) {
        (Some(x), Some(y), Some(z)) => {
            &&& !shadowed::<T>(x, y, z)
            &&& !shadowed::<T>(x, z, y)
            &&& !shadowed::<T>(z, x, y)
            &&& !shadowed::<T>(z, y, x)
        },
        _ => true,
    }
}

impl<T: Ordered> ExpiringFWWRegister<T> {
    /// An empty register.
    pub fn new() -> (r: Self)
        ensures
            r@ == None::<Held<T::V>>,
    {
        ExpiringFWWRegister { value: None, written: 0, expires: 0 }
    }

    /// The held value, or `None` for an empty register.
    pub fn get(&self) -> (r: Option<&T>)
        ensures
            match r {
                Some(v) => self@ is Some && v@ == self@->0.value,
                None => self@ is None,
            },
    {
        match &self.value {
            Some(v) => Some(v),
            None => None,
        }
    }

    /// Proposes the write of `value` at `now`, valid until `expires`. The
    /// write takes the slot if the register is empty or if it wins against
    /// what the register holds; otherwise nothing changes.
    pub fn set(&mut self, value: T, now: i64, expires: i64)
        ensures
            final(self)@ == proposed::<T>(
                old(self)@,
                Held { value: value@, written: now, expires: expires },
            ),
    {
        let takes = match &self.value {
            None => true,
            Some(held) => now < self.written || (now == self.written && value.sorts_before(held)),
        };
        if takes {
            self.value = Some(value);
            self.written = now;
            self.expires = expires;
        }
    }

    /// Gives the held value a new expiry time. Does nothing to an empty
    /// register and does not count as a write.
    pub fn update_expiry(&mut self, expires: i64)
        ensures
            final(self)@ == match old(self)@ {
                Some(h) => Some(Held { value: h.value, written: h.written, expires: expires }),
                None => None,
            },
    {
        if self.value.is_some() {
            self.expires = expires;
        }
    }
}

impl<T: Ordered> Default for ExpiringFWWRegister<T> {
    /// An empty register.
    fn default() -> (r: Self)
        ensures
            r@ == None::<Held<T::V>>,
    {
        Self::new()
    }
}

impl<T: Ordered> Crdt for ExpiringFWWRegister<T> {
    /// Two registers can always be merged.
    open spec fn mergeable(a: Option<Held<T::V>>, b: Option<Held<T::V>>) -> bool {
        true
    }

    /// An empty register takes the state of the other; two occupied
    /// registers settle.
    open spec fn join(a: Option<Held<T::V>>, b: Option<Held<T::V>>) -> Option<Held<T::V>> {
        match (a, b) {
            (None, _) => b,
            (_, None) => a,
            (Some(x), Some(y)) => Some(settled::<T>(x, y)),
        }
    }

    /// The register is empty once what it holds has expired.
    open spec fn purge(a: Option<Held<T::V>>, now: i64) -> Option<Held<T::V>> {
        match a {
            Some(h) => if h.expires <= now {
                None
            } else {
                a
            },
            None => None,
        }
    }

    fn merge(&mut self, other: &Self) -> (r: Result<(), MergeError>) {
        match &other.value {
            None => {},
            Some(theirs) => {
                let (same, takes) = match &self.value {
                    None => (false, true),
                    Some(ours) => (
                        theirs.same_as(ours),
                        other.written < self.written || (other.written == self.written
                            && theirs.sorts_before(ours)),
                    ),
                };
                if same {
                    if other.written < self.written {
                        self.written = other.written;
                    }
                    if other.expires > self.expires {
                        self.expires = other.expires;
                    }
                } else if takes {
                    self.value = Some(theirs.duplicate());
                    self.written = other.written;
                    self.expires = other.expires;
                }
            },
        }
        Ok(())
    }

    fn cleanup(&mut self, now: i64) {
        if self.value.is_some() && self.expires <= now {
            self.value = None;
        }
    }
}

/// Merging a register with itself changes nothing.
pub proof fn merge_idempotent<T: Ordered>(a: ExpiringFWWRegister<T>)
    ensures
        ExpiringFWWRegister::<T>::join(a@, a@) == a@,
{
}

/// Merging two registers gives the same state in either direction.
pub proof fn merge_commutative<T: Ordered>(a: ExpiringFWWRegister<T>, b: ExpiringFWWRegister<T>)
    ensures
        ExpiringFWWRegister::<T>::join(a@, b@) == ExpiringFWWRegister::<T>::join(b@, a@),
{
    if let (Some(x), Some(y)) = (a@, b@) {
        if x.value != y.value {
            T::lt_connected(x.value, y.value);
            if T::lt(x.value, y.value) {
                lt_asymmetric::<T>(x.value, y.value);
            } else {
                lt_asymmetric::<T>(y.value, x.value);
            }
        }
    }
}

/// Merging three registers gives the same state in either grouping, exactly
/// when no grouping loses a refresh.
pub proof fn merge_associative<T: Ordered>(
    a: ExpiringFWWRegister<T>,
    b: ExpiringFWWRegister<T>,
    c: ExpiringFWWRegister<T>,
)
    ensures
        refresh_survives::<T>(a@, b@, c@) <==> ExpiringFWWRegister::<T>::join(
            ExpiringFWWRegister::<T>::join(a@, b@),
            c@,
        ) == ExpiringFWWRegister::<T>::join(a@, ExpiringFWWRegister::<T>::join(b@, c@)),
{
    if let (Some(x), Some(y), Some(z)) = (a@, b@, c@) {
        lt_facts::<T>(x.value, y.value, z.value);
    }
}

/// A second cleanup at the same time changes nothing.
pub proof fn cleanup_idempotent<T: Ordered>(a: ExpiringFWWRegister<T>, now: i64)
    ensures
        ExpiringFWWRegister::<T>::purge(ExpiringFWWRegister::<T>::purge(a@, now), now)
            == ExpiringFWWRegister::<T>::purge(a@, now),
{
}

} // verus!
