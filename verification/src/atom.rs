//! The plain values that replicas of different kinds can exchange: integers,
//! texts and byte strings, in one total order.
//!
//! A container of atoms can hold values of the three kinds side by side. All
//! integers sort before all texts, and all texts before all byte strings;
//! within a kind the values sort as they do on their own.

use crate::order::{
    bytes_lt,
    bytes_lt_connected,
    bytes_lt_irreflexive,
    bytes_lt_transitive,
    slice_lt,
    Ordered,
};
use crate::values::text_lt;
use vstd::prelude::*;
use vstd::utf8::{encode_utf8, encode_utf8_decode_utf8};

verus! {

/// An integer, a text or a byte string.
#[derive(Debug, PartialEq, Eq)]
pub enum Atom {
    Int(i64),
    Text(String),
    Bytes(Vec<u8>),
}

/// What an atom stands for.
pub enum AtomView {
    Int(i64),
    Text(Seq<char>),
    Bytes(Seq<u8>),
}

impl View for Atom {
    type V = AtomView;

    open spec fn view(&self) -> AtomView {
        match self {
            Atom::Int(i) => AtomView::Int(*i),
            Atom::Text(t) => AtomView::Text(t@),
            Atom::Bytes(b) => AtomView::Bytes(b@),
        }
    }
}

impl Clone for Atom {
    /// A copy of the atom.
    fn clone(&self) -> (r: Self)
        ensures
            r@ == self@,
    {
        self.duplicate()
    }
}

/// The order of atoms: by kind first, then by value.
pub open spec fn atom_lt(a: AtomView, b: AtomView) -> bool {
    match (a, b) {
        (AtomView::Int(x), AtomView::Int(y)) => x < y,
        (AtomView::Int(_), _) => true,
        (AtomView::Text(_), AtomView::Int(_)) => false,
        (AtomView::Text(x), AtomView::Text(y)) => text_lt(x, y),
        (AtomView::Text(_), AtomView::Bytes(_)) => true,
        (AtomView::Bytes(x), AtomView::Bytes(y)) => bytes_lt(x, y),
        (AtomView::Bytes(_), _) => false,
    }
}

impl Ordered for Atom {
    open spec fn lt(a: AtomView, b: AtomView) -> bool {
        atom_lt(a, b)
    }

    proof fn lt_irreflexive(a: AtomView) {
        match a {
            AtomView::Int(_) => {},
            AtomView::Text(x) => {
                bytes_lt_irreflexive(encode_utf8(x));
            },
            AtomView::Bytes(x) => {
                bytes_lt_irreflexive(x);
            },
        }
    }

    proof fn lt_transitive(a: AtomView, b: AtomView, c: AtomView) {
        match (a, b, c) {
            (AtomView::Text(x), AtomView::Text(y), AtomView::Text(z)) => {
                bytes_lt_transitive(encode_utf8(x), encode_utf8(y), encode_utf8(z));
            },
            (AtomView::Bytes(x), AtomView::Bytes(y), AtomView::Bytes(z)) => {
                bytes_lt_transitive(x, y, z);
            },
            _ => {},
        }
    }

    proof fn lt_connected(a: AtomView, b: AtomView) {
        match (a, b) {
            (AtomView::Text(x), AtomView::Text(y)) => {
                bytes_lt_connected(encode_utf8(x), encode_utf8(y));
                encode_utf8_decode_utf8(x);
                encode_utf8_decode_utf8(y);
            },
            (AtomView::Bytes(x), AtomView::Bytes(y)) => {
                bytes_lt_connected(x, y);
            },
            _ => {},
        }
    }

    fn sorts_before(&self, other: &Self) -> (r: bool) {
        match (self, other) {
            (Atom::Int(x), Atom::Int(y)) => *x < *y,
            (Atom::Int(_), _) => true,
            (Atom::Text(_), Atom::Int(_)) => false,
            (Atom::Text(x), Atom::Text(y)) => slice_lt(x.as_str().as_bytes(), y.as_str().as_bytes()),
            (Atom::Text(_), Atom::Bytes(_)) => true,
            (Atom::Bytes(x), Atom::Bytes(y)) => slice_lt(x.as_slice(), y.as_slice()),
            (Atom::Bytes(_), _) => false,
        }
    }

    fn same_as(&self, other: &Self) -> (r: bool) {
        match (self, other) {
            (Atom::Int(x), Atom::Int(y)) => *x == *y,
            (Atom::Text(x), Atom::Text(y)) => *x == *y,
            (Atom::Bytes(x), Atom::Bytes(y)) => {
                proof {
                    bytes_lt_connected(x@, y@);
                    bytes_lt_irreflexive(x@);
                }
                !slice_lt(x.as_slice(), y.as_slice()) && !slice_lt(y.as_slice(), x.as_slice())
            },
            _ => false,
        }
    }

    fn duplicate(&self) -> (r: Self) {
        match self {
            Atom::Int(x) => Atom::Int(*x),
            Atom::Text(x) => Atom::Text(x.clone()),
            Atom::Bytes(x) => {
                let mut copy: Vec<u8> = Vec::new();
                let mut i: usize = 0;
                while i < x.len()
                    invariant
                        i <= x@.len(),
                        copy@ == x@.take(i as int),
                    decreases x@.len() - i,
                {
                    copy.push(x[i]);
                    proof {
                        assert(copy@ =~= x@.take(i + 1));
                    }
                    i += 1;
                }
                proof {
                    assert(x@.take(x@.len() as int) =~= x@);
                }
                Atom::Bytes(copy)
            },
        }
    }
}

} // verus!
