//! `Ordered` for the integer types and for `String`.
//!
//! Each integer is ordered by `<`. A `String` is ordered as the standard
//! library orders it: by the bytes of its UTF-8 encoding.

use crate::order::{bytes_lt, bytes_lt_connected, bytes_lt_irreflexive, bytes_lt_transitive, slice_lt, Ordered};
use vstd::prelude::*;
use vstd::utf8::{encode_utf8, encode_utf8_decode_utf8};

verus! {

impl Ordered for u8 {
    open spec fn lt(a: u8, b: u8) -> bool {
        a < b
    }

    proof fn lt_irreflexive(a: u8) {
    }

    proof fn lt_transitive(a: u8, b: u8, c: u8) {
    }

    proof fn lt_connected(a: u8, b: u8) {
    }

    fn sorts_before(&self, other: &Self) -> (r: bool) {
        *self < *other
    }

    fn same_as(&self, other: &Self) -> (r: bool) {
        *self == *other
    }

    fn duplicate(&self) -> (r: Self) {
        *self
    }
}

impl Ordered for u16 {
    open spec fn lt(a: u16, b: u16) -> bool {
        a < b
    }

    proof fn lt_irreflexive(a: u16) {
    }

    proof fn lt_transitive(a: u16, b: u16, c: u16) {
    }

    proof fn lt_connected(a: u16, b: u16) {
    }

    fn sorts_before(&self, other: &Self) -> (r: bool) {
        *self < *other
    }

    fn same_as(&self, other: &Self) -> (r: bool) {
        *self == *other
    }

    fn duplicate(&self) -> (r: Self) {
        *self
    }
}

impl Ordered for u32 {
    open spec fn lt(a: u32, b: u32) -> bool {
        a < b
    }

    proof fn lt_irreflexive(a: u32) {
    }

    proof fn lt_transitive(a: u32, b: u32, c: u32) {
    }

    proof fn lt_connected(a: u32, b: u32) {
    }

    fn sorts_before(&self, other: &Self) -> (r: bool) {
        *self < *other
    }

    fn same_as(&self, other: &Self) -> (r: bool) {
        *self == *other
    }

    fn duplicate(&self) -> (r: Self) {
        *self
    }
}

impl Ordered for u64 {
    open spec fn lt(a: u64, b: u64) -> bool {
        a < b
    }

    proof fn lt_irreflexive(a: u64) {
    }

    proof fn lt_transitive(a: u64, b: u64, c: u64) {
    }

    proof fn lt_connected(a: u64, b: u64) {
    }

    fn sorts_before(&self, other: &Self) -> (r: bool) {
        *self < *other
    }

    fn same_as(&self, other: &Self) -> (r: bool) {
        *self == *other
    }

    fn duplicate(&self) -> (r: Self) {
        *self
    }
}

impl Ordered for usize {
    open spec fn lt(a: usize, b: usize) -> bool {
        a < b
    }

    proof fn lt_irreflexive(a: usize) {
    }

    proof fn lt_transitive(a: usize, b: usize, c: usize) {
    }

    proof fn lt_connected(a: usize, b: usize) {
    }

    fn sorts_before(&self, other: &Self) -> (r: bool) {
        *self < *other
    }

    fn same_as(&self, other: &Self) -> (r: bool) {
        *self == *other
    }

    fn duplicate(&self) -> (r: Self) {
        *self
    }
}

impl Ordered for i8 {
    open spec fn lt(a: i8, b: i8) -> bool {
        a < b
    }

    proof fn lt_irreflexive(a: i8) {
    }

    proof fn lt_transitive(a: i8, b: i8, c: i8) {
    }

    proof fn lt_connected(a: i8, b: i8) {
    }

    fn sorts_before(&self, other: &Self) -> (r: bool) {
        *self < *other
    }

    fn same_as(&self, other: &Self) -> (r: bool) {
        *self == *other
    }

    fn duplicate(&self) -> (r: Self) {
        *self
    }
}

impl Ordered for i16 {
    open spec fn lt(a: i16, b: i16) -> bool {
        a < b
    }

    proof fn lt_irreflexive(a: i16) {
    }

    proof fn lt_transitive(a: i16, b: i16, c: i16) {
    }

    proof fn lt_connected(a: i16, b: i16) {
    }

    fn sorts_before(&self, other: &Self) -> (r: bool) {
        *self < *other
    }

    fn same_as(&self, other: &Self) -> (r: bool) {
        *self == *other
    }

    fn duplicate(&self) -> (r: Self) {
        *self
    }
}

impl Ordered for i32 {
    open spec fn lt(a: i32, b: i32) -> bool {
        a < b
    }

    proof fn lt_irreflexive(a: i32) {
    }

    proof fn lt_transitive(a: i32, b: i32, c: i32) {
    }

    proof fn lt_connected(a: i32, b: i32) {
    }

    fn sorts_before(&self, other: &Self) -> (r: bool) {
        *self < *other
    }

    fn same_as(&self, other: &Self) -> (r: bool) {
        *self == *other
    }

    fn duplicate(&self) -> (r: Self) {
        *self
    }
}

impl Ordered for i64 {
    open spec fn lt(a: i64, b: i64) -> bool {
        a < b
    }

    proof fn lt_irreflexive(a: i64) {
    }

    proof fn lt_transitive(a: i64, b: i64, c: i64) {
    }

    proof fn lt_connected(a: i64, b: i64) {
    }

    fn sorts_before(&self, other: &Self) -> (r: bool) {
        *self < *other
    }

    fn same_as(&self, other: &Self) -> (r: bool) {
        *self == *other
    }

    fn duplicate(&self) -> (r: Self) {
        *self
    }
}

impl Ordered for isize {
    open spec fn lt(a: isize, b: isize) -> bool {
        a < b
    }

    proof fn lt_irreflexive(a: isize) {
    }

    proof fn lt_transitive(a: isize, b: isize, c: isize) {
    }

    proof fn lt_connected(a: isize, b: isize) {
    }

    fn sorts_before(&self, other: &Self) -> (r: bool) {
        *self < *other
    }

    fn same_as(&self, other: &Self) -> (r: bool) {
        *self == *other
    }

    fn duplicate(&self) -> (r: Self) {
        *self
    }
}

/// The order of two strings, decided on their UTF-8 encodings.
pub open spec fn text_lt(a: Seq<char>, b: Seq<char>) -> bool {
    bytes_lt(encode_utf8(a), encode_utf8(b))
}

impl Ordered for String {
    open spec fn lt(a: Seq<char>, b: Seq<char>) -> bool {
        text_lt(a, b)
    }

    proof fn lt_irreflexive(a: Seq<char>) {
        bytes_lt_irreflexive(encode_utf8(a));
    }

    proof fn lt_transitive(a: Seq<char>, b: Seq<char>, c: Seq<char>) {
        bytes_lt_transitive(encode_utf8(a), encode_utf8(b), encode_utf8(c));
    }

    proof fn lt_connected(a: Seq<char>, b: Seq<char>) {
        bytes_lt_connected(encode_utf8(a), encode_utf8(b));
        encode_utf8_decode_utf8(a);
        encode_utf8_decode_utf8(b);
    }

    fn sorts_before(&self, other: &Self) -> (r: bool) {
        slice_lt(self.as_str().as_bytes(), other.as_str().as_bytes())
    }

    fn same_as(&self, other: &Self) -> (r: bool) {
        *self == *other
    }

    fn duplicate(&self) -> (r: Self) {
        self.clone()
    }
}

} // verus!
