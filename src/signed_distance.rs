//! Fixed-point signed distances in `[-1, 1]`.

use vstd::prelude::*;
use crate::bytes::PlainBytes;
use crate::octree::IsEmpty;

verus! {

/// A value whose sign tells inside (negative) from outside.
pub trait SignedDistance: Sized {
    spec fn is_negative_spec(self) -> bool;

    fn is_negative(self) -> (r: bool)
        ensures
            r == self.is_negative_spec(),
    ;
}

/// A signed distance with 8 bits of precision: `Sd8(v)` stands for `v / 127`.
#[derive(Clone, Copy, Debug, PartialEq, Eq, Structural, PartialOrd, Ord, Hash)]
pub struct Sd8(pub i8);

/// A signed distance with 16 bits of precision: `Sd16(v)` stands for `v / 32767`.
#[derive(Clone, Copy, Debug, PartialEq, Eq, Structural, PartialOrd, Ord, Hash)]
pub struct Sd16(pub i16);

impl Sd8 {
    /// Minus one: the most negative value.
    pub fn neg_one() -> (r: Sd8)
        ensures
            r.0 == -128,
    {
        Sd8(-128)
    }

    /// One: the most positive value.
    pub fn one() -> (r: Sd8)
        ensures
            r == Sd8(127),
    {
        Sd8(127)
    }
}

impl Sd16 {
    /// Minus one: the most negative value.
    pub fn neg_one() -> (r: Sd16)
        ensures
            r.0 == -32768,
    {
        Sd16(-32768)
    }

    /// One: the most positive value.
    pub fn one() -> (r: Sd16)
        ensures
            r == Sd16(32767),
    {
        Sd16(32767)
    }
}

impl Default for Sd8 {
    /// Far outside: one.
    fn default() -> (r: Self)
        ensures
            r == Sd8(127),
    {
        Sd8(127)
    }
}

impl Default for Sd16 {
    /// Far outside: one.
    fn default() -> (r: Self)
        ensures
            r == Sd16(32767),
    {
        Sd16(32767)
    }
}

impl SignedDistance for Sd8 {
    open spec fn is_negative_spec(self) -> bool {
        self.0 < 0
    }

    fn is_negative(self) -> (r: bool) {
        self.0 < 0
    }
}

impl SignedDistance for Sd16 {
    open spec fn is_negative_spec(self) -> bool {
        self.0 < 0
    }

    fn is_negative(self) -> (r: bool) {
        self.0 < 0
    }
}

impl IsEmpty for Sd8 {
    /// A point outside the surface (non-negative distance) is empty.
    open spec fn is_empty_spec(&self) -> bool {
        !self.is_negative_spec()
    }

    fn is_empty(&self) -> (r: bool) {
        !self.is_negative()
    }
}

impl IsEmpty for Sd16 {
    /// A point outside the surface (non-negative distance) is empty.
    open spec fn is_empty_spec(&self) -> bool {
        !self.is_negative_spec()
    }

    fn is_empty(&self) -> (r: bool) {
        !self.is_negative()
    }
}

impl PlainBytes for Sd8 {
    open spec fn byte_len() -> nat {
        i8::byte_len()
    }

    open spec fn to_bytes_spec(self) -> Seq<u8> {
        self.0.to_bytes_spec()
    }

    fn byte_size() -> (r: usize) {
        i8::byte_size()
    }

    fn append_bytes(&self, out: &mut Vec<u8>) {
        self.0.append_bytes(out);
    }

    fn read_bytes(bytes: &[u8], at: usize) -> (r: Self) {
        let v = i8::read_bytes(bytes, at);
        proof {
            assert forall|s: Self| #[trigger] s.to_bytes_spec() == bytes@.subrange(at as int, at + Self::byte_len()) implies Sd8(v) == s by {
                assert(s.0.to_bytes_spec() == bytes@.subrange(at as int, at + i8::byte_len()));
            }
        }
        Sd8(v)
    }

    proof fn lemma_bytes_len(v: Self) {
        i8::lemma_bytes_len(v.0);
    }

    proof fn lemma_bytes_injective(a: Self, b: Self) {
        i8::lemma_bytes_injective(a.0, b.0);
    }
}

impl PlainBytes for Sd16 {
    open spec fn byte_len() -> nat {
        i16::byte_len()
    }

    open spec fn to_bytes_spec(self) -> Seq<u8> {
        self.0.to_bytes_spec()
    }

    fn byte_size() -> (r: usize) {
        i16::byte_size()
    }

    fn append_bytes(&self, out: &mut Vec<u8>) {
        self.0.append_bytes(out);
    }

    fn read_bytes(bytes: &[u8], at: usize) -> (r: Self) {
        let v = i16::read_bytes(bytes, at);
        proof {
            assert forall|s: Self| #[trigger] s.to_bytes_spec() == bytes@.subrange(at as int, at + Self::byte_len()) implies Sd16(v) == s by {
                assert(s.0.to_bytes_spec() == bytes@.subrange(at as int, at + i16::byte_len()));
            }
        }
        Sd16(v)
    }

    proof fn lemma_bytes_len(v: Self) {
        i16::lemma_bytes_len(v.0);
    }

    proof fn lemma_bytes_injective(a: Self, b: Self) {
        i16::lemma_bytes_injective(a.0, b.0);
    }
}

} // verus!
