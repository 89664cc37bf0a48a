//! A fixed little-endian byte layout for plain values.

use vstd::prelude::*;

verus! {

pub open spec fn pow256(n: nat) -> nat
    decreases n,
{
    if n == 0 {
        1
    } else {
        256 * pow256((n - 1) as nat)
    }
}

/// The `n` low-order base-256 digits of `v`, least significant first.
pub open spec fn le_bytes(v: nat, n: nat) -> Seq<u8>
    decreases n,
{
    if n == 0 {
        Seq::empty()
    } else {
        seq![(v % 256) as u8] + le_bytes(v / 256, (n - 1) as nat)
    }
}

/// The number whose base-256 digits, least significant first, are `s`.
pub open spec fn le_value(s: Seq<u8>) -> nat
    decreases s.len(),
{
    if s.len() == 0 {
        0
    } else {
        s[0] as nat + 256 * le_value(s.drop_first())
    }
}

pub proof fn lemma_pow256_mono(a: nat, b: nat)
    requires
        a <= b,
    ensures
        1 <= pow256(a) <= pow256(b),
    decreases b,
{
    if a < b {
        lemma_pow256_mono(a, (b - 1) as nat);
    } else if a > 0 {
        lemma_pow256_mono((a - 1) as nat, (a - 1) as nat);
    }
}

pub proof fn lemma_pow256_values()
    ensures
        pow256(1) == 0x100,
        pow256(2) == 0x1_0000,
        pow256(4) == 0x1_0000_0000,
        pow256(7) == 0x100_0000_0000_0000,
        pow256(8) == 0x1_0000_0000_0000_0000,
{
    reveal_with_fuel(pow256, 9);
}

/// Reading back the digits of a number that fits gives the number.
pub proof fn lemma_le_round_trip(v: nat, n: nat)
    requires
        v < pow256(n),
    ensures
        le_bytes(v, n).len() == n,
        le_value(le_bytes(v, n)) == v,
    decreases n,
{
    if n > 0 {
        lemma_le_round_trip(v / 256, (n - 1) as nat);
        let s = le_bytes(v, n);
        assert(s.drop_first() =~= le_bytes(v / 256, (n - 1) as nat));
    }
}

pub proof fn lemma_le_value_bound(s: Seq<u8>)
    ensures
        le_value(s) < pow256(s.len()),
    decreases s.len(),
{
    if s.len() > 0 {
        lemma_le_value_bound(s.drop_first());
    }
}

/// Appends the `n` low-order little-endian bytes of `v`.
pub fn push_le(v: u64, n: usize, out: &mut Vec<u8>)
    ensures
        final(out)@ == old(out)@ + le_bytes(v as nat, n as nat),
    decreases n,
{
    if n == 0 {
        assert(old(out)@ + le_bytes(v as nat, 0) =~= old(out)@);
    } else {
        out.push((v % 256) as u8);
        push_le(v / 256, n - 1, out);
        assert(old(out)@ + le_bytes(v as nat, n as nat) =~= old(out)@.push((v % 256) as u8)
            + le_bytes((v / 256) as nat, (n - 1) as nat));
    }
}

/// Reads `n` little-endian bytes starting at `at`.
pub fn read_le(b: &[u8], at: usize, n: usize) -> (r: u64)
    requires
        at + n <= b@.len(),
        n <= 8,
    ensures
        r as nat == le_value(b@.subrange(at as int, at + n)),
    decreases n,
{
    if n == 0 {
        0
    } else {
        let len = b.len();
        let rest = read_le(b, at + 1, n - 1);
        proof {
            let s = b@.subrange(at as int, at + n);
            assert(s.drop_first() =~= b@.subrange(at + 1, at + n));
            lemma_le_value_bound(b@.subrange(at + 1, at + n));
            lemma_pow256_mono((n - 1) as nat, 7);
            lemma_pow256_values();
        }
        b[at] as u64 + 256 * rest
    }
}

/// The two's-complement code of `v` modulo `modulus`: `v` itself when
/// non-negative, else `v + modulus`.
pub open spec fn unsigned_code(v: int, modulus: int) -> nat {
    (if v < 0 { v + modulus } else { v }) as nat
}

/// A value with a fixed-size byte layout and no interior ownership, so that
/// a sequence of such values can be stored as bytes and restored.
pub trait PlainBytes: Copy + Sized {
    /// The number of bytes of every value.
    spec fn byte_len() -> nat;

    /// The bytes of a value.
    spec fn to_bytes_spec(self) -> Seq<u8>;

    fn byte_size() -> (r: usize)
        ensures
            r as nat == Self::byte_len(),
            0 < r <= 8,
    ;

    fn append_bytes(&self, out: &mut Vec<u8>)
        ensures
            final(out)@ == old(out)@ + self.to_bytes_spec(),
    ;

    /// The value whose bytes start at `at`, where some value has those bytes.
    fn read_bytes(bytes: &[u8], at: usize) -> (r: Self)
        requires
            at + Self::byte_len() <= bytes@.len(),
        ensures
            forall|v: Self|
                #[trigger] v.to_bytes_spec() == bytes@.subrange(at as int, at + Self::byte_len())
                    ==> r == v,
    ;

    proof fn lemma_bytes_len(v: Self)
        ensures
            v.to_bytes_spec().len() == Self::byte_len(),
    ;

    proof fn lemma_bytes_injective(a: Self, b: Self)
        requires
            a.to_bytes_spec() == b.to_bytes_spec(),
        ensures
            a == b,
    ;
}

impl PlainBytes for u8 {
    open spec fn byte_len() -> nat {
        1
    }

    open spec fn to_bytes_spec(self) -> Seq<u8> {
        le_bytes((self as nat), 1)
    }

    fn byte_size() -> (r: usize) {
        1
    }

    fn append_bytes(&self, out: &mut Vec<u8>) {
        let v = *self;
        push_le(v as u64, 1, out);
    }

    fn read_bytes(bytes: &[u8], at: usize) -> (r: Self) {
        let r = read_le(bytes, at, 1);
        proof {
            lemma_pow256_values();
            lemma_le_value_bound(bytes@.subrange(at as int, at + 1));
            assert forall|v: Self| #[trigger] v.to_bytes_spec() == bytes@.subrange(at as int, at + 1) implies r == (v as nat) by {
                lemma_le_round_trip((v as nat), 1);
            }
        }
        r as u8
    }

    proof fn lemma_bytes_len(v: Self) {
        lemma_pow256_values();
        lemma_le_round_trip((v as nat), 1);
    }

    proof fn lemma_bytes_injective(a: Self, b: Self) {
        lemma_pow256_values();
        lemma_le_round_trip((a as nat), 1);
        lemma_le_round_trip((b as nat), 1);
    }
}

impl PlainBytes for u16 {
    open spec fn byte_len() -> nat {
        2
    }

    open spec fn to_bytes_spec(self) -> Seq<u8> {
        le_bytes((self as nat), 2)
    }

    fn byte_size() -> (r: usize) {
        2
    }

    fn append_bytes(&self, out: &mut Vec<u8>) {
        let v = *self;
        push_le(v as u64, 2, out);
    }

    fn read_bytes(bytes: &[u8], at: usize) -> (r: Self) {
        let r = read_le(bytes, at, 2);
        proof {
            lemma_pow256_values();
            lemma_le_value_bound(bytes@.subrange(at as int, at + 2));
            assert forall|v: Self| #[trigger] v.to_bytes_spec() == bytes@.subrange(at as int, at + 2) implies r == (v as nat) by {
                lemma_le_round_trip((v as nat), 2);
            }
        }
        r as u16
    }

    proof fn lemma_bytes_len(v: Self) {
        lemma_pow256_values();
        lemma_le_round_trip((v as nat), 2);
    }

    proof fn lemma_bytes_injective(a: Self, b: Self) {
        lemma_pow256_values();
        lemma_le_round_trip((a as nat), 2);
        lemma_le_round_trip((b as nat), 2);
    }
}

impl PlainBytes for u32 {
    open spec fn byte_len() -> nat {
        4
    }

    open spec fn to_bytes_spec(self) -> Seq<u8> {
        le_bytes((self as nat), 4)
    }

    fn byte_size() -> (r: usize) {
        4
    }

    fn append_bytes(&self, out: &mut Vec<u8>) {
        let v = *self;
        push_le(v as u64, 4, out);
    }

    fn read_bytes(bytes: &[u8], at: usize) -> (r: Self) {
        let r = read_le(bytes, at, 4);
        proof {
            lemma_pow256_values();
            lemma_le_value_bound(bytes@.subrange(at as int, at + 4));
            assert forall|v: Self| #[trigger] v.to_bytes_spec() == bytes@.subrange(at as int, at + 4) implies r == (v as nat) by {
                lemma_le_round_trip((v as nat), 4);
            }
        }
        r as u32
    }

    proof fn lemma_bytes_len(v: Self) {
        lemma_pow256_values();
        lemma_le_round_trip((v as nat), 4);
    }

    proof fn lemma_bytes_injective(a: Self, b: Self) {
        lemma_pow256_values();
        lemma_le_round_trip((a as nat), 4);
        lemma_le_round_trip((b as nat), 4);
    }
}

impl PlainBytes for u64 {
    open spec fn byte_len() -> nat {
        8
    }

    open spec fn to_bytes_spec(self) -> Seq<u8> {
        le_bytes((self as nat), 8)
    }

    fn byte_size() -> (r: usize) {
        8
    }

    fn append_bytes(&self, out: &mut Vec<u8>) {
        let v = *self;
        push_le(v as u64, 8, out);
    }

    fn read_bytes(bytes: &[u8], at: usize) -> (r: Self) {
        let r = read_le(bytes, at, 8);
        proof {
            lemma_pow256_values();
            lemma_le_value_bound(bytes@.subrange(at as int, at + 8));
            assert forall|v: Self| #[trigger] v.to_bytes_spec() == bytes@.subrange(at as int, at + 8) implies r == (v as nat) by {
                lemma_le_round_trip((v as nat), 8);
            }
        }
        r
    }

    proof fn lemma_bytes_len(v: Self) {
        lemma_pow256_values();
        lemma_le_round_trip((v as nat), 8);
    }

    proof fn lemma_bytes_injective(a: Self, b: Self) {
        lemma_pow256_values();
        lemma_le_round_trip((a as nat), 8);
        lemma_le_round_trip((b as nat), 8);
    }
}

impl PlainBytes for i8 {
    open spec fn byte_len() -> nat {
        1
    }

    open spec fn to_bytes_spec(self) -> Seq<u8> {
        le_bytes(unsigned_code(self as int, 0x100), 1)
    }

    fn byte_size() -> (r: usize) {
        1
    }

    fn append_bytes(&self, out: &mut Vec<u8>) {
        let v = *self;
        push_le(if v < 0 { (v as i64 + 0x100) as u64 } else { v as u64 }, 1, out);
    }

    fn read_bytes(bytes: &[u8], at: usize) -> (r: Self) {
        let r = read_le(bytes, at, 1);
        proof {
            lemma_pow256_values();
            lemma_le_value_bound(bytes@.subrange(at as int, at + 1));
            assert forall|v: Self| #[trigger] v.to_bytes_spec() == bytes@.subrange(at as int, at + 1) implies r == unsigned_code(v as int, 0x100) by {
                lemma_le_round_trip(unsigned_code(v as int, 0x100), 1);
            }
        }
        if r >= 0x80 { (r as i64 - 0x100) as i8 } else { r as i8 }
    }

    proof fn lemma_bytes_len(v: Self) {
        lemma_pow256_values();
        lemma_le_round_trip(unsigned_code(v as int, 0x100), 1);
    }

    proof fn lemma_bytes_injective(a: Self, b: Self) {
        lemma_pow256_values();
        lemma_le_round_trip(unsigned_code(a as int, 0x100), 1);
        lemma_le_round_trip(unsigned_code(b as int, 0x100), 1);
    }
}

impl PlainBytes for i16 {
    open spec fn byte_len() -> nat {
        2
    }

    open spec fn to_bytes_spec(self) -> Seq<u8> {
        le_bytes(unsigned_code(self as int, 0x1_0000), 2)
    }

    fn byte_size() -> (r: usize) {
        2
    }

    fn append_bytes(&self, out: &mut Vec<u8>) {
        let v = *self;
        push_le(if v < 0 { (v as i64 + 0x1_0000) as u64 } else { v as u64 }, 2, out);
    }

    fn read_bytes(bytes: &[u8], at: usize) -> (r: Self) {
        let r = read_le(bytes, at, 2);
        proof {
            lemma_pow256_values();
            lemma_le_value_bound(bytes@.subrange(at as int, at + 2));
            assert forall|v: Self| #[trigger] v.to_bytes_spec() == bytes@.subrange(at as int, at + 2) implies r == unsigned_code(v as int, 0x1_0000) by {
                lemma_le_round_trip(unsigned_code(v as int, 0x1_0000), 2);
            }
        }
        if r >= 0x8000 { (r as i64 - 0x1_0000) as i16 } else { r as i16 }
    }

    proof fn lemma_bytes_len(v: Self) {
        lemma_pow256_values();
        lemma_le_round_trip(unsigned_code(v as int, 0x1_0000), 2);
    }

    proof fn lemma_bytes_injective(a: Self, b: Self) {
        lemma_pow256_values();
        lemma_le_round_trip(unsigned_code(a as int, 0x1_0000), 2);
        lemma_le_round_trip(unsigned_code(b as int, 0x1_0000), 2);
    }
}

impl PlainBytes for i32 {
    open spec fn byte_len() -> nat {
        4
    }

    open spec fn to_bytes_spec(self) -> Seq<u8> {
        le_bytes(unsigned_code(self as int, 0x1_0000_0000), 4)
    }

    fn byte_size() -> (r: usize) {
        4
    }

    fn append_bytes(&self, out: &mut Vec<u8>) {
        let v = *self;
        push_le(if v < 0 { (v as i64 + 0x1_0000_0000) as u64 } else { v as u64 }, 4, out);
    }

    fn read_bytes(bytes: &[u8], at: usize) -> (r: Self) {
        let r = read_le(bytes, at, 4);
        proof {
            lemma_pow256_values();
            lemma_le_value_bound(bytes@.subrange(at as int, at + 4));
            assert forall|v: Self| #[trigger] v.to_bytes_spec() == bytes@.subrange(at as int, at + 4) implies r == unsigned_code(v as int, 0x1_0000_0000) by {
                lemma_le_round_trip(unsigned_code(v as int, 0x1_0000_0000), 4);
            }
        }
        if r >= 0x8000_0000 { (r as i64 - 0x1_0000_0000) as i32 } else { r as i32 }
    }

    proof fn lemma_bytes_len(v: Self) {
        lemma_pow256_values();
        lemma_le_round_trip(unsigned_code(v as int, 0x1_0000_0000), 4);
    }

    proof fn lemma_bytes_injective(a: Self, b: Self) {
        lemma_pow256_values();
        lemma_le_round_trip(unsigned_code(a as int, 0x1_0000_0000), 4);
        lemma_le_round_trip(unsigned_code(b as int, 0x1_0000_0000), 4);
    }
}

impl PlainBytes for bool {
    open spec fn byte_len() -> nat {
        1
    }

    open spec fn to_bytes_spec(self) -> Seq<u8> {
        le_bytes((if self { 1nat } else { 0nat }), 1)
    }

    fn byte_size() -> (r: usize) {
        1
    }

    fn append_bytes(&self, out: &mut Vec<u8>) {
        let v = *self;
        push_le(if v { 1 } else { 0 }, 1, out);
    }

    fn read_bytes(bytes: &[u8], at: usize) -> (r: Self) {
        let r = read_le(bytes, at, 1);
        proof {
            lemma_pow256_values();
            lemma_le_value_bound(bytes@.subrange(at as int, at + 1));
            assert forall|v: Self| #[trigger] v.to_bytes_spec() == bytes@.subrange(at as int, at + 1) implies r == (if v { 1nat } else { 0nat }) by {
                lemma_le_round_trip((if v { 1nat } else { 0nat }), 1);
            }
        }
        r != 0
    }

    proof fn lemma_bytes_len(v: Self) {
        lemma_pow256_values();
        lemma_le_round_trip((if v { 1nat } else { 0nat }), 1);
    }

    proof fn lemma_bytes_injective(a: Self, b: Self) {
        lemma_pow256_values();
        lemma_le_round_trip((if a { 1nat } else { 0nat }), 1);
        lemma_le_round_trip((if b { 1nat } else { 0nat }), 1);
    }
}

} // verus!
