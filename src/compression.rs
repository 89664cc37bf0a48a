//! Array compression that stores the values' bytes, in their fixed layout,
//! through a byte-compression provider.

use vstd::prelude::*;
use std::marker::PhantomData;
use crate::array::Array3;
use crate::bytes::PlainBytes;
use crate::lattice::Extent3i;

verus! {

/// A lossless compressor of byte sequences.
pub trait BytesCompression {
    /// The bytes that `compressed` decompresses to.
    spec fn decoded(compressed: Seq<u8>) -> Seq<u8>;

    fn compress_bytes(&self, bytes: &[u8]) -> (r: Vec<u8>)
        ensures
            Self::decoded(r@) == bytes@,
    ;

    fn decompress_bytes(compressed: &[u8]) -> (r: Vec<u8>)
        ensures
            r@ == Self::decoded(compressed@),
    ;
}

/// The provider that stores bytes as they are.
#[derive(Clone, Copy, Debug)]
pub struct Uncompressed;

impl BytesCompression for Uncompressed {
    open spec fn decoded(compressed: Seq<u8>) -> Seq<u8> {
        compressed
    }

    fn compress_bytes(&self, bytes: &[u8]) -> (r: Vec<u8>) {
        copy_bytes(bytes)
    }

    fn decompress_bytes(compressed: &[u8]) -> (r: Vec<u8>) {
        copy_bytes(compressed)
    }
}

fn copy_bytes(b: &[u8]) -> (r: Vec<u8>)
    ensures
        r@ == b@,
{
    let mut r: Vec<u8> = Vec::with_capacity(b.len());
    let mut i: usize = 0;
    while i < b.len()
        invariant
            i <= b@.len(),
            r@ == b@.subrange(0, i as int),
        decreases b@.len() - i,
    {
        r.push(b[i]);
        i = i + 1;
    }
    assert(r@ =~= b@);
    r
}

/// The bytes of a sequence of values, one after the other.
pub open spec fn values_bytes<T: PlainBytes>(s: Seq<T>) -> Seq<u8>
    decreases s.len(),
{
    if s.len() == 0 {
        Seq::empty()
    } else {
        values_bytes(s.drop_last()) + s.last().to_bytes_spec()
    }
}

/// The `i`-th value's slot of `bytes` holds the bytes of `v`.
pub open spec fn decodes_to<T: PlainBytes>(bytes: Seq<u8>, i: int, v: T) -> bool {
    v.to_bytes_spec() == bytes.subrange(i * T::byte_len(), i * T::byte_len() + T::byte_len())
}

/// Each of `values` is the value whose bytes fill its slot of `bytes`.
pub open spec fn values_match<T: PlainBytes>(values: Seq<T>, bytes: Seq<u8>) -> bool {
    forall|i: int, v: T| 0 <= i < values.len() && #[trigger] decodes_to(bytes, i, v) ==> values[i] == v
}

pub proof fn lemma_values_bytes<T: PlainBytes>(s: Seq<T>)
    ensures
        values_bytes(s).len() == s.len() * T::byte_len(),
        forall|i: int| 0 <= i < s.len() ==> #[trigger] decodes_to(values_bytes(s), i, s[i]),
    decreases s.len(),
{
    let k = T::byte_len() as int;
    if s.len() == 0 {
        assert(0 * k == 0);
    } else {
        let t = s.drop_last();
        let n = t.len() as int;
        lemma_values_bytes(t);
        T::lemma_bytes_len(s.last());
        assert(n * k + k == (n + 1) * k) by (nonlinear_arith);
        let b = values_bytes(s);
        assert(b == values_bytes(t) + s.last().to_bytes_spec());
        assert(b.len() == s.len() * T::byte_len());
        assert forall|i: int| 0 <= i < s.len() implies #[trigger] decodes_to(b, i, s[i]) by {
            if i < n {
                assert(i * k + k <= n * k) by (nonlinear_arith)
                    requires
                        i < n,
                        k >= 0,
                ;
                assert(i * k >= 0) by (nonlinear_arith)
                    requires
                        i >= 0,
                        k >= 0,
                ;
                assert(decodes_to(values_bytes(t), i, t[i]));
                assert(b.subrange(i * k, i * k + k) =~= values_bytes(t).subrange(i * k, i * k + k));
            } else {
                assert(b.subrange(i * k, i * k + k) =~= s.last().to_bytes_spec());
            }
        }
    }
}

/// Why decompression failed.
#[derive(Clone, Copy, Debug, PartialEq, Eq, Structural)]
pub enum DecompressError {
    /// The provider gave a number of bytes other than the extent's values take.
    SizeMismatch { expected: usize, actual: usize },
}

/// Compresses arrays by handing the bytes of their values to `B`; the layout
/// is fixed, so no per-value encoding step is taken.
#[derive(Debug)]
pub struct FastArrayCompression<T, B> {
    pub bytes_compression: B,
    marker: PhantomData<T>,
}

/// A compressed array: the provider's bytes and the array's extent.
#[derive(Debug)]
pub struct FastCompressedArray<T, B> {
    compressed_bytes: Vec<u8>,
    extent: Extent3i,
    marker: PhantomData<(T, B)>,
}

impl<T, B> FastArrayCompression<T, B> {
    pub closed spec fn spec_bytes_compression(&self) -> B {
        self.bytes_compression
    }

    pub fn new(bytes_compression: B) -> (r: Self)
        ensures
            r.spec_bytes_compression() == bytes_compression,
    {
        FastArrayCompression { bytes_compression, marker: PhantomData }
    }
}

impl<T, B> FastCompressedArray<T, B> {
    pub closed spec fn spec_bytes(&self) -> Seq<u8> {
        self.compressed_bytes@
    }

    pub closed spec fn spec_extent(&self) -> Extent3i {
        self.extent
    }

    pub fn compressed_bytes(&self) -> (r: &[u8])
        ensures
            r@ == self.spec_bytes(),
    {
        self.compressed_bytes.as_slice()
    }

    pub fn extent(&self) -> (r: &Extent3i)
        ensures
            *r == self.spec_extent(),
    {
        &self.extent
    }
}

impl<T: PlainBytes, B> FastCompressedArray<T, B> {
    /// The extent is valid and the bytes of its values fit in memory.
    pub open spec fn wf(&self) -> bool {
        &&& self.spec_extent().wf()
        &&& self.spec_extent().num_points_spec() * T::byte_len() <= usize::MAX
    }
}

/// `c` holds the extent of `data` and bytes that decompress to its values' bytes.
pub open spec fn compressed_from<T: PlainBytes, B: BytesCompression>(
    c: FastCompressedArray<T, B>,
    data: Array3<T>,
) -> bool {
    &&& c.wf()
    &&& c.spec_extent() == data.spec_extent()
    &&& B::decoded(c.spec_bytes()) == values_bytes(data.spec_values())
}

/// `r` is what decompressing `c` owes: the array whose values' bytes are the
/// decompressed bytes when these have the right length, else the mismatch.
pub open spec fn decompressed_from<T: PlainBytes, B: BytesCompression>(
    r: Result<Array3<T>, DecompressError>,
    c: FastCompressedArray<T, B>,
) -> bool {
    let d = B::decoded(c.spec_bytes());
    let expected = c.spec_extent().num_points_spec() * T::byte_len();
    match r {
        Ok(a) => {
            &&& d.len() == expected
            &&& a.wf()
            &&& a.spec_extent() == c.spec_extent()
            &&& values_match(a.spec_values(), d)
        },
        Err(e) => {
            &&& d.len() != expected
            &&& e == DecompressError::SizeMismatch { expected: expected as usize, actual: d.len() as usize }
        },
    }
}

impl<T: PlainBytes, B: BytesCompression> FastArrayCompression<T, B> {
    /// Compresses the bytes of the array's values, in linear order.
    pub fn compress(&self, data: &Array3<T>) -> (r: FastCompressedArray<T, B>)
        requires
            data.wf(),
            data.spec_extent().num_points_spec() * T::byte_len() <= usize::MAX,
        ensures
            compressed_from(r, *data),
    {
        let values = data.values();
        let n = values.len();
        let mut bytes: Vec<u8> = Vec::new();
        let mut i: usize = 0;
        while i < n
            invariant
                n == values@.len(),
                values@ == data.spec_values(),
                i <= n,
                bytes@ == values_bytes(values@.subrange(0, i as int)),
            decreases n - i,
        {
            values[i].append_bytes(&mut bytes);
            assert(values@.subrange(0, i + 1).drop_last() =~= values@.subrange(0, i as int));
            i = i + 1;
        }
        assert(values@.subrange(0, n as int) =~= values@);
        let compressed_bytes = self.bytes_compression.compress_bytes(bytes.as_slice());
        FastCompressedArray { compressed_bytes, extent: *data.extent(), marker: PhantomData }
    }

    /// Restores the array, or reports that the provider gave the wrong number
    /// of bytes.
    pub fn decompress(compressed: &FastCompressedArray<T, B>) -> (r: Result<Array3<T>, DecompressError>)
        requires
            compressed.wf(),
        ensures
            decompressed_from(r, *compressed),
    {
        let k = T::byte_size();
        let extent = *compressed.extent();
        proof {
            crate::lattice::lemma_product_bounds(extent.shape.x as int, extent.shape.y as int, extent.shape.z as int);
            assert(extent.num_points_spec() <= extent.num_points_spec() * k) by (nonlinear_arith)
                requires
                    extent.num_points_spec() >= 0,
                    k >= 1,
            ;
        }
        let n = extent.num_points();
        let expected = n * k;
        let bytes = B::decompress_bytes(compressed.compressed_bytes());
        if bytes.len() != expected {
            return Err(DecompressError::SizeMismatch { expected, actual: bytes.len() });
        }
        let mut values: Vec<T> = Vec::with_capacity(n);
        let mut i: usize = 0;
        while i < n
            invariant
                i <= n,
                bytes@.len() == n * k,
                expected == n * k,
                k as nat == T::byte_len(),
                values@.len() == i,
                values_match(values@, bytes@),
            decreases n - i,
        {
            assert(i * k + k <= n * k) by (nonlinear_arith)
                requires
                    i < n,
                    k >= 0,
            ;
            let v = T::read_bytes(bytes.as_slice(), i * k);
            values.push(v);
            i = i + 1;
        }
        Ok(Array3::new(extent, values))
    }
}

/// Decompressing what `compress` made gives back the array it was given:
/// the same extent and the same values.
pub proof fn lemma_round_trip<T: PlainBytes, B: BytesCompression>(
    data: Array3<T>,
    c: FastCompressedArray<T, B>,
    r: Result<Array3<T>, DecompressError>,
)
    requires
        data.wf(),
        compressed_from(c, data),
        decompressed_from(r, c),
    ensures
        r is Ok,
        r->Ok_0.spec_extent() == data.spec_extent(),
        r->Ok_0.spec_values() == data.spec_values(),
{
    let s = data.spec_values();
    lemma_values_bytes(s);
    let a = r->Ok_0;
    assert forall|i: int| 0 <= i < s.len() implies a.spec_values()[i] == s[i] by {
        assert(decodes_to(values_bytes(s), i, s[i]));
    }
    assert(a.spec_values() =~= s);
}

} // verus!
