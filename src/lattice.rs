//! Points and axis-aligned extents of the 3-dimensional integer lattice.

use vstd::prelude::*;

verus! {

/// A point of the lattice; also used as the shape of an extent.
#[derive(Clone, Copy, Debug, PartialEq, Eq, Structural)]
pub struct Point3i {
    pub x: i32,
    pub y: i32,
    pub z: i32,
}

impl Point3i {
    pub fn new(x: i32, y: i32, z: i32) -> (r: Self)
        ensures
            r == (Point3i { x, y, z }),
    {
        Point3i { x, y, z }
    }

    /// The point with every coordinate equal to `v`.
    pub fn fill(v: i32) -> (r: Self)
        ensures
            r == (Point3i { x: v, y: v, z: v }),
    {
        Point3i { x: v, y: v, z: v }
    }
}

/// The half-open interval `[lo, lo + len)` holds `v`.
pub open spec fn in_span(lo: int, len: int, v: int) -> bool {
    lo <= v < lo + len
}

/// An axis-aligned box of lattice points: its minimum corner and its shape.
#[derive(Clone, Copy, Debug, PartialEq, Eq, Structural)]
pub struct Extent3i {
    pub minimum: Point3i,
    pub shape: Point3i,
}

impl Extent3i {
    /// Every side of the shape is non-negative.
    pub open spec fn wf(self) -> bool {
        self.shape.x >= 0 && self.shape.y >= 0 && self.shape.z >= 0
    }

    pub open spec fn contains_spec(self, p: Point3i) -> bool {
        &&& in_span(self.minimum.x as int, self.shape.x as int, p.x as int)
        &&& in_span(self.minimum.y as int, self.shape.y as int, p.y as int)
        &&& in_span(self.minimum.z as int, self.shape.z as int, p.z as int)
    }

    pub open spec fn num_points_spec(self) -> int {
        self.shape.x * self.shape.y * self.shape.z
    }

    /// Position of `p` in the linear order that runs x fastest, then y, then z.
    pub open spec fn linear_index(self, p: Point3i) -> int {
        ((p.z - self.minimum.z) * self.shape.y + (p.y - self.minimum.y)) * self.shape.x + (p.x
            - self.minimum.x)
    }

    pub fn from_min_and_shape(minimum: Point3i, shape: Point3i) -> (r: Self)
        ensures
            r == (Extent3i { minimum, shape }),
    {
        Extent3i { minimum, shape }
    }

    pub fn contains(&self, p: &Point3i) -> (r: bool)
        ensures
            r == self.contains_spec(*p),
    {
        let mx = self.minimum.x as i64;
        let my = self.minimum.y as i64;
        let mz = self.minimum.z as i64;
        mx <= p.x as i64 && (p.x as i64) < mx + self.shape.x as i64 && my <= p.y as i64 && (
        p.y as i64) < my + self.shape.y as i64 && mz <= p.z as i64 && (p.z as i64) < mz
            + self.shape.z as i64
    }

    /// The number of points, where it fits in a `usize`.
    pub fn num_points(&self) -> (r: usize)
        requires
            self.wf(),
            self.num_points_spec() <= usize::MAX,
        ensures
            r == self.num_points_spec(),
    {
        let sx = self.shape.x as u128;
        let sy = self.shape.y as u128;
        let sz = self.shape.z as u128;
        assert(sx * sy <= 0x8000_0000u128 * 0x8000_0000u128) by (nonlinear_arith)
            requires
                sx <= 0x8000_0000u128,
                sy <= 0x8000_0000u128,
        ;
        let sxy = sx * sy;
        assert(sxy * sz <= 0x8000_0000u128 * 0x8000_0000u128 * 0x8000_0000u128) by (nonlinear_arith)
            requires
                sxy <= 0x8000_0000u128 * 0x8000_0000u128,
                sz <= 0x8000_0000u128,
        ;
        (sxy * sz) as usize
    }

    /// The extent of the points that lie in both `self` and `other`.
    pub fn intersection(&self, other: &Extent3i) -> (r: Extent3i)
        requires
            self.wf(),
            other.wf(),
        ensures
            r.wf(),
            forall|p: Point3i| r.contains_spec(p) <==> self.contains_spec(p) && other.contains_spec(p),
    {
        let (x0, xs) = span_intersection(self.minimum.x, self.shape.x, other.minimum.x, other.shape.x);
        let (y0, ys) = span_intersection(self.minimum.y, self.shape.y, other.minimum.y, other.shape.y);
        let (z0, zs) = span_intersection(self.minimum.z, self.shape.z, other.minimum.z, other.shape.z);
        Extent3i { minimum: Point3i { x: x0, y: y0, z: z0 }, shape: Point3i { x: xs, y: ys, z: zs } }
    }
}

fn span_intersection(a: i32, alen: i32, b: i32, blen: i32) -> (r: (i32, i32))
    requires
        alen >= 0,
        blen >= 0,
    ensures
        r.1 >= 0,
        forall|v: int| in_span(r.0 as int, r.1 as int, v) <==> in_span(a as int, alen as int, v) && in_span(b as int, blen as int, v),
{
    let lo: i64 = if a >= b { a as i64 } else { b as i64 };
    let ae = a as i64 + alen as i64;
    let be = b as i64 + blen as i64;
    let hi: i64 = if ae <= be { ae } else { be };
    let len: i64 = if hi > lo { hi - lo } else { 0 };
    (lo as i32, len as i32)
}

/// Bounds on a product of three non-negative numbers.
pub proof fn lemma_product_bounds(a: int, b: int, c: int)
    requires
        a >= 0,
        b >= 0,
        c >= 0,
    ensures
        a * b >= 0,
        a * b * c >= 0,
        c > 0 ==> a * b <= a * b * c,
        b > 0 ==> a <= a * b,
{
    assert(a * b >= 0) by (nonlinear_arith)
        requires
            a >= 0,
            b >= 0,
    ;
    assert(a * b * c >= 0) by (nonlinear_arith)
        requires
            a * b >= 0,
            c >= 0,
    ;
    assert(c > 0 ==> a * b <= a * b * c) by (nonlinear_arith)
        requires
            a * b >= 0,
            c >= 0,
    ;
    assert(b > 0 ==> a <= a * b) by (nonlinear_arith)
        requires
            a >= 0,
            b >= 0,
    ;
}

/// A point of an extent has a linear index below the extent's number of points.
pub proof fn lemma_linear_index_bounds(e: Extent3i, p: Point3i)
    requires
        e.wf(),
        e.contains_spec(p),
    ensures
        0 <= e.linear_index(p) < e.num_points_spec(),
{
    let sx = e.shape.x as int;
    let sy = e.shape.y as int;
    let sz = e.shape.z as int;
    let dx = p.x - e.minimum.x;
    let dy = p.y - e.minimum.y;
    let dz = p.z - e.minimum.z;
    assert(0 <= dz * sy + dy < sz * sy) by (nonlinear_arith)
        requires
            0 <= dz < sz,
            0 <= dy < sy,
    ;
    let a = dz * sy + dy;
    assert(0 <= a * sx + dx < (sz * sy) * sx) by (nonlinear_arith)
        requires
            0 <= a < sz * sy,
            0 <= dx < sx,
    ;
    assert((sz * sy) * sx == sx * sy * sz) by (nonlinear_arith);
}

/// `a * n + r` with `0 <= r < n` determines `a` and `r`.
pub proof fn lemma_mixed_radix_unique(a1: int, r1: int, a2: int, r2: int, n: int)
    requires
        0 <= r1 < n,
        0 <= r2 < n,
        a1 * n + r1 == a2 * n + r2,
    ensures
        a1 == a2,
        r1 == r2,
{
    if a1 < a2 {
        assert(a1 * n + n <= a2 * n) by (nonlinear_arith)
            requires
                a1 < a2,
                n > 0,
        ;
    } else if a2 < a1 {
        assert(a2 * n + n <= a1 * n) by (nonlinear_arith)
            requires
                a2 < a1,
                n > 0,
        ;
    }
}

/// Distinct points of an extent have distinct linear indices.
pub proof fn lemma_linear_index_injective(e: Extent3i, p: Point3i, q: Point3i)
    requires
        e.wf(),
        e.contains_spec(p),
        e.contains_spec(q),
        e.linear_index(p) == e.linear_index(q),
    ensures
        p == q,
{
    let sx = e.shape.x as int;
    let sy = e.shape.y as int;
    lemma_mixed_radix_unique(
        (p.z - e.minimum.z) * sy + (p.y - e.minimum.y),
        p.x - e.minimum.x,
        (q.z - e.minimum.z) * sy + (q.y - e.minimum.y),
        q.x - e.minimum.x,
        sx,
    );
    lemma_mixed_radix_unique(p.z - e.minimum.z, p.y - e.minimum.y, q.z - e.minimum.z, q.y - e.minimum.y, sy);
}

} // verus!
