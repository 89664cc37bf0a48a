//! A dense array of values, one for each point of an extent.

use vstd::prelude::*;
use crate::lattice::{Extent3i, Point3i, lemma_linear_index_bounds, lemma_linear_index_injective};

verus! {

/// A linear index into the backing storage of an array.
#[derive(Clone, Copy, Debug, PartialEq, Eq, Structural)]
pub struct Stride(pub usize);

/// Values laid out in the linear order of an extent: x fastest, then y, then z.
pub struct Array3<T> {
    extent: Extent3i,
    values: Vec<T>,
}

impl<T> Array3<T> {
    pub closed spec fn spec_extent(&self) -> Extent3i {
        self.extent
    }

    pub closed spec fn spec_values(&self) -> Seq<T> {
        self.values@
    }

    /// One value for each point of the extent.
    pub open spec fn wf(&self) -> bool {
        &&& self.spec_extent().wf()
        &&& self.spec_values().len() == self.spec_extent().num_points_spec()
    }

    /// The value stored for the point `p`.
    pub open spec fn value_at(&self, p: Point3i) -> T {
        self.spec_values()[self.spec_extent().linear_index(p)]
    }

    /// Builds an array from values given in linear order.
    pub fn new(extent: Extent3i, values: Vec<T>) -> (r: Self)
        requires
            extent.wf(),
            values@.len() == extent.num_points_spec(),
        ensures
            r.wf(),
            r.spec_extent() == extent,
            r.spec_values() == values@,
    {
        Array3 { extent, values }
    }

    pub fn extent(&self) -> (r: &Extent3i)
        ensures
            *r == self.spec_extent(),
    {
        &self.extent
    }

    /// The values in linear order.
    pub fn values(&self) -> (r: &Vec<T>)
        ensures
            r@ == self.spec_values(),
    {
        &self.values
    }

    pub fn into_values(self) -> (r: Vec<T>)
        ensures
            r@ == self.spec_values(),
    {
        self.values
    }

    /// The stride of a point of the extent.
    pub fn stride_from_point(&self, p: &Point3i) -> (r: Stride)
        requires
            self.wf(),
            self.spec_extent().contains_spec(*p),
        ensures
            r.0 == self.spec_extent().linear_index(*p),
            r.0 < self.spec_values().len(),
    {
        proof {
            lemma_linear_index_bounds(self.extent, *p);
        }
        let e = &self.extent;
        let dx = (p.x as i64 - e.minimum.x as i64) as usize;
        let dy = (p.y as i64 - e.minimum.y as i64) as usize;
        let dz = (p.z as i64 - e.minimum.z as i64) as usize;
        let sx = e.shape.x as usize;
        let sy = e.shape.y as usize;
        proof {
            let n = self.values.len() as int;
            assert(0 <= dz * sy + dy) by (nonlinear_arith)
                requires
                    dz >= 0,
                    sy >= 0,
                    dy >= 0,
            ;
            assert(dz * sy <= (dz * sy + dy) * sx + dx || sx == 0) by (nonlinear_arith)
                requires
                    dz >= 0,
                    sy >= 0,
                    dy >= 0,
                    dx >= 0,
                    sx >= 0,
            ;
            assert(dz * sy + dy <= (dz * sy + dy) * sx + dx || sx == 0) by (nonlinear_arith)
                requires
                    dz * sy + dy >= 0,
                    dx >= 0,
                    sx >= 0,
            ;
            assert(sx > 0) by {
                assert(p.x - e.minimum.x < e.shape.x);
            }
        }
        Stride((dz * sy + dy) * sx + dx)
    }

    /// A mutable reference to the value at a linear index.
    pub fn value_mut(&mut self, i: usize) -> (r: &mut T)
        requires
            i < old(self).spec_values().len(),
        ensures
            *r == old(self).spec_values()[i as int],
            final(self).spec_extent() == old(self).spec_extent(),
            final(self).spec_values() == old(self).spec_values().update(i as int, *final(r)),
    {
        &mut self.values[i]
    }

    /// Replaces the value at one point.
    pub fn set(&mut self, p: Point3i, v: T)
        requires
            old(self).wf(),
            old(self).spec_extent().contains_spec(p),
        ensures
            final(self).wf(),
            final(self).spec_extent() == old(self).spec_extent(),
            final(self).value_at(p) == v,
            forall|q: Point3i|
                final(self).spec_extent().contains_spec(q) && q != p ==> #[trigger] final(self).value_at(q)
                    == old(self).value_at(q),
    {
        let s = self.stride_from_point(&p);
        self.values.set(s.0, v);
        proof {
            assert forall|q: Point3i|
                self.extent.contains_spec(q) && q != p implies #[trigger] self.value_at(q)
                    == old(self).value_at(q) by {
                lemma_linear_index_bounds(self.extent, q);
                if self.extent.linear_index(q) == self.extent.linear_index(p) {
                    lemma_linear_index_injective(self.extent, p, q);
                }
            }
        }
    }
}

impl<T: Copy> Array3<T> {
    /// An array that holds `value` at every point of `extent`.
    pub fn fill(extent: Extent3i, value: T) -> (r: Self)
        requires
            extent.wf(),
            extent.num_points_spec() <= usize::MAX,
        ensures
            r.wf(),
            r.spec_extent() == extent,
            forall|p: Point3i| extent.contains_spec(p) ==> #[trigger] r.value_at(p) == value,
    {
        let n = extent.num_points();
        let mut values: Vec<T> = Vec::with_capacity(n);
        let mut i: usize = 0;
        while i < n
            invariant
                i <= n,
                values@.len() == i,
                forall|j: int| 0 <= j < i ==> values@[j] == value,
            decreases n - i,
        {
            values.push(value);
            i = i + 1;
        }
        let r = Array3 { extent, values };
        proof {
            assert forall|p: Point3i| extent.contains_spec(p) implies #[trigger] r.value_at(p) == value by {
                lemma_linear_index_bounds(extent, p);
            }
        }
        r
    }
}

} // verus!
