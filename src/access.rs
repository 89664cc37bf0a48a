//! Uniform point and extent access to lattice maps, and copying between them.

use vstd::prelude::*;
use crate::array::{Array3, Stride};
use crate::lattice::{Extent3i, Point3i, lemma_linear_index_bounds};

verus! {

/// What a lattice map holds, as seen through locations of type `L`.
pub trait LatticeMap<L, T> {
    /// The map's own invariant.
    spec fn map_wf(&self) -> bool;

    /// The map holds a value at `location`.
    spec fn in_domain(&self, location: L) -> bool;

    /// The value held at `location`.
    spec fn value(&self, location: L) -> T;
}

pub trait Get<L, T>: LatticeMap<L, T> {
    /// An owned copy of the value at `location`.
    fn get(&self, location: L) -> (r: T)
        requires
            self.in_domain(location),
        ensures
            r == self.value(location),
    ;
}

pub trait GetRef<L, T>: LatticeMap<L, T> {
    /// A shared reference to the value at `location`.
    fn get_ref(&self, location: L) -> (r: &T)
        requires
            self.in_domain(location),
        ensures
            *r == self.value(location),
    ;
}

pub trait GetMut<L, T>: LatticeMap<L, T> {
    /// A mutable reference to the value at `location`; writing through it
    /// changes that value and no other.
    fn get_mut(&mut self, location: L) -> (r: &mut T)
        requires
            old(self).in_domain(location),
        ensures
            *r == old(self).value(location),
            final(self).in_domain(location),
            final(self).value(location) == *final(r),
            forall|l: L| #[trigger] final(self).in_domain(l) == old(self).in_domain(l),
            forall|l: L|
                old(self).in_domain(l) && l != location ==> #[trigger] final(self).value(l) == old(
                    self,
                ).value(l),
    ;
}

pub trait ForEachMut<T>: LatticeMap<Point3i, T> + Sized {
    /// Replaces the value `v` at each point `p` of `extent` in the map's
    /// domain by `f(p, v)`; the domain and the other values stay.
    fn for_each_mut<F: Fn(Point3i, T) -> T>(&mut self, extent: &Extent3i, f: &F)
        requires
            old(self).map_wf(),
            extent.wf(),
            forall|p: Point3i, v: T|
                extent.contains_spec(p) && old(self).in_domain(p) ==> #[trigger] f.requires((p, v)),
        ensures
            final(self).map_wf(),
            forall|q: Point3i| #[trigger] final(self).in_domain(q) == old(self).in_domain(q),
            forall|q: Point3i|
                old(self).in_domain(q) ==> if extent.contains_spec(q) {
                    f.ensures((q, old(self).value(q)), #[trigger] final(self).value(q))
                } else {
                    final(self).value(q) == old(self).value(q)
                },
    ;
}

impl<T> LatticeMap<Point3i, T> for Array3<T> {
    open spec fn map_wf(&self) -> bool {
        self.wf()
    }

    open spec fn in_domain(&self, location: Point3i) -> bool {
        self.wf() && self.spec_extent().contains_spec(location)
    }

    open spec fn value(&self, location: Point3i) -> T {
        self.value_at(location)
    }
}

impl<T> LatticeMap<Stride, T> for Array3<T> {
    open spec fn map_wf(&self) -> bool {
        self.wf()
    }

    open spec fn in_domain(&self, location: Stride) -> bool {
        self.wf() && location.0 < self.spec_values().len()
    }

    open spec fn value(&self, location: Stride) -> T {
        self.spec_values()[location.0 as int]
    }
}

impl<T> GetRef<Point3i, T> for Array3<T> {
    fn get_ref(&self, location: Point3i) -> (r: &T) {
        let s = self.stride_from_point(&location);
        &self.values()[s.0]
    }
}

impl<T> GetRef<Stride, T> for Array3<T> {
    fn get_ref(&self, location: Stride) -> (r: &T) {
        &self.values()[location.0]
    }
}

impl<T: Copy> Get<Point3i, T> for Array3<T> {
    fn get(&self, location: Point3i) -> (r: T) {
        *self.get_ref(location)
    }
}

impl<T: Copy> Get<Stride, T> for Array3<T> {
    fn get(&self, location: Stride) -> (r: T) {
        *self.get_ref(location)
    }
}

impl<T> GetMut<Stride, T> for Array3<T> {
    fn get_mut(&mut self, location: Stride) -> (r: &mut T) {
        self.value_mut(location.0)
    }
}

impl<T> GetMut<Point3i, T> for Array3<T> {
    fn get_mut(&mut self, location: Point3i) -> (r: &mut T) {
        let s = self.stride_from_point(&location);
        proof {
            assert forall|q: Point3i, v: T|
                old(self).in_domain(q) && q != location implies #[trigger] old(self).spec_values().update(
                s.0 as int,
                v,
            )[old(self).spec_extent().linear_index(q)] == old(self).value(q) by {
                lemma_linear_index_bounds(self.spec_extent(), q);
                if old(self).spec_extent().linear_index(q) == s.0 {
                    crate::lattice::lemma_linear_index_injective(self.spec_extent(), q, location);
                }
            }
        }
        self.value_mut(s.0)
    }
}

impl<T: Copy> ForEachMut<T> for Array3<T> {
    fn for_each_mut<F: Fn(Point3i, T) -> T>(&mut self, extent: &Extent3i, f: &F) {
        self.update_extent(extent, f);
    }
}

/// `q` comes before `(x, y, z)` in the order that runs x fastest, then y, then z.
pub open spec fn precedes(q: Point3i, x: int, y: int, z: int) -> bool {
    q.z < z || (q.z == z && (q.y < y || (q.y == y && q.x < x)))
}

/// The value of `dst` at `q` after the points of `region` have been copied from `src`.
pub open spec fn copied_value<T>(dst: Array3<T>, src: Array3<T>, region: Extent3i, q: Point3i) -> T {
    if region.contains_spec(q) && src.spec_extent().contains_spec(q) {
        src.value_at(q)
    } else {
        dst.value_at(q)
    }
}

impl<T: Copy> Array3<T> {
    /// The part of `extent` that this array can supply, as pieces that
    /// together cover it: for an array, one piece.
    pub fn read_extent(&self, extent: &Extent3i) -> (r: Extent3i)
        requires
            self.wf(),
            extent.wf(),
        ensures
            r.wf(),
            forall|p: Point3i|
                r.contains_spec(p) <==> extent.contains_spec(p) && self.spec_extent().contains_spec(p),
    {
        extent.intersection(self.extent())
    }

    /// Replaces the value `v` at each point `p` of `extent` that the array
    /// holds by `f(p, v)`.
    pub fn update_extent<F: Fn(Point3i, T) -> T>(&mut self, extent: &Extent3i, f: &F)
        requires
            old(self).wf(),
            extent.wf(),
            forall|p: Point3i, v: T|
                extent.contains_spec(p) && old(self).spec_extent().contains_spec(p) ==> #[trigger] f.requires((p, v)),
        ensures
            final(self).wf(),
            final(self).spec_extent() == old(self).spec_extent(),
            forall|q: Point3i|
                final(self).spec_extent().contains_spec(q) ==> if extent.contains_spec(q) {
                    f.ensures((q, old(self).value_at(q)), #[trigger] final(self).value_at(q))
                } else {
                    final(self).value_at(q) == old(self).value_at(q)
                },
    {
        let ghost before = *self;
        let region = extent.intersection(self.extent());
        let x0 = region.minimum.x as i64;
        let y0 = region.minimum.y as i64;
        let z0 = region.minimum.z as i64;
        // Coordinates past `i32::MAX` belong to no point.
        let x1 = clamp_end(x0 + region.shape.x as i64);
        let y1 = clamp_end(y0 + region.shape.y as i64);
        let z1 = clamp_end(z0 + region.shape.z as i64);
        let mut z: i64 = z0;
        #[verifier::loop_isolation(false)]
        while z < z1
            invariant
                self.wf(),
                self.spec_extent() == before.spec_extent(),
                z0 <= z <= z1 || z1 <= z0 == z,
                forall|q: Point3i|
                    self.spec_extent().contains_spec(q) ==> if region.contains_spec(q) && precedes(q, x0 as int, y0 as int, z as int) {
                        f.ensures((q, before.value_at(q)), #[trigger] self.value_at(q))
                    } else {
                        self.value_at(q) == before.value_at(q)
                    },
            decreases z1 - z,
        {
            let mut y: i64 = y0;
            #[verifier::loop_isolation(false)]
            while y < y1
                invariant
                    self.wf(),
                    self.spec_extent() == before.spec_extent(),
                    z0 <= z < z1,
                    y0 <= y <= y1,
                    forall|q: Point3i|
                        self.spec_extent().contains_spec(q) ==> if region.contains_spec(q) && precedes(q, x0 as int, y as int, z as int) {
                            f.ensures((q, before.value_at(q)), #[trigger] self.value_at(q))
                        } else {
                            self.value_at(q) == before.value_at(q)
                        },
                decreases y1 - y,
            {
                let mut x: i64 = x0;
                #[verifier::loop_isolation(false)]
                while x < x1
                    invariant
                        self.wf(),
                        self.spec_extent() == before.spec_extent(),
                        z0 <= z < z1,
                        y0 <= y < y1,
                        x0 <= x <= x1,
                        forall|q: Point3i|
                            self.spec_extent().contains_spec(q) ==> if region.contains_spec(q) && precedes(q, x as int, y as int, z as int) {
                                f.ensures((q, before.value_at(q)), #[trigger] self.value_at(q))
                            } else {
                                self.value_at(q) == before.value_at(q)
                            },
                    decreases x1 - x,
                {
                    let p = Point3i { x: x as i32, y: y as i32, z: z as i32 };
                    assert(region.contains_spec(p));
                    let v = f(p, *self.get_ref(p));
                    self.set(p, v);
                    x = x + 1;
                }
                y = y + 1;
            }
            z = z + 1;
        }
    }

    /// Writes `src(p)` at each point `p` of `extent` that the array holds.
    pub fn write_extent_fn<F: Fn(Point3i) -> T>(&mut self, extent: &Extent3i, src: &F)
        requires
            old(self).wf(),
            extent.wf(),
            forall|p: Point3i|
                extent.contains_spec(p) && old(self).spec_extent().contains_spec(p) ==> #[trigger] src.requires((p,)),
        ensures
            final(self).wf(),
            final(self).spec_extent() == old(self).spec_extent(),
            forall|q: Point3i|
                final(self).spec_extent().contains_spec(q) ==> if extent.contains_spec(q) {
                    src.ensures((q,), #[trigger] final(self).value_at(q))
                } else {
                    final(self).value_at(q) == old(self).value_at(q)
                },
    {
        let ghost domain = self.spec_extent();
        let write = |p: Point3i, v: T| -> (r: T)
            requires
                extent.contains_spec(p) && domain.contains_spec(p),
            ensures
                src.ensures((p,), r),
            { src(p) };
        self.update_extent(extent, &write);
    }

    /// Writes the values of `src` at the points of `extent` that both arrays hold.
    pub fn write_extent(&mut self, extent: &Extent3i, src: &Array3<T>)
        requires
            old(self).wf(),
            src.wf(),
            extent.wf(),
        ensures
            final(self).wf(),
            final(self).spec_extent() == old(self).spec_extent(),
            forall|q: Point3i|
                final(self).spec_extent().contains_spec(q) ==> #[trigger] final(self).value_at(q)
                    == copied_value(*old(self), *src, *extent, q),
    {
        let region = extent.intersection(src.extent());
        let read = |p: Point3i| -> (v: T)
            requires
                src.wf(),
                src.spec_extent().contains_spec(p),
            ensures
                v == src.value_at(p),
            { *src.get_ref(p) };
        self.write_extent_fn(&region, &read);
    }
}

fn clamp_end(v: i64) -> (r: i64)
    ensures
        r as int == if v <= i32::MAX + 1 { v as int } else { i32::MAX + 1 },
{
    if v <= i32::MAX as i64 + 1 {
        v
    } else {
        i32::MAX as i64 + 1
    }
}

/// Writes `src(p)` into `dst_map` at each point `p` of `extent` that
/// `dst_map` holds: a copy from a map given as a function of the point.
pub fn copy_extent_from_fn<T: Copy, F: Fn(Point3i) -> T>(extent: &Extent3i, src: &F, dst_map: &mut Array3<T>)
    requires
        extent.wf(),
        old(dst_map).wf(),
        forall|p: Point3i|
            extent.contains_spec(p) && old(dst_map).spec_extent().contains_spec(p) ==> #[trigger] src.requires((p,)),
    ensures
        final(dst_map).wf(),
        final(dst_map).spec_extent() == old(dst_map).spec_extent(),
        forall|q: Point3i|
            final(dst_map).spec_extent().contains_spec(q) ==> if extent.contains_spec(q) {
                src.ensures((q,), #[trigger] final(dst_map).value_at(q))
            } else {
                final(dst_map).value_at(q) == old(dst_map).value_at(q)
            },
{
    dst_map.write_extent_fn(extent, src);
}

/// Copies the values of `src_map` at the points of `extent` into `dst_map`,
/// wherever `dst_map` holds those points.
pub fn copy_extent<T: Copy>(extent: &Extent3i, src_map: &Array3<T>, dst_map: &mut Array3<T>)
    requires
        extent.wf(),
        src_map.wf(),
        old(dst_map).wf(),
    ensures
        final(dst_map).wf(),
        final(dst_map).spec_extent() == old(dst_map).spec_extent(),
        forall|q: Point3i|
            final(dst_map).spec_extent().contains_spec(q) ==> #[trigger] final(dst_map).value_at(q)
                == copied_value(*old(dst_map), *src_map, *extent, q),
{
    let sub_extent = src_map.read_extent(extent);
    dst_map.write_extent(&sub_extent, src_map);
}

} // verus!
