//! A sparse occupancy octree over a cube with power-of-two edge length.

use vstd::prelude::*;
use crate::array::Array3;
use crate::access::{GetRef, LatticeMap};
use crate::lattice::{Extent3i, Point3i, in_span};

verus! {

/// The boolean occupancy of a value: a value is either empty or occupied.
pub trait IsEmpty {
    spec fn is_empty_spec(&self) -> bool;

    fn is_empty(&self) -> (r: bool)
        ensures
            r == self.is_empty_spec(),
    ;
}

impl IsEmpty for bool {
    open spec fn is_empty_spec(&self) -> bool {
        !*self
    }

    fn is_empty(&self) -> (r: bool) {
        !*self
    }
}

pub open spec fn pow2(n: nat) -> nat
    decreases n,
{
    if n == 0 {
        1
    } else {
        2 * pow2((n - 1) as nat)
    }
}

/// The largest level of an octree: edge length `2^30`.
pub const MAX_POWER: u8 = 30;

pub proof fn lemma_pow2_bounds(n: nat)
    requires
        n <= 30,
    ensures
        1 <= pow2(n) <= 0x4000_0000,
        n > 0 ==> pow2(n) == 2 * pow2((n - 1) as nat),
{
    lemma_pow2_mono(n, 30);
    reveal_with_fuel(pow2, 31);
}

pub proof fn lemma_pow2_mono(a: nat, b: nat)
    requires
        a <= b,
    ensures
        1 <= pow2(a) <= pow2(b),
    decreases b,
{
    if a < b {
        lemma_pow2_mono(a, (b - 1) as nat);
    } else if a > 0 {
        lemma_pow2_mono((a - 1) as nat, (a - 1) as nat);
    }
}

/// A cube of the lattice: its minimum corner and its edge length.
#[derive(Clone, Copy, Debug, PartialEq, Eq, Structural)]
pub struct Octant {
    pub minimum: Point3i,
    pub edge_length: i32,
}

impl Octant {
    pub open spec fn contains_spec(self, p: Point3i) -> bool {
        &&& in_span(self.minimum.x as int, self.edge_length as int, p.x as int)
        &&& in_span(self.minimum.y as int, self.edge_length as int, p.y as int)
        &&& in_span(self.minimum.z as int, self.edge_length as int, p.z as int)
    }

    /// The cube has edge `2^power` and all of its points are `Point3i`s.
    pub open spec fn wf(self, power: nat) -> bool {
        &&& power <= MAX_POWER
        &&& self.edge_length == pow2(power)
        &&& self.minimum.x + self.edge_length <= 0x8000_0000
        &&& self.minimum.y + self.edge_length <= 0x8000_0000
        &&& self.minimum.z + self.edge_length <= 0x8000_0000
    }

    /// The extent that the cube covers.
    pub open spec fn extent_spec(self) -> Extent3i {
        Extent3i {
            minimum: self.minimum,
            shape: Point3i { x: self.edge_length, y: self.edge_length, z: self.edge_length },
        }
    }

    /// Child `i`: bit 0 of `i` picks the upper half in x, bit 1 in y, bit 2 in z.
    pub open spec fn child_spec(self, i: int) -> Octant {
        let half = self.edge_length / 2;
        Octant {
            minimum: Point3i {
                x: (self.minimum.x + if i % 2 == 1 { half } else { 0 }) as i32,
                y: (self.minimum.y + if (i / 2) % 2 == 1 { half } else { 0 }) as i32,
                z: (self.minimum.z + if (i / 4) % 2 == 1 { half } else { 0 }) as i32,
            },
            edge_length: half as i32,
        }
    }

    /// The child that holds `p`.
    pub open spec fn child_index_spec(self, p: Point3i) -> int {
        let half = self.edge_length / 2;
        (if p.x >= self.minimum.x + half { 1int } else { 0 }) + (if p.y >= self.minimum.y + half {
            2int
        } else {
            0
        }) + (if p.z >= self.minimum.z + half { 4int } else { 0 })
    }

    pub fn extent(&self) -> (r: Extent3i)
        ensures
            r == self.extent_spec(),
    {
        Extent3i { minimum: self.minimum, shape: Point3i::fill(self.edge_length) }
    }

    pub fn contains(&self, p: &Point3i) -> (r: bool)
        ensures
            r == self.contains_spec(*p),
    {
        self.extent().contains(p)
    }

    /// The index of the child that holds `p`.
    pub fn child_index(&self, p: &Point3i, power: u8) -> (r: u8)
        requires
            self.wf(power as nat),
            power > 0,
        ensures
            r as int == self.child_index_spec(*p),
    {
        proof {
            lemma_pow2_bounds(power as nat);
        }
        let half = self.edge_length / 2;
        let mut r: u8 = 0;
        if p.x as i64 >= self.minimum.x as i64 + half as i64 {
            r = r + 1;
        }
        if p.y as i64 >= self.minimum.y as i64 + half as i64 {
            r = r + 2;
        }
        if p.z as i64 >= self.minimum.z as i64 + half as i64 {
            r = r + 4;
        }
        r
    }

    pub fn child(&self, i: u8, power: u8) -> (r: Octant)
        requires
            self.wf(power as nat),
            power > 0,
            i < 8,
        ensures
            r == self.child_spec(i as int),
            r.wf((power - 1) as nat),
    {
        proof {
            lemma_pow2_bounds(power as nat);
        }
        let half = self.edge_length / 2;
        let k = i as i32;
        let x = self.minimum.x as i64 + if k % 2 == 1 { half as i64 } else { 0 };
        let y = self.minimum.y as i64 + if (k / 2) % 2 == 1 { half as i64 } else { 0 };
        let z = self.minimum.z as i64 + if (k / 4) % 2 == 1 { half as i64 } else { 0 };
        Octant { minimum: Point3i { x: x as i32, y: y as i32, z: z as i32 }, edge_length: half }
    }
}

/// A point of a cube of edge at least 2 lies in exactly the child that
/// `child_index` names.
pub proof fn lemma_child_of_point(o: Octant, power: nat, p: Point3i)
    requires
        o.wf(power),
        power > 0,
    ensures
        o.contains_spec(p) ==> 0 <= o.child_index_spec(p) < 8 && o.child_spec(o.child_index_spec(p)).contains_spec(p),
        forall|i: int| 0 <= i < 8 && #[trigger] o.child_spec(i).contains_spec(p) ==> o.contains_spec(p) && o.child_index_spec(p) == i,
{
    lemma_pow2_bounds(power);
    assert forall|i: int| 0 <= i < 8 && #[trigger] o.child_spec(i).contains_spec(p) implies o.contains_spec(p) && o.child_index_spec(p) == i by {
        if i == 0 {} else if i == 1 {} else if i == 2 {} else if i == 3 {}
        else if i == 4 {} else if i == 5 {} else if i == 6 {} else {}
    }
}

/// The stored classification of a cube: no occupied point, every point
/// occupied, or eight children, one for each octant.
#[derive(Debug)]
pub enum OctNode {
    Empty,
    Full,
    Branch(Vec<OctNode>),
}

/// The points of `o` that the node marks as occupied.
pub open spec fn node_contains(n: OctNode, o: Octant, p: Point3i) -> bool
    decreases n,
{
    match n {
        OctNode::Empty => false,
        OctNode::Full => o.contains_spec(p),
        OctNode::Branch(ch) => {
            let i = o.child_index_spec(p);
            &&& o.contains_spec(p)
            &&& 0 <= i < ch@.len()
            &&& node_contains(ch@[i], o.child_spec(i), p)
        },
    }
}

/// A branch has eight well-formed children one level down, which are neither
/// all empty nor all full.
pub open spec fn node_wf(n: OctNode, power: nat) -> bool
    decreases n,
{
    match n {
        OctNode::Branch(ch) => {
            &&& power > 0
            &&& ch@.len() == 8
            &&& forall|i: int| 0 <= i < 8 ==> node_wf(#[trigger] ch@[i], (power - 1) as nat)
            &&& exists|i: int| 0 <= i < 8 && !(ch@[i] is Empty)
            &&& exists|i: int| 0 <= i < 8 && !(ch@[i] is Full)
        },
        _ => true,
    }
}

/// The occupancy that an octree is built from: a point of `bounds` that the
/// array holds, with a value that is not empty.
pub open spec fn occupied<T: IsEmpty>(array: Array3<T>, bounds: Extent3i, p: Point3i) -> bool {
    &&& bounds.contains_spec(p)
    &&& array.spec_extent().contains_spec(p)
    &&& !array.value_at(p).is_empty_spec()
}

fn build_node<T: IsEmpty>(array: &Array3<T>, bounds: &Extent3i, o: Octant, power: u8) -> (r: OctNode)
    requires
        array.wf(),
        o.wf(power as nat),
    ensures
        node_wf(r, power as nat),
        forall|p: Point3i| #[trigger] node_contains(r, o, p) == (o.contains_spec(p) && occupied(*array, *bounds, p)),
    decreases power,
{
    if power == 0 {
        let p = o.minimum;
        let occ = bounds.contains(&p) && array.extent().contains(&p) && !array.get_ref(p).is_empty();
        proof {
            assert forall|q: Point3i| o.contains_spec(q) implies q == p by {}
        }
        if occ {
            OctNode::Full
        } else {
            OctNode::Empty
        }
    } else {
        let mut children: Vec<OctNode> = Vec::with_capacity(8);
        let mut all_empty = true;
        let mut all_full = true;
        let mut i: u8 = 0;
        while i < 8
            invariant
                array.wf(),
                o.wf(power as nat),
                power > 0,
                i <= 8,
                children@.len() == i,
                forall|j: int| 0 <= j < i ==> node_wf(#[trigger] children@[j], (power - 1) as nat),
                forall|j: int, p: Point3i|
                    0 <= j < i ==> #[trigger] node_contains(children@[j], o.child_spec(j), p) == (o.child_spec(j).contains_spec(p) && occupied(*array, *bounds, p)),
                all_empty == forall|j: int| 0 <= j < i ==> #[trigger] children@[j] is Empty,
                all_full == forall|j: int| 0 <= j < i ==> #[trigger] children@[j] is Full,
            decreases 8 - i,
        {
            let c = o.child(i, power);
            let child = build_node(array, bounds, c, power - 1);
            match child {
                OctNode::Empty => {
                    all_full = false;
                },
                OctNode::Full => {
                    all_empty = false;
                },
                OctNode::Branch(_) => {
                    all_empty = false;
                    all_full = false;
                },
            }
            let ghost prev = children@;
            children.push(child);
            proof {
                assert(children@ == prev.push(child));
                assert(children@[i as int] == child);
                assert(forall|j: int| 0 <= j < i ==> children@[j] == prev[j]);
                if !all_empty {
                    if child is Empty {
                        let j = choose|j: int| 0 <= j < i && !(prev[j] is Empty);
                        assert(!(children@[j] is Empty));
                    }
                }
                if !all_full {
                    if child is Full {
                        let j = choose|j: int| 0 <= j < i && !(prev[j] is Full);
                        assert(!(children@[j] is Full));
                    }
                }
            }
            i = i + 1;
        }
        if all_empty {
            proof {
                assert forall|p: Point3i| !(o.contains_spec(p) && occupied(*array, *bounds, p)) by {
                    lemma_child_of_point(o, power as nat, p);
                    if o.contains_spec(p) {
                        let j = o.child_index_spec(p);
                        assert(node_contains(children@[j], o.child_spec(j), p) == false);
                    }
                }
            }
            OctNode::Empty
        } else if all_full {
            proof {
                assert forall|p: Point3i| o.contains_spec(p) implies occupied(*array, *bounds, p) by {
                    lemma_child_of_point(o, power as nat, p);
                    let j = o.child_index_spec(p);
                    assert(node_contains(children@[j], o.child_spec(j), p));
                }
            }
            OctNode::Full
        } else {
            let r = OctNode::Branch(children);
            proof {
                assert forall|p: Point3i| #[trigger] node_contains(r, o, p) == (o.contains_spec(p) && occupied(*array, *bounds, p)) by {
                    lemma_child_of_point(o, power as nat, p);
                    if o.contains_spec(p) {
                        let j = o.child_index_spec(p);
                        assert(node_contains(children@[j], o.child_spec(j), p) == (o.child_spec(j).contains_spec(p) && occupied(*array, *bounds, p)));
                    }
                }
            }
            r
        }
    }
}

/// A node as handed to callers: its cube, its level, and whether it is a
/// full leaf (else a branch).
#[derive(Clone, Copy, Debug, PartialEq, Eq, Structural)]
pub struct OctreeNode {
    pub octant: Octant,
    pub power: u8,
    pub is_full: bool,
}

/// What a visitor tells the traversal after seeing a node.
#[derive(Clone, Copy, Debug, PartialEq, Eq, Structural)]
pub enum VisitStatus {
    /// Go on into the node's children, then to what follows.
    Continue,
    /// Skip the node's children; go on with what follows them.
    Stop,
}

/// The handle of a stored node: none for an empty cube.
pub open spec fn handle_of(n: OctNode, o: Octant, power: nat) -> Option<OctreeNode> {
    match n {
        OctNode::Empty => None,
        OctNode::Full => Some(OctreeNode { octant: o, power: power as u8, is_full: true }),
        OctNode::Branch(_) => Some(OctreeNode { octant: o, power: power as u8, is_full: false }),
    }
}

fn make_handle(n: &OctNode, o: Octant, power: u8) -> (r: Option<OctreeNode>)
    ensures
        r == handle_of(*n, o, power as nat),
{
    match n {
        OctNode::Empty => None,
        OctNode::Full => Some(OctreeNode { octant: o, power, is_full: true }),
        OctNode::Branch(_) => Some(OctreeNode { octant: o, power, is_full: false }),
    }
}

/// The subtree whose cube is `target`, with its level, found by descending
/// from `n` at `o`.
pub open spec fn subtree_at(n: OctNode, o: Octant, power: nat, target: Octant) -> Option<(OctNode, nat)>
    decreases n,
{
    if o == target {
        Some((n, power))
    } else {
        match n {
            OctNode::Branch(ch) => {
                let i = o.child_index_spec(target.minimum);
                if power > 0 && o.contains_spec(target.minimum) && target.edge_length < o.edge_length
                    && 0 <= i < ch@.len() {
                    subtree_at(ch@[i], o.child_spec(i), (power - 1) as nat, target)
                } else {
                    None
                }
            },
            _ => None,
        }
    }
}

fn find_subtree<'a>(n: &'a OctNode, o: Octant, power: u8, target: &Octant) -> (r: Option<(&'a OctNode, Octant, u8)>)
    requires
        o.wf(power as nat),
        node_wf(*n, power as nat),
    ensures
        match subtree_at(*n, o, power as nat, *target) {
            Some((m, pw)) => r is Some && *r->Some_0.0 == m && r->Some_0.1 == *target && r->Some_0.2 == pw
                && target.wf(pw) && node_wf(m, pw),
            None => r is None,
        },
    decreases power,
{
    if o == *target {
        return Some((n, o, power));
    }
    match n {
        OctNode::Branch(ch) => {
            if power > 0 && o.contains(&target.minimum) && target.edge_length < o.edge_length {
                let i = o.child_index(&target.minimum, power);
                proof {
                    lemma_child_of_point(o, power as nat, target.minimum);
                }
                let c = o.child(i, power);
                find_subtree(&ch[i as usize], c, power - 1, target)
            } else {
                None
            }
        },
        _ => None,
    }
}

fn query_node(n: &OctNode, o: Octant, power: u8, p: &Point3i) -> (r: bool)
    requires
        o.wf(power as nat),
        node_wf(*n, power as nat),
    ensures
        r == node_contains(*n, o, *p),
    decreases power,
{
    match n {
        OctNode::Empty => false,
        OctNode::Full => o.contains(p),
        OctNode::Branch(ch) => {
            if !o.contains(p) {
                return false;
            }
            let i = o.child_index(p, power);
            proof {
                lemma_child_of_point(o, power as nat, *p);
            }
            let c = o.child(i, power);
            query_node(&ch[i as usize], c, power - 1, p)
        },
    }
}

/// The nodes that a preorder traversal visits when it skips the children of
/// each branch whose handle `stop` holds of.
pub open spec fn preorder(n: OctNode, o: Octant, power: nat, stop: spec_fn(OctreeNode) -> bool) -> Seq<OctreeNode>
    decreases n, 9int,
{
    match n {
        OctNode::Empty => Seq::empty(),
        OctNode::Full => seq![OctreeNode { octant: o, power: power as u8, is_full: true }],
        OctNode::Branch(_) => {
            let h = OctreeNode { octant: o, power: power as u8, is_full: false };
            if stop(h) {
                seq![h]
            } else {
                seq![h] + children_preorder(n, o, power, stop, 8)
            }
        },
    }
}

/// The traversals of the first `k` children of a branch, one after another.
pub open spec fn children_preorder(
    n: OctNode,
    o: Octant,
    power: nat,
    stop: spec_fn(OctreeNode) -> bool,
    k: int,
) -> Seq<OctreeNode>
    decreases n, k,
{
    match n {
        OctNode::Branch(ch) => {
            if k <= 0 || k > ch@.len() {
                Seq::empty()
            } else {
                children_preorder(n, o, power, stop, k - 1) + preorder(
                    ch@[k - 1],
                    o.child_spec(k - 1),
                    (power - 1) as nat,
                    stop,
                )
            }
        },
        _ => Seq::empty(),
    }
}

/// The handles at which `visitor` answers `Stop`.
pub open spec fn stops_of<V: Fn(OctreeNode) -> VisitStatus>(visitor: V) -> spec_fn(OctreeNode) -> bool {
    |h: OctreeNode| visitor.ensures((h,), VisitStatus::Stop)
}

/// The visitor can be called on every handle and answers each the same way.
pub open spec fn visitor_ok<V: Fn(OctreeNode) -> VisitStatus>(visitor: V) -> bool {
    &&& forall|h: OctreeNode| visitor.requires((h,))
    &&& forall|h: OctreeNode, s1: VisitStatus, s2: VisitStatus|
        visitor.ensures((h,), s1) && visitor.ensures((h,), s2) ==> s1 == s2
}

fn visit_node<V: Fn(OctreeNode) -> VisitStatus>(
    n: &OctNode,
    o: Octant,
    power: u8,
    visitor: &V,
    out: &mut Vec<OctreeNode>,
)
    requires
        o.wf(power as nat),
        node_wf(*n, power as nat),
        visitor_ok(*visitor),
    ensures
        final(out)@ == old(out)@ + preorder(*n, o, power as nat, stops_of(*visitor)),
    decreases power,
{
    match n {
        OctNode::Empty => {
            assert(old(out)@ + Seq::<OctreeNode>::empty() =~= old(out)@);
        },
        OctNode::Full => {
            let h = OctreeNode { octant: o, power, is_full: true };
            let _ = visitor(h);
            out.push(h);
        },
        OctNode::Branch(ch) => {
            let h = OctreeNode { octant: o, power, is_full: false };
            let status = visitor(h);
            out.push(h);
            let ghost start = out@;
            if status == VisitStatus::Stop {
                return;
            }
            assert(!stops_of(*visitor)(h));
            let mut i: u8 = 0;
            while i < 8
                invariant
                    o.wf(power as nat),
                    node_wf(*n, power as nat),
                    *n == OctNode::Branch(*ch),
                    visitor_ok(*visitor),
                    i <= 8,
                    out@ == start + children_preorder(*n, o, power as nat, stops_of(*visitor), i as int),
                decreases 8 - i,
            {
                let c = o.child(i, power);
                visit_node(&ch[i as usize], c, power - 1, visitor, out);
                proof {
                    assert(start + children_preorder(*n, o, power as nat, stops_of(*visitor), i + 1) =~= start
                        + children_preorder(*n, o, power as nat, stops_of(*visitor), i as int) + preorder(
                        ch@[i as int],
                        c,
                        (power - 1) as nat,
                        stops_of(*visitor),
                    ));
                }
                i = i + 1;
            }
            assert(old(out)@ + preorder(*n, o, power as nat, stops_of(*visitor)) =~= start
                + children_preorder(*n, o, power as nat, stops_of(*visitor), 8));
        },
    }
}

/// The smallest level at or above `k`, and at most `MAX_POWER`, whose edge
/// length reaches `m`.
pub open spec fn covering_power_from(m: int, k: nat) -> nat
    decreases MAX_POWER - k,
{
    if k >= MAX_POWER || pow2(k) >= m {
        k
    } else {
        covering_power_from(m, k + 1)
    }
}

/// The smallest level whose edge length reaches `m`, for `m <= 2^30`.
pub open spec fn covering_power(m: int) -> nat {
    covering_power_from(m, 0)
}

pub proof fn lemma_covering_power(m: int, k: nat)
    requires
        m <= 0x4000_0000,
        k <= MAX_POWER,
        k == 0 || pow2((k - 1) as nat) < m,
    ensures
        covering_power_from(m, k) <= MAX_POWER,
        pow2(covering_power_from(m, k)) >= m,
        covering_power_from(m, k) == 0 || pow2((covering_power_from(m, k) - 1) as nat) < m,
    decreases MAX_POWER - k,
{
    lemma_pow2_bounds(k);
    if !(k >= MAX_POWER || pow2(k) >= m) {
        lemma_covering_power(m, k + 1);
    } else if k >= MAX_POWER {
        reveal_with_fuel(pow2, 31);
    }
}

/// The largest side of an extent's shape.
pub open spec fn max_side(e: Extent3i) -> int {
    let a = if e.shape.x >= e.shape.y { e.shape.x } else { e.shape.y };
    if a >= e.shape.z {
        a as int
    } else {
        e.shape.z as int
    }
}

/// The root cube of the octree built over `bounds`: its minimum corner is
/// that of `bounds`, its edge the smallest power of two that covers `bounds`.
pub open spec fn root_octant(bounds: Extent3i) -> Octant {
    Octant { minimum: bounds.minimum, edge_length: pow2(covering_power(max_side(bounds))) as i32 }
}

/// A set of lattice points stored as an octree over a cube.
pub struct OctreeSet {
    octant: Octant,
    power: u8,
    root: OctNode,
}

impl OctreeSet {
    pub closed spec fn spec_octant(&self) -> Octant {
        self.octant
    }

    pub closed spec fn spec_power(&self) -> nat {
        self.power as nat
    }

    pub closed spec fn spec_root(&self) -> OctNode {
        self.root
    }

    pub open spec fn wf(&self) -> bool {
        &&& self.spec_octant().wf(self.spec_power())
        &&& node_wf(self.spec_root(), self.spec_power())
    }

    /// The points of the set.
    pub open spec fn contains_spec(&self, p: Point3i) -> bool {
        node_contains(self.spec_root(), self.spec_octant(), p)
    }

    /// Builds the octree of the occupied points of `array` inside `bounds`, over
    /// the smallest cube of power-of-two edge at the minimum of `bounds` that
    /// covers `bounds`; the rest of that cube is empty.
    pub fn from_array<T: IsEmpty>(array: &Array3<T>, bounds: Extent3i) -> (r: Self)
        requires
            array.wf(),
            bounds.wf(),
            max_side(bounds) <= 0x4000_0000,
            bounds.minimum.x + root_octant(bounds).edge_length <= 0x8000_0000,
            bounds.minimum.y + root_octant(bounds).edge_length <= 0x8000_0000,
            bounds.minimum.z + root_octant(bounds).edge_length <= 0x8000_0000,
        ensures
            r.wf(),
            r.spec_octant() == root_octant(bounds),
            r.spec_power() == covering_power(max_side(bounds)),
            forall|p: Point3i| #[trigger] r.contains_spec(p) == (r.spec_octant().contains_spec(p) && occupied(*array, bounds, p)),
    {
        let sx = bounds.shape.x;
        let sy = bounds.shape.y;
        let sz = bounds.shape.z;
        let a = if sx >= sy { sx } else { sy };
        let m = if a >= sz { a } else { sz };
        let mut power: u8 = 0;
        let mut edge: i32 = 1;
        proof {
            lemma_covering_power(m as int, 0);
        }
        while power < MAX_POWER && edge < m
            invariant
                m == max_side(bounds),
                m <= 0x4000_0000,
                power <= MAX_POWER,
                edge == pow2(power as nat),
                covering_power_from(m as int, power as nat) == covering_power(m as int),
            decreases MAX_POWER - power,
        {
            proof {
                lemma_pow2_bounds(power as nat + 1);
            }
            edge = edge * 2;
            power = power + 1;
        }
        let octant = Octant { minimum: bounds.minimum, edge_length: edge };
        let root = build_node(array, &bounds, octant, power);
        OctreeSet { octant, power, root }
    }

    /// The cube that the set covers.
    pub fn octant(&self) -> (r: Octant)
        ensures
            r == self.spec_octant(),
    {
        self.octant
    }

    pub fn extent(&self) -> (r: Extent3i)
        ensures
            r == self.spec_octant().extent_spec(),
    {
        self.octant.extent()
    }

    /// The level of the root: its edge length is `2^power`.
    pub fn power(&self) -> (r: u8)
        ensures
            r == self.spec_power(),
    {
        self.power
    }

    /// Whether `p` is in the set.
    pub fn contains_point(&self, p: &Point3i) -> (r: bool)
        requires
            self.wf(),
        ensures
            r == self.contains_spec(*p),
    {
        query_node(&self.root, self.octant, self.power, p)
    }

    /// The root's handle; none where the whole cube is empty.
    pub fn root_node(&self) -> (r: Option<OctreeNode>)
        ensures
            r == handle_of(self.spec_root(), self.spec_octant(), self.spec_power()),
    {
        make_handle(&self.root, self.octant, self.power)
    }

    /// Whether the node is a full leaf.
    pub fn is_full(node: &OctreeNode) -> (r: bool)
        ensures
            r == node.is_full,
    {
        node.is_full
    }

    /// The handle of child `i` of the branch at `node`; none where that child
    /// is empty or `node` is no branch of this set.
    pub fn get_child(&self, node: &OctreeNode, i: u8) -> (r: Option<OctreeNode>)
        requires
            self.wf(),
            i < 8,
        ensures
            r == match subtree_at(self.spec_root(), self.spec_octant(), self.spec_power(), node.octant) {
                Some((OctNode::Branch(ch), pw)) => handle_of(ch@[i as int], node.octant.child_spec(i as int), (pw - 1) as nat),
                _ => None,
            },
    {
        match find_subtree(&self.root, self.octant, self.power, &node.octant) {
            Some((found, o, pw)) => match found {
                OctNode::Branch(ch) => {
                    let c = o.child(i, pw);
                    make_handle(&ch[i as usize], c, pw - 1)
                },
                _ => None,
            },
            None => None,
        }
    }

    /// Visits the branches and stored leaves in preorder, each parent before
    /// its children and children in index order; where `visitor` answers
    /// `Stop` at a branch, that branch's children are skipped. Returns the
    /// nodes visited, in order.
    pub fn visit_branches_and_leaves_in_preorder<V: Fn(OctreeNode) -> VisitStatus>(&self, visitor: &V) -> (r: Vec<OctreeNode>)
        requires
            self.wf(),
            visitor_ok(*visitor),
        ensures
            r@ == preorder(self.spec_root(), self.spec_octant(), self.spec_power(), stops_of(*visitor)),
    {
        let mut out: Vec<OctreeNode> = Vec::new();
        visit_node(&self.root, self.octant, self.power, visitor, &mut out);
        assert(out@ =~= preorder(self.root, self.octant, self.power as nat, stops_of(*visitor)));
        out
    }
}

} // verus!
