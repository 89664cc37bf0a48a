//! Laws of the occupancy octree: its leaves tile its cube, its nodes are
//! classified by the points they hold, and its traversal visits each stored
//! node once, parents first, skipping exactly what lies under a stop.

use vstd::prelude::*;
use crate::lattice::Point3i;
use crate::octree::{
    OctNode, Octant, OctreeNode, OctreeSet, children_preorder, handle_of, lemma_child_of_point,
    lemma_pow2_bounds, node_contains, node_wf, preorder, subtree_at,
};

verus! {

/// The cubes of the leaves under `n`, empty leaves included.
pub open spec fn leaf_octants(n: OctNode, o: Octant) -> Set<Octant>
    decreases n, 9int,
{
    match n {
        OctNode::Branch(_) => children_leaf_octants(n, o, 8),
        _ => set![o],
    }
}

/// The leaf cubes under the first `k` children of a branch.
pub open spec fn children_leaf_octants(n: OctNode, o: Octant, k: int) -> Set<Octant>
    decreases n, k,
{
    match n {
        OctNode::Branch(ch) => {
            if k <= 0 || k > ch@.len() {
                Set::empty()
            } else {
                children_leaf_octants(n, o, k - 1) + leaf_octants(ch@[k - 1], o.child_spec(k - 1))
            }
        },
        _ => Set::empty(),
    }
}

/// Every leaf cube lies inside `o`, every point of `o` lies in some leaf
/// cube, and no point lies in two of them.
pub open spec fn tiles(leaves: Set<Octant>, o: Octant) -> bool {
    &&& forall|l: Octant, p: Point3i| #[trigger] leaves.contains(l) && #[trigger] l.contains_spec(p) ==> o.contains_spec(p)
    &&& forall|p: Point3i| o.contains_spec(p) ==> exists|l: Octant| #[trigger] leaves.contains(l) && l.contains_spec(p)
    &&& forall|l1: Octant, l2: Octant, p: Point3i|
        #[trigger] leaves.contains(l1) && #[trigger] leaves.contains(l2) && #[trigger] l1.contains_spec(p) && l2.contains_spec(p) ==> l1 == l2
}

/// The leaves of a well-formed node exactly partition its cube.
pub proof fn lemma_leaves_tile(n: OctNode, o: Octant, power: nat)
    requires
        node_wf(n, power),
        o.wf(power),
    ensures
        tiles(leaf_octants(n, o), o),
    decreases n, 9int,
{
    match n {
        OctNode::Branch(ch) => {
            lemma_children_leaves(n, o, power, 8);
            let leaves = leaf_octants(n, o);
            assert(leaves == children_leaf_octants(n, o, 8));
            assert forall|l: Octant, p: Point3i| #[trigger] leaves.contains(l) && #[trigger] l.contains_spec(p) implies o.contains_spec(p) by {
                assert(children_leaf_octants(n, o, 8).contains(l));
                let i = choose|i: int| 0 <= i < 8 && leaf_octants(ch@[i], o.child_spec(i)).contains(l);
                assert(tiles(leaf_octants(ch@[i], o.child_spec(i)), o.child_spec(i)));
                lemma_child_of_point(o, power, p);
                assert(o.child_spec(i).contains_spec(p));
            }
            assert forall|p: Point3i| o.contains_spec(p) implies exists|l: Octant| #[trigger] leaves.contains(l) && l.contains_spec(p) by {
                lemma_child_of_point(o, power, p);
                let i = o.child_index_spec(p);
                assert(tiles(leaf_octants(ch@[i], o.child_spec(i)), o.child_spec(i)));
                let l = choose|l: Octant| #[trigger] leaf_octants(ch@[i], o.child_spec(i)).contains(l) && l.contains_spec(p);
                assert(leaves.contains(l));
            }
            assert forall|l1: Octant, l2: Octant, p: Point3i|
                #[trigger] leaves.contains(l1) && #[trigger] leaves.contains(l2) && #[trigger] l1.contains_spec(p) && l2.contains_spec(p) implies l1 == l2 by {
                assert(children_leaf_octants(n, o, 8).contains(l1));
                assert(children_leaf_octants(n, o, 8).contains(l2));
                let i = choose|i: int| 0 <= i < 8 && leaf_octants(ch@[i], o.child_spec(i)).contains(l1);
                let j = choose|j: int| 0 <= j < 8 && leaf_octants(ch@[j], o.child_spec(j)).contains(l2);
                assert(tiles(leaf_octants(ch@[i], o.child_spec(i)), o.child_spec(i)));
                assert(tiles(leaf_octants(ch@[j], o.child_spec(j)), o.child_spec(j)));
                lemma_child_of_point(o, power, p);
                assert(o.child_spec(i).contains_spec(p));
                assert(o.child_spec(j).contains_spec(p));
            }
        },
        _ => {
            assert forall|p: Point3i| o.contains_spec(p) implies exists|l: Octant| #[trigger] leaf_octants(n, o).contains(l) && l.contains_spec(p) by {
                assert(leaf_octants(n, o).contains(o));
            }
        },
    }
}

proof fn lemma_children_leaves(n: OctNode, o: Octant, power: nat, k: int)
    requires
        node_wf(n, power),
        o.wf(power),
        n is Branch,
        0 <= k <= 8,
    ensures
        forall|l: Octant| #[trigger] children_leaf_octants(n, o, k).contains(l) ==> exists|i: int|
            0 <= i < k && leaf_octants(n->Branch_0@[i], o.child_spec(i)).contains(l),
        forall|i: int, l: Octant|
            0 <= i < k && #[trigger] leaf_octants(n->Branch_0@[i], o.child_spec(i)).contains(l) ==> children_leaf_octants(n, o, k).contains(l),
        forall|i: int| 0 <= i < k ==> tiles(#[trigger] leaf_octants(n->Branch_0@[i], o.child_spec(i)), o.child_spec(i)),
    decreases n, k,
{
    let ch = n->Branch_0;
    if k > 0 {
        lemma_children_leaves(n, o, power, k - 1);
        lemma_child_wf(o, power, k - 1);
        lemma_leaves_tile(ch@[k - 1], o.child_spec(k - 1), (power - 1) as nat);
        assert forall|l: Octant| #[trigger] children_leaf_octants(n, o, k).contains(l) implies exists|i: int|
            0 <= i < k && leaf_octants(ch@[i], o.child_spec(i)).contains(l) by {
            if !children_leaf_octants(n, o, k - 1).contains(l) {
                assert(leaf_octants(ch@[k - 1], o.child_spec(k - 1)).contains(l));
            }
        }
    }
}

proof fn lemma_child_wf(o: Octant, power: nat, i: int)
    requires
        o.wf(power),
        power > 0,
        0 <= i < 8,
    ensures
        o.child_spec(i).wf((power - 1) as nat),
{
    lemma_pow2_bounds(power);
    lemma_pow2_bounds((power - 1) as nat);
}


/// The leaf cubes of an octree, empty leaves included, exactly partition the
/// cube that it covers: no gaps and no overlaps.
pub proof fn lemma_octree_leaves_tile(set: OctreeSet)
    requires
        set.wf(),
    ensures
        tiles(leaf_octants(set.spec_root(), set.spec_octant()), set.spec_octant()),
{
    lemma_leaves_tile(set.spec_root(), set.spec_octant(), set.spec_power());
}


/// The cube `q` lies inside the cube `b`.
pub open spec fn octant_within(q: Octant, b: Octant) -> bool {
    &&& b.minimum.x <= q.minimum.x && q.minimum.x + q.edge_length <= b.minimum.x + b.edge_length
    &&& b.minimum.y <= q.minimum.y && q.minimum.y + q.edge_length <= b.minimum.y + b.edge_length
    &&& b.minimum.z <= q.minimum.z && q.minimum.z + q.edge_length <= b.minimum.z + b.edge_length
}

/// The traversal with no visitor stopping it.
pub open spec fn never_stop() -> spec_fn(OctreeNode) -> bool {
    |h: OctreeNode| false
}

proof fn lemma_child_within(o: Octant, power: nat, i: int)
    requires
        o.wf(power),
        power > 0,
        0 <= i < 8,
    ensures
        octant_within(o.child_spec(i), o),
        o.child_spec(i).edge_length < o.edge_length,
        o.child_spec(i).wf((power - 1) as nat),
        o.child_spec(i).contains_spec(o.child_spec(i).minimum),
{
    lemma_child_wf(o, power, i);
    lemma_pow2_bounds(power);
    lemma_pow2_bounds((power - 1) as nat);
}

/// A node visited in the traversals of the first `k` children of a branch
/// is visited in one of those children's traversals.
proof fn lemma_children_members(n: OctNode, o: Octant, power: nat, stop: spec_fn(OctreeNode) -> bool, k: int)
    requires
        n is Branch,
        n->Branch_0@.len() == 8,
        0 <= k <= 8,
    ensures
        forall|q: OctreeNode|
            #[trigger] children_preorder(n, o, power, stop, k).contains(q) <==> exists|i: int|
                0 <= i < k && preorder(n->Branch_0@[i], o.child_spec(i), (power - 1) as nat, stop).contains(q),
    decreases k,
{
    broadcast use vstd::seq_lib::group_seq_properties;

    if k > 0 {
        lemma_children_members(n, o, power, stop, k - 1);
        let ch = n->Branch_0;
        assert forall|q: OctreeNode|
            #[trigger] children_preorder(n, o, power, stop, k).contains(q) <==> exists|i: int|
                0 <= i < k && preorder(ch@[i], o.child_spec(i), (power - 1) as nat, stop).contains(q) by {
            let a = children_preorder(n, o, power, stop, k - 1);
            let b = preorder(ch@[k - 1], o.child_spec(k - 1), (power - 1) as nat, stop);
            assert(children_preorder(n, o, power, stop, k) == a + b);
            if b.contains(q) {
                assert((a + b).contains(q));
            }
            if a.contains(q) {
                assert((a + b).contains(q));
            }
            if (a + b).contains(q) {
                if !a.contains(q) {
                    assert(b.contains(q));
                }
            }
        }
    }
}

/// Every node that a traversal visits lies in the cube it starts from, and
/// only the first one is that cube itself.
pub proof fn lemma_preorder_within(n: OctNode, o: Octant, power: nat, stop: spec_fn(OctreeNode) -> bool)
    requires
        node_wf(n, power),
        o.wf(power),
    ensures
        forall|q: OctreeNode| #[trigger] preorder(n, o, power, stop).contains(q) ==> {
            &&& octant_within(q.octant, o)
            &&& q.octant.wf(q.power as nat)
            &&& q.octant.contains_spec(q.octant.minimum)
            &&& q.octant == o || q.octant.edge_length < o.edge_length
        },
        forall|q: OctreeNode| #[trigger] preorder(n, o, power, stop).contains(q) && q.octant == o ==> Some(q) == handle_of(n, o, power),
    decreases n, 9int,
{
    broadcast use vstd::seq_lib::group_seq_properties;

    lemma_pow2_bounds(power);
    match n {
        OctNode::Branch(ch) => {
            let h = OctreeNode { octant: o, power: power as u8, is_full: false };
            if !stop(h) {
                lemma_children_members(n, o, power, stop, 8);
                assert forall|q: OctreeNode| #[trigger] preorder(n, o, power, stop).contains(q) && q != h implies {
                    &&& octant_within(q.octant, o)
                    &&& q.octant.wf(q.power as nat)
                    &&& q.octant.contains_spec(q.octant.minimum)
                    &&& q.octant.edge_length < o.edge_length
                } by {
                    assert(children_preorder(n, o, power, stop, 8).contains(q));
                    let i = choose|i: int| 0 <= i < 8 && preorder(ch@[i], o.child_spec(i), (power - 1) as nat, stop).contains(q);
                    lemma_child_within(o, power, i);
                    lemma_preorder_within(ch@[i], o.child_spec(i), (power - 1) as nat, stop);
                }
            }
        },
        _ => {},
    }
}


/// `q` is the handle of a node stored under `n`: a branch or a full leaf.
pub open spec fn stored_handle(n: OctNode, o: Octant, power: nat, q: OctreeNode) -> bool {
    match subtree_at(n, o, power, q.octant) {
        Some((m, pw)) => handle_of(m, q.octant, pw) == Some(q),
        None => false,
    }
}

/// No node is visited twice.
pub proof fn lemma_preorder_no_duplicates(n: OctNode, o: Octant, power: nat, stop: spec_fn(OctreeNode) -> bool)
    requires
        node_wf(n, power),
        o.wf(power),
    ensures
        preorder(n, o, power, stop).no_duplicates(),
    decreases n, 9int,
{
    broadcast use vstd::seq_lib::group_seq_properties;

    match n {
        OctNode::Branch(ch) => {
            let h = OctreeNode { octant: o, power: power as u8, is_full: false };
            if !stop(h) {
                lemma_children_no_duplicates(n, o, power, stop, 8);
                lemma_children_members(n, o, power, stop, 8);
                let c = children_preorder(n, o, power, stop, 8);
                assert forall|i: int, j: int| 0 <= i < 1 && 0 <= j < c.len() implies seq![h][i] != c[j] by {
                    assert(c.contains(c[j]));
                    let k = choose|k: int| 0 <= k < 8 && preorder(ch@[k], o.child_spec(k), (power - 1) as nat, stop).contains(c[j]);
                    lemma_child_within(o, power, k);
                    lemma_preorder_within(ch@[k], o.child_spec(k), (power - 1) as nat, stop);
                }
                vstd::seq_lib::lemma_no_dup_in_concat(seq![h], c);
            }
        },
        _ => {},
    }
}

proof fn lemma_children_no_duplicates(n: OctNode, o: Octant, power: nat, stop: spec_fn(OctreeNode) -> bool, k: int)
    requires
        node_wf(n, power),
        o.wf(power),
        n is Branch,
        0 <= k <= 8,
    ensures
        children_preorder(n, o, power, stop, k).no_duplicates(),
    decreases n, k,
{
    broadcast use vstd::seq_lib::group_seq_properties;

    if k > 0 {
        let ch = n->Branch_0;
        lemma_children_no_duplicates(n, o, power, stop, k - 1);
        lemma_child_within(o, power, k - 1);
        lemma_preorder_no_duplicates(ch@[k - 1], o.child_spec(k - 1), (power - 1) as nat, stop);
        lemma_preorder_within(ch@[k - 1], o.child_spec(k - 1), (power - 1) as nat, stop);
        lemma_children_members(n, o, power, stop, k - 1);
        let a = children_preorder(n, o, power, stop, k - 1);
        let b = preorder(ch@[k - 1], o.child_spec(k - 1), (power - 1) as nat, stop);
        assert forall|i: int, j: int| 0 <= i < a.len() && 0 <= j < b.len() implies a[i] != b[j] by {
            assert(a.contains(a[i]));
            assert(b.contains(b[j]));
            let m = choose|m: int| 0 <= m < k - 1 && preorder(ch@[m], o.child_spec(m), (power - 1) as nat, stop).contains(a[i]);
            lemma_child_within(o, power, m);
            lemma_preorder_within(ch@[m], o.child_spec(m), (power - 1) as nat, stop);
            if a[i] == b[j] {
                let p = b[j].octant.minimum;
                lemma_child_of_point(o, power, p);
                assert(o.child_spec(m).contains_spec(p));
                assert(o.child_spec(k - 1).contains_spec(p));
            }
        }
        vstd::seq_lib::lemma_no_dup_in_concat(a, b);
    }
}

/// The nodes that a traversal without stops visits are exactly the stored
/// nodes.
pub proof fn lemma_preorder_members(n: OctNode, o: Octant, power: nat)
    requires
        node_wf(n, power),
        o.wf(power),
    ensures
        forall|q: OctreeNode| #[trigger] preorder(n, o, power, never_stop()).contains(q) <==> stored_handle(n, o, power, q),
    decreases n,
{
    broadcast use vstd::seq_lib::group_seq_properties;

    let stop = never_stop();
    lemma_pow2_bounds(power);
    match n {
        OctNode::Branch(ch) => {
            let h = OctreeNode { octant: o, power: power as u8, is_full: false };
            assert(!stop(h));
            lemma_children_members(n, o, power, stop, 8);
            let c = children_preorder(n, o, power, stop, 8);
            assert(preorder(n, o, power, stop) == seq![h] + c);
            assert forall|q: OctreeNode| #[trigger] preorder(n, o, power, stop).contains(q) <==> stored_handle(n, o, power, q) by {
                if q.octant == o {
                    if c.contains(q) {
                        let i = choose|i: int| 0 <= i < 8 && preorder(ch@[i], o.child_spec(i), (power - 1) as nat, stop).contains(q);
                        lemma_child_within(o, power, i);
                        lemma_preorder_within(ch@[i], o.child_spec(i), (power - 1) as nat, stop);
                    }
                    if q == h {
                        assert((seq![h] + c)[0] == h);
                    }
                } else {
                    assert(q != h);
                    let p = q.octant.minimum;
                    let i = o.child_index_spec(p);
                    if c.contains(q) {
                        let j = choose|j: int| 0 <= j < 8 && preorder(ch@[j], o.child_spec(j), (power - 1) as nat, stop).contains(q);
                        lemma_child_within(o, power, j);
                        lemma_preorder_within(ch@[j], o.child_spec(j), (power - 1) as nat, stop);
                        lemma_child_of_point(o, power, p);
                        assert(o.child_spec(j).contains_spec(p));
                        assert(i == j);
                        lemma_preorder_members(ch@[j], o.child_spec(j), (power - 1) as nat);
                    }
                    if stored_handle(n, o, power, q) {
                        lemma_child_of_point(o, power, p);
                        lemma_child_within(o, power, i);
                        lemma_preorder_members(ch@[i], o.child_spec(i), (power - 1) as nat);
                        assert(preorder(ch@[i], o.child_spec(i), (power - 1) as nat, stop).contains(q));
                        assert(c.contains(q));
                        assert((seq![h] + c).contains(q));
                    }
                }
            }
        },
        OctNode::Full => {
            let h = OctreeNode { octant: o, power: power as u8, is_full: true };
            assert forall|q: OctreeNode| #[trigger] preorder(n, o, power, stop).contains(q) <==> stored_handle(n, o, power, q) by {
                if q == h {
                    assert(preorder(n, o, power, stop)[0] == h);
                }
            }
        },
        OctNode::Empty => {},
    }
}

/// A traversal whose visitor never stops visits every stored node of the
/// set, each branch and each full leaf, and no other, each exactly once,
/// and each node before the nodes inside it.
pub proof fn lemma_traversal_complete(set: OctreeSet)
    requires
        set.wf(),
    ensures
        preorder(set.spec_root(), set.spec_octant(), set.spec_power(), never_stop()).no_duplicates(),
        forall|q: OctreeNode|
            #[trigger] preorder(set.spec_root(), set.spec_octant(), set.spec_power(), never_stop()).contains(q)
                <==> stored_handle(set.spec_root(), set.spec_octant(), set.spec_power(), q),
        parents_first(preorder(set.spec_root(), set.spec_octant(), set.spec_power(), never_stop())),
{
    lemma_preorder_parents_first(set.spec_root(), set.spec_octant(), set.spec_power(), never_stop());
    lemma_preorder_no_duplicates(set.spec_root(), set.spec_octant(), set.spec_power(), never_stop());
    lemma_preorder_members(set.spec_root(), set.spec_octant(), set.spec_power());
}


/// `q` lies strictly inside a stored branch whose handle `stop` holds of.
pub open spec fn below_stopped_branch(
    n: OctNode,
    o: Octant,
    power: nat,
    stop: spec_fn(OctreeNode) -> bool,
    q: OctreeNode,
) -> bool {
    exists|b: OctreeNode|
        #[trigger] stored_handle(n, o, power, b) && !b.is_full && stop(b) && octant_within(q.octant, b.octant)
            && q.octant.edge_length < b.octant.edge_length
}

proof fn lemma_stored_within(n: OctNode, o: Octant, power: nat, q: OctreeNode)
    requires
        node_wf(n, power),
        o.wf(power),
        stored_handle(n, o, power, q),
    ensures
        octant_within(q.octant, o),
        q.octant.contains_spec(q.octant.minimum),
        q.octant == o ==> Some(q) == handle_of(n, o, power),
        q.octant != o ==> q.octant.edge_length < o.edge_length,
{
    lemma_preorder_members(n, o, power);
    lemma_preorder_within(n, o, power, never_stop());
    assert(preorder(n, o, power, never_stop()).contains(q));
}

proof fn lemma_stored_in_child(n: OctNode, o: Octant, power: nat, q: OctreeNode)
    requires
        node_wf(n, power),
        o.wf(power),
        n is Branch,
        q.octant != o,
    ensures
        stored_handle(n, o, power, q) ==> 0 <= o.child_index_spec(q.octant.minimum) < 8 && stored_handle(
            n->Branch_0@[o.child_index_spec(q.octant.minimum)],
            o.child_spec(o.child_index_spec(q.octant.minimum)),
            (power - 1) as nat,
            q,
        ),
        forall|i: int|
            0 <= i < 8 && #[trigger] stored_handle(n->Branch_0@[i], o.child_spec(i), (power - 1) as nat, q)
                ==> stored_handle(n, o, power, q) && i == o.child_index_spec(q.octant.minimum),
{
    let ch = n->Branch_0;
    let p = q.octant.minimum;
    lemma_pow2_bounds(power);
    if stored_handle(n, o, power, q) {
        lemma_stored_within(n, o, power, q);
        lemma_child_of_point(o, power, p);
    }
    assert forall|i: int|
        0 <= i < 8 && #[trigger] stored_handle(ch@[i], o.child_spec(i), (power - 1) as nat, q)
            implies stored_handle(n, o, power, q) && i == o.child_index_spec(p) by {
        lemma_child_within(o, power, i);
        lemma_stored_within(ch@[i], o.child_spec(i), (power - 1) as nat, q);
        lemma_child_of_point(o, power, p);
    }
}

/// The traversal visits exactly the stored nodes that lie strictly inside no
/// stored branch at which the visitor stops: a `Stop` at a branch hides its
/// descendants and nothing else.
pub proof fn lemma_stop_prunes(n: OctNode, o: Octant, power: nat, stop: spec_fn(OctreeNode) -> bool)
    requires
        node_wf(n, power),
        o.wf(power),
    ensures
        forall|q: OctreeNode| #[trigger] preorder(n, o, power, stop).contains(q) <==> stored_handle(n, o, power, q)
            && !below_stopped_branch(n, o, power, stop, q),
    decreases n,
{
    broadcast use vstd::seq_lib::group_seq_properties;

    lemma_pow2_bounds(power);
    match n {
        OctNode::Branch(ch) => {
            let h = OctreeNode { octant: o, power: power as u8, is_full: false };
            assert(stored_handle(n, o, power, h));
            // The root lies strictly inside no stored node.
            assert(!below_stopped_branch(n, o, power, stop, h)) by {
                if below_stopped_branch(n, o, power, stop, h) {
                    let b = choose|b: OctreeNode|
                        #[trigger] stored_handle(n, o, power, b) && !b.is_full && stop(b) && octant_within(h.octant, b.octant)
                            && h.octant.edge_length < b.octant.edge_length;
                    lemma_stored_within(n, o, power, b);
                }
            }
            if stop(h) {
                assert(preorder(n, o, power, stop) == seq![h]);
                assert forall|q: OctreeNode| #[trigger] preorder(n, o, power, stop).contains(q) <==> stored_handle(n, o, power, q)
                    && !below_stopped_branch(n, o, power, stop, q) by {
                    if q != h && stored_handle(n, o, power, q) {
                        lemma_stored_within(n, o, power, q);
                        assert(below_stopped_branch(n, o, power, stop, q));
                    }
                    if q == h {
                        assert(seq![h][0] == h);
                    }
                }
            } else {
                lemma_children_members(n, o, power, stop, 8);
                let c = children_preorder(n, o, power, stop, 8);
                assert(preorder(n, o, power, stop) == seq![h] + c);
                assert forall|q: OctreeNode| #[trigger] preorder(n, o, power, stop).contains(q) <==> stored_handle(n, o, power, q)
                    && !below_stopped_branch(n, o, power, stop, q) by {
                    if q == h {
                        assert((seq![h] + c)[0] == h);
                    } else if q.octant == o {
                        if stored_handle(n, o, power, q) {
                            lemma_stored_within(n, o, power, q);
                        }
                        if c.contains(q) {
                            let j = choose|j: int| 0 <= j < 8 && preorder(ch@[j], o.child_spec(j), (power - 1) as nat, stop).contains(q);
                            lemma_child_within(o, power, j);
                            lemma_preorder_within(ch@[j], o.child_spec(j), (power - 1) as nat, stop);
                        }
                    } else {
                        let i = o.child_index_spec(q.octant.minimum);
                        lemma_stored_in_child(n, o, power, q);
                        if c.contains(q) {
                            let j = choose|j: int| 0 <= j < 8 && preorder(ch@[j], o.child_spec(j), (power - 1) as nat, stop).contains(q);
                            lemma_child_within(o, power, j);
                            lemma_stop_prunes(ch@[j], o.child_spec(j), (power - 1) as nat, stop);
                            assert(stored_handle(ch@[j], o.child_spec(j), (power - 1) as nat, q));
                            assert(j == i);
                            lemma_below_in_child(n, o, power, stop, q, i);
                        }
                        if stored_handle(n, o, power, q) && !below_stopped_branch(n, o, power, stop, q) {
                            lemma_child_within(o, power, i);
                            lemma_stop_prunes(ch@[i], o.child_spec(i), (power - 1) as nat, stop);
                            lemma_below_in_child(n, o, power, stop, q, i);
                            assert(preorder(ch@[i], o.child_spec(i), (power - 1) as nat, stop).contains(q));
                            assert(c.contains(q));
                            assert((seq![h] + c).contains(q));
                        }
                    }
                }
            }
        },
        OctNode::Full => {
            let h = OctreeNode { octant: o, power: power as u8, is_full: true };
            assert forall|q: OctreeNode| #[trigger] preorder(n, o, power, stop).contains(q) <==> stored_handle(n, o, power, q)
                && !below_stopped_branch(n, o, power, stop, q) by {
                if q == h {
                    assert(preorder(n, o, power, stop)[0] == h);
                    if below_stopped_branch(n, o, power, stop, q) {
                        let b = choose|b: OctreeNode|
                            #[trigger] stored_handle(n, o, power, b) && !b.is_full && stop(b) && octant_within(q.octant, b.octant)
                                && q.octant.edge_length < b.octant.edge_length;
                        lemma_stored_within(n, o, power, b);
                    }
                }
            }
        },
        OctNode::Empty => {},
    }
}

/// For a node stored under child `i` of a branch that is not stopped, the
/// stopped branches above it are those under that child.
proof fn lemma_below_in_child(
    n: OctNode,
    o: Octant,
    power: nat,
    stop: spec_fn(OctreeNode) -> bool,
    q: OctreeNode,
    i: int,
)
    requires
        node_wf(n, power),
        o.wf(power),
        n is Branch,
        !stop(OctreeNode { octant: o, power: power as u8, is_full: false }),
        0 <= i < 8,
        stored_handle(n->Branch_0@[i], o.child_spec(i), (power - 1) as nat, q),
    ensures
        below_stopped_branch(n, o, power, stop, q) <==> below_stopped_branch(
            n->Branch_0@[i],
            o.child_spec(i),
            (power - 1) as nat,
            stop,
            q,
        ),
{
    let ch = n->Branch_0;
    let c = o.child_spec(i);
    lemma_pow2_bounds(power);
    lemma_child_within(o, power, i);
    lemma_stored_within(ch@[i], c, (power - 1) as nat, q);
    if below_stopped_branch(n, o, power, stop, q) {
        let b = choose|b: OctreeNode|
            #[trigger] stored_handle(n, o, power, b) && !b.is_full && stop(b) && octant_within(q.octant, b.octant)
                && q.octant.edge_length < b.octant.edge_length;
        lemma_stored_within(n, o, power, b);
        assert(b.octant != o);
        lemma_stored_in_child(n, o, power, b);
        let j = o.child_index_spec(b.octant.minimum);
        lemma_child_within(o, power, j);
        lemma_stored_within(ch@[j], o.child_spec(j), (power - 1) as nat, b);
        lemma_child_of_point(o, power, q.octant.minimum);
        assert(o.child_spec(j).contains_spec(q.octant.minimum));
        assert(c.contains_spec(q.octant.minimum));
        assert(j == i);
        assert(below_stopped_branch(ch@[i], c, (power - 1) as nat, stop, q));
    }
    if below_stopped_branch(ch@[i], c, (power - 1) as nat, stop, q) {
        let b = choose|b: OctreeNode|
            #[trigger] stored_handle(ch@[i], c, (power - 1) as nat, b) && !b.is_full && stop(b) && octant_within(q.octant, b.octant)
                && q.octant.edge_length < b.octant.edge_length;
        lemma_stored_within(ch@[i], c, (power - 1) as nat, b);
        assert(b.octant != o);
        lemma_stored_in_child(n, o, power, b);
        assert(stored_handle(n, o, power, b));
    }
}

/// The early exit of the traversal of a set: it visits exactly the stored
/// nodes that lie strictly inside no branch at which the visitor stops.
pub proof fn lemma_traversal_stops(set: OctreeSet, stop: spec_fn(OctreeNode) -> bool)
    requires
        set.wf(),
    ensures
        forall|q: OctreeNode|
            #[trigger] preorder(set.spec_root(), set.spec_octant(), set.spec_power(), stop).contains(q)
                <==> stored_handle(set.spec_root(), set.spec_octant(), set.spec_power(), q)
                && !below_stopped_branch(set.spec_root(), set.spec_octant(), set.spec_power(), stop, q),
{
    lemma_stop_prunes(set.spec_root(), set.spec_octant(), set.spec_power(), stop);
}


/// The cube `q` lies inside the cube `b` and is smaller.
pub open spec fn strictly_inside(q: Octant, b: Octant) -> bool {
    octant_within(q, b) && q.edge_length < b.edge_length
}

/// In the order of a traversal, every node comes before the nodes that lie
/// strictly inside it.
pub open spec fn parents_first(s: Seq<OctreeNode>) -> bool {
    forall|i: int, j: int|
        0 <= i < s.len() && 0 <= j < s.len() && strictly_inside(#[trigger] s[j].octant, #[trigger] s[i].octant) ==> i < j
}

/// A traversal visits each node before the nodes inside it.
pub proof fn lemma_preorder_parents_first(n: OctNode, o: Octant, power: nat, stop: spec_fn(OctreeNode) -> bool)
    requires
        node_wf(n, power),
        o.wf(power),
    ensures
        parents_first(preorder(n, o, power, stop)),
    decreases n, 9int,
{
    broadcast use vstd::seq_lib::group_seq_properties;

    lemma_pow2_bounds(power);
    match n {
        OctNode::Branch(ch) => {
            let h = OctreeNode { octant: o, power: power as u8, is_full: false };
            if !stop(h) {
                lemma_children_parents_first(n, o, power, stop, 8);
                lemma_children_members(n, o, power, stop, 8);
                let c = children_preorder(n, o, power, stop, 8);
                let s = seq![h] + c;
                assert(preorder(n, o, power, stop) == s);
                assert forall|i: int, j: int|
                    0 <= i < s.len() && 0 <= j < s.len() && strictly_inside(#[trigger] s[j].octant, #[trigger] s[i].octant) implies i < j by {
                    if j == 0 {
                        if i > 0 {
                            assert(c.contains(c[i - 1]));
                            let m = choose|m: int| 0 <= m < 8 && preorder(ch@[m], o.child_spec(m), (power - 1) as nat, stop).contains(c[i - 1]);
                            lemma_child_within(o, power, m);
                            lemma_preorder_within(ch@[m], o.child_spec(m), (power - 1) as nat, stop);
                        }
                    } else if i > 0 {
                        assert(s[i] == c[i - 1] && s[j] == c[j - 1]);
                    }
                }
            }
        },
        _ => {},
    }
}

proof fn lemma_children_parents_first(n: OctNode, o: Octant, power: nat, stop: spec_fn(OctreeNode) -> bool, k: int)
    requires
        node_wf(n, power),
        o.wf(power),
        n is Branch,
        0 <= k <= 8,
    ensures
        parents_first(children_preorder(n, o, power, stop, k)),
    decreases n, k,
{
    broadcast use vstd::seq_lib::group_seq_properties;

    if k > 0 {
        let ch = n->Branch_0;
        let a = children_preorder(n, o, power, stop, k - 1);
        let b = preorder(ch@[k - 1], o.child_spec(k - 1), (power - 1) as nat, stop);
        let s = a + b;
        assert(children_preorder(n, o, power, stop, k) == s);
        lemma_children_parents_first(n, o, power, stop, k - 1);
        lemma_child_within(o, power, k - 1);
        lemma_preorder_parents_first(ch@[k - 1], o.child_spec(k - 1), (power - 1) as nat, stop);
        lemma_preorder_within(ch@[k - 1], o.child_spec(k - 1), (power - 1) as nat, stop);
        lemma_children_members(n, o, power, stop, k - 1);
        assert forall|i: int, j: int|
            0 <= i < s.len() && 0 <= j < s.len() && strictly_inside(#[trigger] s[j].octant, #[trigger] s[i].octant) implies i < j by {
            if i < a.len() && j < a.len() {
                assert(s[i] == a[i] && s[j] == a[j]);
            } else if i >= a.len() && j >= a.len() {
                assert(s[i] == b[i - a.len()] && s[j] == b[j - a.len()]);
            } else if i >= a.len() && j < a.len() {
                let x = b[i - a.len()];
                let y = a[j];
                assert(s[i] == x && s[j] == y);
                assert(b.contains(x));
                assert(a.contains(y));
                let m = choose|m: int| 0 <= m < k - 1 && preorder(ch@[m], o.child_spec(m), (power - 1) as nat, stop).contains(y);
                lemma_child_within(o, power, m);
                lemma_preorder_within(ch@[m], o.child_spec(m), (power - 1) as nat, stop);
                let p = y.octant.minimum;
                lemma_child_of_point(o, power, p);
                assert(o.child_spec(m).contains_spec(p));
                assert(o.child_spec(k - 1).contains_spec(p));
            }
        }
    }
}


/// A well-formed node is full exactly where every point of its cube is in
/// the set, and empty exactly where none is; a branch has both kinds.
pub proof fn lemma_node_classification(n: OctNode, o: Octant, power: nat)
    requires
        node_wf(n, power),
        o.wf(power),
    ensures
        (n is Full) <==> forall|p: Point3i| o.contains_spec(p) ==> node_contains(n, o, p),
        (n is Empty) <==> forall|p: Point3i| o.contains_spec(p) ==> !node_contains(n, o, p),
    decreases n,
{
    lemma_pow2_bounds(power);
    assert(o.contains_spec(o.minimum));
    match n {
        OctNode::Branch(ch) => {
            let i = choose|i: int| 0 <= i < 8 && !(ch@[i] is Empty);
            let j = choose|j: int| 0 <= j < 8 && !(ch@[j] is Full);
            lemma_child_within(o, power, i);
            lemma_child_within(o, power, j);
            lemma_node_classification(ch@[i], o.child_spec(i), (power - 1) as nat);
            lemma_node_classification(ch@[j], o.child_spec(j), (power - 1) as nat);
            let pi = choose|p: Point3i| o.child_spec(i).contains_spec(p) && node_contains(ch@[i], o.child_spec(i), p);
            let pj = choose|p: Point3i| o.child_spec(j).contains_spec(p) && !node_contains(ch@[j], o.child_spec(j), p);
            lemma_child_of_point(o, power, pi);
            lemma_child_of_point(o, power, pj);
            assert(o.child_spec(i).contains_spec(pi));
            assert(o.child_spec(j).contains_spec(pj));
            assert(node_contains(n, o, pi));
            assert(!node_contains(n, o, pj));
        },
        _ => {},
    }
}


/// The root of a set is a full leaf exactly where the set holds every point
/// of its cube, and absent exactly where it holds none.
pub proof fn lemma_root_classification(set: OctreeSet)
    requires
        set.wf(),
    ensures
        (set.spec_root() is Full) <==> forall|p: Point3i| set.spec_octant().contains_spec(p) ==> set.contains_spec(p),
        (set.spec_root() is Empty) <==> forall|p: Point3i| set.spec_octant().contains_spec(p) ==> !set.contains_spec(p),
{
    let n = set.spec_root();
    let o = set.spec_octant();
    lemma_node_classification(n, o, set.spec_power());
    assert forall|p: Point3i| #[trigger] set.contains_spec(p) == node_contains(n, o, p) by {}
    if forall|p: Point3i| o.contains_spec(p) ==> #[trigger] set.contains_spec(p) {
        assert forall|p: Point3i| o.contains_spec(p) implies #[trigger] node_contains(n, o, p) by {
            assert(set.contains_spec(p));
        }
    }
    if forall|p: Point3i| o.contains_spec(p) ==> !#[trigger] set.contains_spec(p) {
        assert forall|p: Point3i| o.contains_spec(p) implies !#[trigger] node_contains(n, o, p) by {
            assert(!set.contains_spec(p));
        }
    }
}

} // verus!
