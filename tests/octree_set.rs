use building_blocks_storage::{
    Array3, Extent3i, OctreeNode, OctreeSet, Point3i, Sd8, VisitStatus,
};

fn cube(edge: i32) -> Extent3i {
    Extent3i::from_min_and_shape(Point3i::fill(0), Point3i::fill(edge))
}

fn single_point_array(q: Point3i) -> Array3<bool> {
    let mut a = Array3::fill(cube(16), false);
    a.set(q, true);
    a
}

#[test]
fn full_array_gives_single_full_leaf() {
    let a = Array3::fill(cube(16), true);
    let octree = OctreeSet::from_array(&a, *a.extent());
    assert_eq!(octree.power(), 4);
    let root = octree.root_node().unwrap();
    assert!(OctreeSet::is_full(&root));
    assert_eq!(root.octant.edge_length, 16);
    let visited = octree.visit_branches_and_leaves_in_preorder(&|_n: OctreeNode| VisitStatus::Continue);
    assert_eq!(visited, vec![root]);
}

#[test]
fn empty_array_gives_no_root() {
    let a = Array3::fill(cube(8), false);
    let octree = OctreeSet::from_array(&a, *a.extent());
    assert!(octree.root_node().is_none());
    assert!(!octree.contains_point(&Point3i::fill(3)));
    let visited = octree.visit_branches_and_leaves_in_preorder(&|_n: OctreeNode| VisitStatus::Continue);
    assert!(visited.is_empty());
}

#[test]
fn single_point_builds_one_chain() {
    let q = Point3i::new(5, 9, 3);
    let a = single_point_array(q);
    let octree = OctreeSet::from_array(&a, *a.extent());
    let root = octree.root_node().unwrap();
    assert!(!root.is_full);
    for i in 0..8u8 {
        let child = octree.get_child(&root, i);
        if i == 2 {
            assert!(child.is_some());
        } else {
            assert!(child.is_none());
        }
    }
    let mut node = root;
    let mut depth = 0;
    while !node.is_full {
        let mut present = Vec::new();
        for i in 0..8u8 {
            if let Some(c) = octree.get_child(&node, i) {
                present.push(c);
            }
        }
        assert_eq!(present.len(), 1);
        node = present[0];
        depth += 1;
    }
    assert_eq!(depth, 4);
    assert_eq!(node.octant.minimum, q);
    assert_eq!(node.octant.edge_length, 1);
    assert_eq!(node.power, 0);
}

#[test]
fn point_queries_match_the_array() {
    let q = Point3i::new(5, 9, 3);
    let a = single_point_array(q);
    let octree = OctreeSet::from_array(&a, *a.extent());
    for z in -1..17 {
        for y in -1..17 {
            for x in -1..17 {
                let p = Point3i::new(x, y, z);
                assert_eq!(octree.contains_point(&p), p == q);
            }
        }
    }
}

#[test]
fn traversal_visits_parents_first() {
    let q = Point3i::new(5, 9, 3);
    let a = single_point_array(q);
    let octree = OctreeSet::from_array(&a, *a.extent());
    let visited = octree.visit_branches_and_leaves_in_preorder(&|_n: OctreeNode| VisitStatus::Continue);
    let powers: Vec<u8> = visited.iter().map(|n| n.power).collect();
    assert_eq!(powers, vec![4, 3, 2, 1, 0]);
    assert!(visited[4].is_full);
    assert!(visited[..4].iter().all(|n| !n.is_full));
}

#[test]
fn stop_skips_only_the_stopped_subtree() {
    let mut a = Array3::fill(cube(4), false);
    a.set(Point3i::new(0, 0, 0), true);
    a.set(Point3i::new(3, 3, 3), true);
    let octree = OctreeSet::from_array(&a, *a.extent());
    let all = octree.visit_branches_and_leaves_in_preorder(&|_n: OctreeNode| VisitStatus::Continue);
    assert_eq!(all.len(), 5);
    let stopped = octree.visit_branches_and_leaves_in_preorder(&|n: OctreeNode| {
        if n.power == 1 && n.octant.minimum == Point3i::fill(0) {
            VisitStatus::Stop
        } else {
            VisitStatus::Continue
        }
    });
    assert_eq!(stopped.len(), 4);
    assert_eq!(stopped[1].octant.minimum, Point3i::fill(0));
    assert_eq!(stopped[2].octant.minimum, Point3i::fill(2));
    assert_eq!(stopped[3].octant.minimum, Point3i::fill(3));
    assert!(stopped[3].is_full);
    let at_root = octree.visit_branches_and_leaves_in_preorder(&|_n: OctreeNode| VisitStatus::Stop);
    assert_eq!(at_root.len(), 1);
}

#[test]
fn bounds_are_padded_to_a_power_of_two_cube() {
    let a = Array3::fill(cube(8), true);
    let bounds = Extent3i::from_min_and_shape(Point3i::new(1, 1, 1), Point3i::new(3, 5, 2));
    let octree = OctreeSet::from_array(&a, bounds);
    assert_eq!(octree.power(), 3);
    assert_eq!(octree.extent(), Extent3i::from_min_and_shape(Point3i::new(1, 1, 1), Point3i::fill(8)));
    assert!(octree.contains_point(&Point3i::new(3, 5, 2)));
    assert!(!octree.contains_point(&Point3i::new(4, 5, 2)));
    assert!(!octree.contains_point(&Point3i::new(1, 6, 1)));
    assert!(!octree.contains_point(&Point3i::new(8, 8, 8)));
}

#[test]
fn signed_distances_are_occupied_when_negative() {
    let e = cube(2);
    let a = Array3::new(e, vec![Sd8(-3), Sd8(0), Sd8(4), Sd8(1), Sd8(2), Sd8(3), Sd8(5), Sd8(6)]);
    let octree = OctreeSet::from_array(&a, e);
    assert!(octree.contains_point(&Point3i::new(0, 0, 0)));
    assert!(!octree.contains_point(&Point3i::new(1, 0, 0)));
    assert!(!octree.root_node().unwrap().is_full);
}
