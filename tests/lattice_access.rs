use building_blocks_storage::{
    copy_extent, copy_extent_from_fn, Array3, Extent3i, ForEachMut, Get, GetMut, Point3i, Stride,
};

fn p(x: i32, y: i32, z: i32) -> Point3i {
    Point3i::new(x, y, z)
}

fn counting_array() -> Array3<i32> {
    let extent = Extent3i::from_min_and_shape(p(1, 2, 3), p(2, 3, 4));
    Array3::new(extent, (0..24).collect())
}

#[test]
fn extent_counts_and_contains_points() {
    let e = Extent3i::from_min_and_shape(p(-1, 0, 2), p(3, 4, 5));
    assert_eq!(e.num_points(), 60);
    assert!(e.contains(&p(-1, 0, 2)));
    assert!(e.contains(&p(1, 3, 6)));
    assert!(!e.contains(&p(2, 3, 6)));
    assert!(!e.contains(&p(-2, 0, 2)));
    let empty = Extent3i::from_min_and_shape(p(0, 0, 0), p(0, 5, 5));
    assert_eq!(empty.num_points(), 0);
    assert!(!empty.contains(&p(0, 0, 0)));
}

#[test]
fn intersection_keeps_common_points() {
    let a = Extent3i::from_min_and_shape(p(0, 0, 0), p(4, 4, 4));
    let b = Extent3i::from_min_and_shape(p(2, -1, 3), p(4, 2, 4));
    let i = a.intersection(&b);
    assert_eq!(i, Extent3i::from_min_and_shape(p(2, 0, 3), p(2, 1, 1)));
    let far = Extent3i::from_min_and_shape(p(10, 10, 10), p(1, 1, 1));
    assert_eq!(a.intersection(&far).num_points(), 0);
}

#[test]
fn get_by_point_follows_linear_order() {
    let a = counting_array();
    assert_eq!(a.get(p(1, 2, 3)), 0);
    assert_eq!(a.get(p(2, 2, 3)), 1);
    assert_eq!(a.get(p(1, 3, 3)), 2);
    assert_eq!(a.get(p(1, 2, 4)), 6);
    assert_eq!(a.get(p(2, 4, 6)), 23);
    assert_eq!(a.stride_from_point(&p(2, 4, 6)), Stride(23));
    assert_eq!(a.get(Stride(7)), 7);
}

#[test]
fn get_mut_changes_one_value() {
    let mut a = counting_array();
    *a.get_mut(p(2, 3, 5)) = 100;
    assert_eq!(a.get(p(2, 3, 5)), 100);
    assert_eq!(a.get(p(1, 3, 5)), 14);
    *a.get_mut(Stride(0)) = -5;
    assert_eq!(a.get(p(1, 2, 3)), -5);
    let changed: Vec<i32> = a.values().iter().copied().filter(|v| *v < 0 || *v >= 24).collect();
    assert_eq!(changed, vec![-5, 100]);
}

#[test]
fn fill_holds_one_value() {
    let e = Extent3i::from_min_and_shape(p(0, 0, 0), p(2, 2, 2));
    let a = Array3::fill(e, 9u8);
    assert_eq!(a.values().len(), 8);
    assert!(a.values().iter().all(|v| *v == 9));
}

#[test]
fn copy_extent_copies_only_the_common_points() {
    let src = Array3::fill(Extent3i::from_min_and_shape(p(0, 0, 0), p(4, 4, 4)), 7u32);
    let mut dst = Array3::fill(Extent3i::from_min_and_shape(p(2, 2, 2), p(4, 4, 4)), 0u32);
    copy_extent(&Extent3i::from_min_and_shape(p(1, 1, 1), p(2, 2, 2)), &src, &mut dst);
    assert_eq!(dst.get(p(2, 2, 2)), 7);
    assert_eq!(dst.get(p(3, 2, 2)), 0);
    assert_eq!(dst.get(p(3, 3, 3)), 0);
    assert_eq!(dst.values().iter().filter(|v| **v == 7).count(), 1);
}

#[test]
fn copy_extent_between_arrays_of_different_extents() {
    let src = counting_array();
    let mut dst = Array3::fill(Extent3i::from_min_and_shape(p(0, 0, 0), p(4, 4, 8)), -1i32);
    let extent = Extent3i::from_min_and_shape(p(0, 0, 0), p(10, 10, 10));
    copy_extent(&extent, &src, &mut dst);
    for z in 0..8 {
        for y in 0..4 {
            for x in 0..4 {
                let q = p(x, y, z);
                let expected = if src.extent().contains(&q) { src.get(q) } else { -1 };
                assert_eq!(dst.get(q), expected);
            }
        }
    }
    assert_eq!(dst.get(p(2, 3, 6)), 21);
    assert_eq!(dst.get(p(2, 3, 7)), -1);
}

#[test]
fn copy_extent_from_a_function() {
    let mut map = Array3::fill(Extent3i::from_min_and_shape(p(0, 0, 0), p(4, 4, 4)), 0i32);
    let sub = Extent3i::from_min_and_shape(p(1, 1, 1), p(10, 2, 2));
    copy_extent_from_fn(&sub, &|q: Point3i| q.x * 100 + q.y * 10 + q.z, &mut map);
    assert_eq!(map.get(p(3, 2, 1)), 321);
    assert_eq!(map.get(p(1, 1, 1)), 111);
    assert_eq!(map.get(p(0, 1, 1)), 0);
    assert_eq!(map.get(p(1, 3, 1)), 0);
    assert_eq!(map.values().iter().filter(|v| **v != 0).count(), 12);
}

#[test]
fn read_extent_is_the_common_part() {
    let a = counting_array();
    let e = Extent3i::from_min_and_shape(p(0, 0, 0), p(2, 3, 4));
    assert_eq!(a.read_extent(&e), Extent3i::from_min_and_shape(p(1, 2, 3), p(1, 1, 1)));
}

#[test]
fn for_each_mut_updates_points_of_the_extent() {
    let mut a = counting_array();
    let sub = Extent3i::from_min_and_shape(p(2, 2, 3), p(5, 1, 2));
    a.for_each_mut(&sub, &|q: Point3i, v: i32| v * 10 + q.z);
    assert_eq!(a.get(p(2, 2, 3)), 13);
    assert_eq!(a.get(p(2, 2, 4)), 74);
    assert_eq!(a.get(p(1, 2, 3)), 0);
    assert_eq!(a.get(p(2, 3, 3)), 3);
}
