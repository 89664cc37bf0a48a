use building_blocks_storage::{
    Array3, Extent3i, FastArrayCompression, FastCompressedArray, PlainBytes, Point3i, Sd16, Sd8,
    Uncompressed,
};

fn extent(shape: i32) -> Extent3i {
    Extent3i::from_min_and_shape(Point3i::new(-3, 0, 5), Point3i::fill(shape))
}

fn round_trip<T: PlainBytes + PartialEq + std::fmt::Debug>(array: &Array3<T>) -> Array3<T> {
    let compression: FastArrayCompression<T, Uncompressed> = FastArrayCompression::new(Uncompressed);
    let compressed = compression.compress(array);
    assert_eq!(compressed.extent(), array.extent());
    FastArrayCompression::<T, Uncompressed>::decompress(&compressed).unwrap()
}

#[test]
fn round_trip_integers() {
    let values: Vec<i32> = (0..27).map(|i| i * 1_000_003 - 7_000_000).collect();
    let a = Array3::new(extent(3), values.clone());
    let b = round_trip(&a);
    assert_eq!(b.extent(), a.extent());
    assert_eq!(b.values(), &values);

    let a = Array3::new(extent(2), vec![0u64, 1, u64::MAX, 1 << 40, 5, 6, 7, 8]);
    assert_eq!(round_trip(&a).values(), a.values());

    let a = Array3::new(extent(2), vec![i16::MIN, -1, 0, 1, i16::MAX, 300, -300, 7]);
    assert_eq!(round_trip(&a).values(), a.values());
}

#[test]
fn round_trip_signed_distances_and_bools() {
    let a = Array3::new(extent(2), vec![Sd8(-128), Sd8(-1), Sd8(0), Sd8(1), Sd8(127), Sd8(5), Sd8(-5), Sd8(64)]);
    assert_eq!(round_trip(&a).values(), a.values());
    let a = Array3::new(extent(1), vec![Sd16(-12345)]);
    assert_eq!(round_trip(&a).values(), a.values());
    let a = Array3::new(extent(2), vec![true, false, false, true, true, true, false, true]);
    assert_eq!(round_trip(&a).values(), a.values());
}

#[test]
fn round_trip_full_boolean_cube() {
    let e = Extent3i::from_min_and_shape(Point3i::fill(0), Point3i::fill(16));
    let a = Array3::fill(e, true);
    let b = round_trip(&a);
    assert_eq!(b.extent(), &e);
    assert_eq!(b.values().len(), 4096);
    assert!(b.values().iter().all(|v| *v));
}

#[test]
fn round_trip_empty_extent() {
    let e = Extent3i::from_min_and_shape(Point3i::fill(4), Point3i::new(0, 3, 3));
    let a: Array3<u32> = Array3::new(e, Vec::new());
    let b = round_trip(&a);
    assert_eq!(b.extent(), &e);
    assert!(b.values().is_empty());
}

#[test]
fn compressed_bytes_are_little_endian_values() {
    let compression: FastArrayCompression<i16, Uncompressed> = FastArrayCompression::new(Uncompressed);
    let a = Array3::new(extent(1), vec![-2i16]);
    let c: FastCompressedArray<i16, Uncompressed> = compression.compress(&a);
    assert_eq!(c.compressed_bytes(), &[0xfe, 0xff]);

    let compression: FastArrayCompression<u32, Uncompressed> = FastArrayCompression::new(Uncompressed);
    let a = Array3::new(extent(1), vec![0x0102_0304u32]);
    assert_eq!(compression.compress(&a).compressed_bytes(), &[4, 3, 2, 1]);
}

#[test]
fn plain_bytes_layout() {
    let mut out = Vec::new();
    Sd8(-1).append_bytes(&mut out);
    true.append_bytes(&mut out);
    7u16.append_bytes(&mut out);
    assert_eq!(out, vec![0xff, 1, 7, 0]);
    assert_eq!(<Sd8 as PlainBytes>::read_bytes(&out, 0), Sd8(-1));
    assert_eq!(<u16 as PlainBytes>::read_bytes(&out, 2), 7);
    assert_eq!(<i32 as PlainBytes>::byte_size(), 4);
}
