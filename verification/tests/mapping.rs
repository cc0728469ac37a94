use std::sync::Arc;

use fensor::error::Error;
use fensor::inline::{AxisRange, Axes, Coord, Range, Shape};
use fensor::mapping::{AxisContrib, CoordinateMap, GatherOffsets, StorageSlice};
use fensor::schema::contiguous_strides;

fn dims(values: &[u64]) -> Shape {
    Shape::from_vec(values.to_vec())
}

#[test]
fn gather_transforms_share_the_original_table() {
    let original = GatherOffsets::from(vec![9, 2, 9, 4, 7, 3]);
    let sliced = original.slice(1, 2, 3).unwrap();
    let flipped = sliced.flipped();
    let nested = flipped.slice(1, 1, 2).unwrap();

    for view in [&sliced, &flipped, &nested] {
        assert!(Arc::ptr_eq(&original.offsets, &view.offsets));
    }
    assert_eq!(
        (0..3).map(|i| *flipped.get(i).unwrap()).collect::<Vec<_>>(),
        [3, 4, 2]
    );
    assert_eq!(
        (0..2).map(|i| *nested.get(i).unwrap()).collect::<Vec<_>>(),
        [4, 2]
    );
    assert_eq!(*original.get(0).unwrap(), *original.get(2).unwrap());
    assert_eq!(
        *nested
            .slice(1, usize::MAX, 1)
            .unwrap()
            .flipped()
            .get(0)
            .unwrap(),
        2
    );
}

#[test]
fn identity_is_structural_and_mapping_reuses_scratch() {
    let shape = dims(&[3, 4]);
    let strides = contiguous_strides(shape.as_slice()).unwrap();
    let map = CoordinateMap::identity(shape.clone(), strides.as_slice());
    assert!(map.is_identity(shape.as_slice(), strides.as_slice()));
    let flipped = map.clone().flip(1).unwrap();
    assert!(!flipped.is_identity(shape.as_slice(), strides.as_slice()));
    assert!(flipped
        .clone()
        .flip(1)
        .unwrap()
        .is_identity(shape.as_slice(), strides.as_slice()));
    let mut out = Coord::new();
    let ptr = out.as_slice().as_ptr();

    for row in 0..3 {
        for col in 0..4 {
            flipped
                .resolve_into(&[row, col], shape.as_slice(), strides.as_slice(), &mut out)
                .unwrap();
            assert_eq!(out.as_slice(), &[row, 3 - col]);
            assert_eq!(out.as_slice().as_ptr(), ptr);
        }
    }

    let mut bad = map;
    bad.base_offset = 12;
    assert!(bad
        .resolve_into(&[0, 0], shape.as_slice(), strides.as_slice(), &mut out)
        .is_err());
    bad.base_offset = i128::MAX;
    assert!(bad
        .resolve_into(&[2, 3], shape.as_slice(), strides.as_slice(), &mut out)
        .is_err());
}

#[test]
fn affine_views_have_an_offset_and_strides() {
    let map = CoordinateMap::identity(dims(&[4, 5, 6]), &[30, 6, 1]);
    let map = map.transpose(Some(Axes::from_vec(vec![2, 0, 1]))).unwrap().flip(0).unwrap();
    assert_eq!(map.affine().unwrap(), Some((5, vec![-1, 30, 6])));
    let table = map
        .slice(Range::from_vec(vec![
            AxisRange::Of(vec![3, 0]),
            AxisRange::At(2),
            AxisRange::In(1, 5, 2),
        ]))
        .unwrap();
    assert_eq!(table.affine().unwrap(), None);
    assert_eq!(table.flat_offset(&[1, 1]).unwrap(), 5 + 60 + 6 + 12);
}

#[test]
fn views_that_follow_axes_are_found() {
    let shape = [4, 6];
    let strides = [6, 1];
    let map = CoordinateMap::identity(dims(&shape), &strides)
        .slice(Range::from_vec(vec![AxisRange::At(2), AxisRange::In(1, 6, 2)]))
        .unwrap();
    let follows = map.storage_slice(&shape, &strides).unwrap().unwrap();
    assert_eq!(follows.origins, vec![2, 1]);
    assert_eq!(follows.axes, vec![(1, 2)]);
    assert_eq!(follows.bounds(&[(2, 3), (2, 5)]), Some(vec![(1, 2)]));
    assert_eq!(follows.bounds(&[(0, 2), (2, 5)]), None);
    let flipped = CoordinateMap::identity(dims(&shape), &strides).flip(0).unwrap();
    assert!(flipped.storage_slice(&shape, &strides).unwrap().is_none());
    let whole = StorageSlice::identity(&shape);
    assert_eq!(whole.origins, vec![0, 0]);
    assert_eq!(whole.axes, vec![(0, 1), (1, 1)]);
}

#[test]
fn offsets_outside_the_machine_are_refused() {
    let map = CoordinateMap {
        base_offset: i128::MAX,
        axes: vec![AxisContrib::Stride(1)],
        shape: dims(&[3]),
    };
    assert!(matches!(map.flat_offset(&[1]), Err(Error::InvalidCoord(_))));
    assert_eq!(map.flat_offset(&[0]).unwrap(), i128::MAX);
    assert!(matches!(map.flat_offset(&[0, 0]), Err(Error::InvalidCoord(_))));
}
