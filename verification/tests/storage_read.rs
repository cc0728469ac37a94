use fensor::error::Error;
use fensor::inline::{Axes, AxisRange, Range, Shape};
use fensor::mapping::{AxisContrib, CoordinateMap};
use fensor::request::{Axis, BatchRequest, Cartesian};
use fensor::schema::contiguous_strides;
use fensor::storage_read::{Run, StorageShape};

fn dims(values: &[u64]) -> Shape {
    Shape::from_vec(values.to_vec())
}

fn range(bounds: Vec<AxisRange>) -> Range {
    Range::from_vec(bounds)
}

fn compare(storage: &StorageShape<'_>, map: &CoordinateMap, request: BatchRequest) {
    let planned = storage.plan(&request, Some(map)).unwrap();
    let mut actual = vec![(0, [0, 0], 0); request.len()];

    for group in planned.groups {
        for run in group.runs {
            for i in 0..run.len {
                actual[run.output + i] = (
                    group.key[1],
                    group.key,
                    (run.offset as i128 + i as i128 * run.stride as i128) as usize,
                );
            }
        }
    }

    let expected: Vec<_> = request
        .coordinates(map.shape.as_slice())
        .unwrap()
        .iter()
        .map(|coord| {
            let base = map.resolve(coord, storage.shape, storage.strides).unwrap();
            let (id, offset) = storage.position(&base);
            (id, storage.key(&base, id), offset)
        })
        .collect();
    assert_eq!(actual, expected);
}

#[test]
fn affine_plans_match_scalar_mapping_across_blocks_and_sparse_axes() {
    let shape = [3, 5, 7];
    let strides = contiguous_strides(&shape).unwrap();
    let identity = CoordinateMap::identity(dims(&shape), strides.as_slice());
    let maps = [
        identity.clone(),
        identity.clone().transpose(Some(Axes::from_vec(vec![2, 0, 1]))).unwrap(),
        identity.clone().flip(0).unwrap().flip(2).unwrap(),
        identity
            .clone()
            .slice(range(vec![
                AxisRange::In(0, 3, 2),
                AxisRange::In(1, 5, 2),
                AxisRange::In(0, 7, 3),
            ]))
            .unwrap(),
        identity.clone().reshape(dims(&[15, 7])).unwrap(),
        identity
            .clone()
            .reshape(dims(&[105]))
            .unwrap()
            .slice(range(vec![AxisRange::In(0, 105, 11)]))
            .unwrap(),
        identity
            .clone()
            .slice(range(vec![
                AxisRange::At(1),
                AxisRange::In(0, 5, 1),
                AxisRange::At(3),
            ]))
            .unwrap()
            .broadcast(dims(&[4, 5]))
            .unwrap(),
        identity
            .clone()
            .slice(range(vec![
                AxisRange::Of(vec![2, 0, 2]),
                AxisRange::In(0, 5, 1),
                AxisRange::In(0, 7, 1),
            ]))
            .unwrap()
            .flip(1)
            .unwrap(),
    ];

    for block_shape in [vec![1, 1, 1], vec![2, 3, 4], vec![3, 5, 7]] {
        let block_strides = contiguous_strides(&block_shape).unwrap();
        let grid: Vec<_> = shape
            .iter()
            .zip(&block_shape)
            .map(|(d, b): (&u64, &u64)| d.div_ceil(*b))
            .collect();
        let grid_strides = contiguous_strides(&grid).unwrap();

        for sparse_axis in [None, Some(0), Some(1), Some(2)] {
            let storage = StorageShape {
                shape: &shape,
                strides: strides.as_slice(),
                block_shape: &block_shape,
                block_strides: block_strides.as_slice(),
                grid_strides: grid_strides.as_slice(),
                sparse_axis,
            };

            for map in &maps {
                let size = map.shape.as_slice().iter().product::<u64>();

                for start in 0..size {
                    compare(
                        &storage,
                        map,
                        BatchRequest::linear(start, (size - start).min(13) as usize).unwrap(),
                    );
                }

                let axes = map
                    .shape
                    .as_slice()
                    .iter()
                    .map(|d| Axis::Selected(vec![(*d - 1), 0, 0]))
                    .collect();
                compare(
                    &storage,
                    map,
                    BatchRequest::rectangles(vec![Cartesian::new(axes).unwrap()]).unwrap(),
                );
            }
        }
    }
}

#[test]
fn progressions_handle_arbitrary_signed_steps_and_carries() {
    let shape = [3, 5, 7];
    let strides = [35, 7, 1];
    let storage = StorageShape {
        shape: &shape,
        strides: &strides,
        block_shape: &[2, 3, 4],
        block_strides: &[12, 4, 1],
        grid_strides: &[4, 2, 1],
        sparse_axis: Some(1),
    };

    for start in 0..105 {
        for step in -104..=104 {
            let mut len = 1;

            while len < 16 && (0..105).contains(&(start + len * step)) {
                len += 1;
            }

            let map = CoordinateMap {
                base_offset: start,
                axes: vec![AxisContrib::Stride(step)],
                shape: dims(&[len as usize as u64]),
            };
            compare(
                &storage,
                &map,
                BatchRequest::linear(0, len as usize).unwrap(),
            );
        }
    }
}

#[test]
fn compact_runs_reduce_mapping_work_and_preserve_broadcasts() {
    let storage = StorageShape {
        shape: &[8, 8],
        strides: &[8, 1],
        block_shape: &[8, 8],
        block_strides: &[8, 1],
        grid_strides: &[1, 1],
        sparse_axis: None,
    };
    let identity = CoordinateMap::identity(dims(&[8, 8]), &[8, 1]);

    for (map, expected_runs) in [
        (identity.clone(), 1),
        (identity.clone().transpose(None).unwrap(), 8),
        (identity.clone().flip(1).unwrap(), 8),
        (
            identity
                .clone()
                .slice(range(vec![AxisRange::In(0, 8, 1), AxisRange::In(0, 1, 1)]))
                .unwrap()
                .broadcast(dims(&[8, 512]))
                .unwrap(),
            8,
        ),
    ] {
        let size = map.shape.as_slice().iter().product::<u64>() as usize;
        let plan = storage
            .plan(&BatchRequest::linear(0, size).unwrap(), Some(&map))
            .unwrap();
        let runs: usize = plan.groups.iter().map(|group| group.runs.len()).sum();
        assert_eq!(runs, expected_runs);
    }

    let huge = StorageShape {
        shape: &[1_000_000_000, 1_000_000_000],
        strides: &[1_000_000_000, 1],
        block_shape: &[1, 4096],
        block_strides: &[4096, 1],
        grid_strides: &[244141, 1],
        sparse_axis: None,
    };
    let request = BatchRequest::linear(999_999_999_999_999_968, 32).unwrap();
    assert!(huge.plan(&request, None).unwrap().len() <= 2);
}

#[test]
fn singleton_axes_do_not_expand_narrow_requests() {
    let storage = StorageShape {
        shape: &[4097, 1],
        strides: &[1, 1],
        block_shape: &[128, 1],
        block_strides: &[1, 1],
        grid_strides: &[1, 1],
        sparse_axis: None,
    };

    for request in [
        BatchRequest::linear(0, 4096).unwrap(),
        BatchRequest::rectangles(vec![Cartesian::new(vec![
            Axis::range(0, 4096),
            Axis::Selected(vec![0]),
        ])
        .unwrap()])
        .unwrap(),
    ] {
        let runs = storage.plan(&request, None).unwrap();
        assert_eq!(runs.len(), 32);
    }
}

#[test]
fn plans_fail_by_the_first_fault() {
    let storage = StorageShape {
        shape: &[8, 8],
        strides: &[8, 1],
        block_shape: &[8, 8],
        block_strides: &[8, 1],
        grid_strides: &[1, 1],
        sparse_axis: None,
    };
    let view = |offset: i128, stride: i128| CoordinateMap {
        base_offset: offset,
        axes: vec![AxisContrib::Stride(stride)],
        shape: dims(&[3]),
    };
    let plan = |request: &BatchRequest, map: &CoordinateMap| storage.plan(request, Some(map));
    let span = BatchRequest::linear(0, 3).unwrap();
    assert!(plan(&span, &view(60, 1)).is_ok());
    // The last element is not one of the tensor.
    assert!(matches!(plan(&span, &view(62, 1)), Err(Error::InvalidCoord(_))));
    assert!(matches!(plan(&span, &view(1, -1)), Err(Error::InvalidCoord(_))));
    // The offset of the last element cannot be computed.
    assert!(matches!(plan(&span, &view(0, i128::MAX)), Err(Error::InvalidLayout(_))));
    let last = BatchRequest::linear(2, 1).unwrap();
    assert!(matches!(plan(&last, &view(0, i128::MAX)), Err(Error::InvalidLayout(_))));
    // Of two boxes, the first that fails decides.
    let boxes = |places: [u64; 2]| {
        let boxes = places.map(|n| Cartesian::new(vec![Axis::range(n, 1)]).unwrap());
        BatchRequest::rectangles(boxes.into_iter().collect()).unwrap()
    };
    let steep = view(0, i128::MAX / 2 + 1);
    assert!(matches!(plan(&boxes([1, 2]), &steep), Err(Error::InvalidCoord(_))));
    assert!(matches!(plan(&boxes([2, 1]), &steep), Err(Error::InvalidLayout(_))));
    // The request is not one of the view.
    let long = BatchRequest::linear(1, 3).unwrap();
    assert!(matches!(plan(&long, &view(0, 1)), Err(Error::InvalidCoord(_))));
    // A listed coordinate is resolved by itself.
    let listed = BatchRequest::explicit(vec![vec![0], vec![2]]).unwrap();
    assert!(matches!(plan(&listed, &view(63, 1)), Err(Error::InvalidCoord(_))));
    let mut wide = view(0, 0);
    wide.shape = dims(&[u64::MAX, 2]);
    wide.axes = vec![AxisContrib::Stride(0), AxisContrib::Stride(0)];
    assert!(matches!(plan(&span, &wide), Err(Error::InvalidSchema(_))));
}

#[test]
fn malformed_progressions_and_runs_fail_closed() {
    let storage = StorageShape {
        shape: &[8, 8],
        strides: &[8, 1],
        block_shape: &[8, 8],
        block_strides: &[8, 1],
        grid_strides: &[1, 1],
        sparse_axis: None,
    };

    for (offset, stride) in [(64, 1), (-1, 1), (1, -1), (i128::MAX, i128::MAX)] {
        let map = CoordinateMap {
            base_offset: offset,
            axes: vec![AxisContrib::Stride(stride)],
            shape: dims(&[3]),
        };
        assert!(storage
            .plan(&BatchRequest::linear(0, 3).unwrap(), Some(&map))
            .is_err());
    }
    assert!(storage
        .plan(&BatchRequest::linear(63, 2).unwrap(), None)
        .is_err());

    for run in [
        Run {
            output: 0,
            offset: 0,
            stride: -1,
            len: 2,
        },
        Run {
            output: usize::MAX,
            offset: 0,
            stride: 0,
            len: 2,
        },
        Run {
            output: 0,
            offset: 63,
            stride: 1,
            len: 2,
        },
    ] {
        let mut output = vec![0; 64];
        assert!(run.scatter(&[1; 64], &mut output).is_err());
        assert!(output.iter().all(|v| *v == 0));
    }
}
