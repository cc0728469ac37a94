use std::collections::BTreeSet;

use fensor::element::TensorElement;
use fensor::error::Error;
use fensor::expression::{EvaluatedBatch, MAX_BATCH_ELEMENTS};
use fensor::inline::{Shape, Strides};
use fensor::mapping::CoordinateMap;
use fensor::matmul::{combine_partial, operand_request, MatMulView};
use fensor::matmul_plan::{
    contraction_step, linear_plans, plan_rectangles, plan_request, plan_tiles, MatrixPlan, Scatter,
    MAX_RECTANGLE_AMPLIFICATION, TILE_SIDE,
};
use fensor::request::{
    linear_requests, tiled_requests, Axis, BatchRequest, Cartesian, RequestKind,
};
use fensor::schema::{contiguous_strides, Layout};
use fensor::traits::{TensorGeometry, TensorTransform, TensorViewSemantics};
use fensor::view::TensorView;

fn dims(values: &[u64]) -> Shape {
    Shape::from_vec(values.to_vec())
}

fn identity(shape: &[u64]) -> (Strides, CoordinateMap) {
    let strides = contiguous_strides(shape).unwrap();
    let mapping = CoordinateMap::identity(dims(shape), strides.as_slice());
    (strides, mapping)
}

fn tiles(shape: &[u64]) -> Vec<BatchRequest> {
    let mut requests = tiled_requests(shape).unwrap();
    let mut all = Vec::new();
    while let Some(request) = requests.next() {
        all.push(request);
    }
    all
}

fn spans(shape: &[u64]) -> Vec<BatchRequest> {
    let mut requests = linear_requests(shape).unwrap();
    let mut all = Vec::new();
    while let Some(request) = requests.next() {
        all.push(request);
    }
    all
}

#[test]
fn positions_in_a_row_are_planned_tile_by_tile() {
    let plans = linear_plans(30, 4, &[2, 33]);
    let [first, second] = plans.as_slice() else { panic!("expected two plans") };
    assert!(first.prefix.is_empty() && second.prefix.is_empty());
    assert_eq!(first.rectangle.rows, [0, 1]);
    assert_eq!(first.rectangle.columns, [0, 30, 31]);
    let Scatter::Spans(spans) = &first.rectangle.scatter else { panic!("expected spans") };
    assert_eq!(spans.as_slice(), [(0, 1, 2), (3, 3, 1)]);
    assert_eq!(second.rectangle.rows, [0]);
    assert_eq!(second.rectangle.columns, [32]);
    let Scatter::Spans(spans) = &second.rectangle.scatter else { panic!("expected spans") };
    assert_eq!(spans.as_slice(), [(2, 0, 1)]);
}

#[test]
fn tile_planning_is_bounded_and_preserves_requests() {
    let shape = [2, 1000, 1000];
    let (strides, mapping) = identity(&shape);
    // Fixed 64-by-64 fixture spans four current spatial tiles.
    let coords: Vec<_> = (0..64 * 64)
        .map(|i| vec![1, (i / 64) as u64, (i % 64) as u64])
        .collect();
    let tiles = plan_tiles(
        &mapping,
        &shape,
        strides.as_slice(),
        &BatchRequest::explicit(coords).unwrap(),
    )
    .unwrap();
    assert_eq!(tiles.len(), 4);
    assert_eq!(
        tiles.entries.iter().map(|(_, list)| list.len()).sum::<usize>(),
        64 * 64
    );

    for (_, requests) in &tiles.entries {
        let rows: BTreeSet<_> = requests.iter().map(|(_, r, _)| r).collect();
        let columns: BTreeSet<_> = requests.iter().map(|(_, _, c)| c).collect();
        assert!(
            rows.len() * contraction_step(rows.len(), columns.len()) <= MAX_BATCH_ELEMENTS
        );
        assert!(
            columns.len() * contraction_step(rows.len(), columns.len()) <= MAX_BATCH_ELEMENTS
        );
    }
    assert!(BatchRequest::explicit(vec![vec![0, 0, 0]; 4097]).is_err());
    let requests = plan_tiles(
        &mapping,
        &shape,
        strides.as_slice(),
        &BatchRequest::explicit(vec![vec![0, 1, 2], vec![0, 1, 2]]).unwrap(),
    )
    .unwrap();
    assert_eq!(&requests.entries[0].1, &vec![(0, 1, 2), (1, 1, 2)]);
}

#[test]
fn irregular_rectangles_bound_arithmetic_and_retain_duplicates() {
    for requests in [
        (0..TILE_SIDE).map(|i| (i, i as u64, i as u64)).collect::<Vec<_>>(),
        (0..TILE_SIDE * TILE_SIDE)
            .map(|i| (i, (i / TILE_SIDE) as u64, (i % TILE_SIDE) as u64))
            .collect(),
        vec![(0, 0, 0), (1, 0, 0), (2, 1, 1), (3, 0, 1)],
    ] {
        let unique: BTreeSet<_> = requests.iter().map(|(_, r, c)| (*r, *c)).collect();
        let rectangles = plan_rectangles(requests.clone());
        assert!(
            rectangles
                .iter()
                .map(|r| r.rows.len() * r.columns.len())
                .sum::<usize>()
                <= MAX_RECTANGLE_AMPLIFICATION * unique.len()
        );
        let mut seen = vec![false; requests.len()];

        for rect in rectangles {
            for (position, offset) in rect.scatter.each(rect.columns.len()) {
                assert!(!seen[position]);
                seen[position] = true;
                assert_eq!(
                    (
                        rect.rows[offset / rect.columns.len()],
                        rect.columns[offset % rect.columns.len()]
                    ),
                    (requests[position].1, requests[position].2)
                );
            }
        }
        assert!(seen.into_iter().all(|v| v));
    }
    assert_eq!(
        contraction_step(TILE_SIDE, TILE_SIDE),
        MAX_BATCH_ELEMENTS / TILE_SIDE
    );
    assert_eq!(contraction_step(1, 1), MAX_BATCH_ELEMENTS);
    assert_eq!(contraction_step(2, 1), MAX_BATCH_ELEMENTS / 2);
    assert!(combine_partial(&mut Some(vec![1u8]), vec![2, 3], 1).is_err());
    assert!(combine_partial(&mut Some(vec![1u8, 2]), vec![3], 1).is_err());
}

#[test]
fn planner_work_counts() {
    for (name, m, k, n) in [
        ("square", 32, 129, 32),
        ("wide", 32, 17, 4097),
        ("tall", 129, 129, 1),
        ("dot", 1, 4097, 1),
    ] {
        let shape = [m, n];
        let (strides, mapping) = identity(&shape);
        let mut totals = Vec::new();

        for revised in [false, true] {
            let requests = if revised { tiles(&shape) } else { spans(&shape) };
            let mut operands = 0;
            let mut calls = 0;

            for request in requests {
                for plan in plan_request(&mapping, &shape, strides.as_slice(), &request).unwrap() {
                    let rect = plan.rectangle;
                    operands += (rect.rows.len() + rect.columns.len()) * k;
                    calls += k.div_ceil(if revised {
                        contraction_step(rect.rows.len(), rect.columns.len())
                    } else {
                        // Historical fixed-chunk baseline, not the current adaptive limit.
                        128
                    });
                }
            }
            totals.push((operands, calls));
            println!("PLAN,{name},{revised},{operands},{calls}");
        }
        assert!(totals[1].0 <= totals[0].0);
        assert!(totals[1].1 <= totals[0].1);
    }
}

fn planned_coordinates(plans: &[MatrixPlan], len: usize) -> Vec<Vec<u64>> {
    let mut coords = vec![Vec::new(); len];

    for plan in plans {
        let rect = &plan.rectangle;
        for (position, offset) in rect.scatter.each(rect.columns.len()) {
            assert!(coords[position].is_empty());
            let mut coord = plan.prefix.clone();
            coord.extend([
                rect.rows[offset / rect.columns.len()],
                rect.columns[offset % rect.columns.len()],
            ]);
            coords[position] = coord;
        }
    }
    coords
}

#[test]
fn compact_and_explicit_plans_agree() {
    let shape = [2, 35, 67];
    let (strides, mapping) = identity(&shape);
    let mut requests = tiles(&shape);
    requests.extend([
        BatchRequest::linear(66, 3000).unwrap(),
        BatchRequest::linear(2000, 2690).unwrap(),
        BatchRequest::rectangles(vec![Cartesian::new(vec![
            Axis::Selected(vec![1, 0, 1]),
            Axis::Selected(vec![34, 0, 34, 1]),
            Axis::Selected(vec![66, 0, 31, 32]),
        ])
        .unwrap()])
        .unwrap(),
    ]);

    for request in requests {
        let expected = request.coordinates(&shape).unwrap();
        let direct = plan_request(&mapping, &shape, strides.as_slice(), &request).unwrap();
        assert!(direct
            .iter()
            .all(|p| !matches!(p.rectangle.scatter, Scatter::Explicit(_))));
        let explicit = plan_request(
            &mapping,
            &shape,
            strides.as_slice(),
            &BatchRequest::explicit(expected.clone()).unwrap(),
        )
        .unwrap();
        assert_eq!(planned_coordinates(&direct, request.len()), expected);
        assert_eq!(planned_coordinates(&explicit, request.len()), expected);
    }

    let flipped = mapping.flip(2).unwrap();
    let request = BatchRequest::linear(60, 100).unwrap();
    let expected: Vec<_> = request
        .coordinates(&shape)
        .unwrap()
        .iter()
        .map(|c| flipped.resolve(c, &shape, strides.as_slice()).unwrap())
        .collect();
    let plans = plan_request(&flipped, &shape, strides.as_slice(), &request).unwrap();
    assert!(plans
        .iter()
        .all(|p| matches!(p.rectangle.scatter, Scatter::Explicit(_))));
    assert_eq!(planned_coordinates(&plans, request.len()), expected);
}

#[test]
fn compact_planning_representation_counts() {
    let shape = [32, 4097];
    let (strides, mapping) = identity(&shape);
    let mut descriptors = 0;
    let mut logical = 0;
    let mut scatter_slots = 0;
    let mut calls = 0;

    for request in tiles(&shape) {
        let RequestKind::Rectangles(rectangles) = request.kind() else {
            panic!("expanded regular traversal")
        };
        descriptors += rectangles.len();
        logical += request.len();

        for plan in plan_request(&mapping, &shape, strides.as_slice(), &request).unwrap() {
            let Scatter::Cartesian { rows, columns, .. } = &plan.rectangle.scatter else {
                panic!("expanded regular scatter")
            };
            scatter_slots += rows.len() + columns.len();
            calls += 17usize.div_ceil(contraction_step(
                plan.rectangle.rows.len(),
                plan.rectangle.columns.len(),
            ));
        }
    }
    assert_eq!(
        (logical, descriptors, scatter_slots, calls),
        (131104, 129, 8225, 129)
    );
    println!(
        "COMPACT,wide,logical={logical},rectangles={descriptors},scatter_axis_slots={scatter_slots},matmul_calls={calls},pre_evaluation_coordinate_payloads=0"
    );
}

fn source(shape: &[u64], layout: Layout) -> TensorView<()> {
    TensorView::new_identity((), dims(shape), contiguous_strides(shape).unwrap(), layout)
}

fn left_value(coord: &[u64]) -> u8 {
    (coord.iter().fold(3u64, |n, c| n * 7 + c) % 251) as u8
}

fn right_value(coord: &[u64]) -> u8 {
    (coord.iter().fold(5u64, |n, c| n * 11 + c) % 241) as u8
}

fn answer(
    request: &BatchRequest,
    shape: &[u64],
    value: fn(&[u64]) -> u8,
    mask: Option<fn(&[u64]) -> u8>,
) -> EvaluatedBatch<u8> {
    let coords = request.coordinates(shape).unwrap();
    EvaluatedBatch {
        values: coords.iter().map(|c| value(c)).collect(),
        support: mask.map(|mask| coords.iter().map(|c| mask(c)).collect()),
    }
}

fn evaluate(
    view: &MatMulView<TensorView<()>, TensorView<()>>,
    request: &BatchRequest,
    masks: Option<(fn(&[u64]) -> u8, fn(&[u64]) -> u8)>,
) -> EvaluatedBatch<u8> {
    let left_shape = view.left().shape().to_vec();
    let right_shape = view.right().shape().to_vec();
    let mut batch = view.blank::<u8>(request.len());
    for plan in view.plan(request).unwrap() {
        let mut tile = view.begin::<u8>(plan);
        while let Some((left, right)) = tile.operands(&left_shape, &right_shape).unwrap() {
            assert!(left.len() <= MAX_BATCH_ELEMENTS && right.len() <= MAX_BATCH_ELEMENTS);
            let left = answer(&left, &left_shape, left_value, masks.map(|m| m.0));
            let right = answer(&right, &right_shape, right_value, masks.map(|m| m.1));
            tile.accept(left, right).unwrap();
        }
        tile.scatter(&mut batch.values, &mut batch.support);
    }
    batch.masked().unwrap()
}

fn expected(coord: &[u64], inner: u64) -> u8 {
    let n = coord.len();
    let mut sum = 0u64;
    for k in 0..inner {
        let mut left = coord.to_vec();
        left[n - 1] = k;
        let mut right = coord.to_vec();
        right[n - 2] = k;
        sum += left_value(&left) as u64 * right_value(&right) as u64;
    }
    (sum % 256) as u8
}

#[test]
fn tiles_hold_the_products_of_rows_and_columns() {
    // The contraction takes more than one step for every tile.
    let view = MatMulView::new(
        source(&[2, 35, 300], Layout::Dense),
        source(&[2, 300, 40], Layout::Sparse { axis: None }),
    )
    .unwrap();
    assert_eq!(view.shape(), &[2, 35, 40]);
    assert_eq!(view.layout(), Layout::Dense);
    assert!(!view.is_base_tensor());
    assert!(!view.supports_write_through());

    for request in [
        BatchRequest::linear(1390, 60).unwrap(),
        BatchRequest::explicit(vec![vec![1, 34, 39], vec![0, 0, 0], vec![1, 34, 39]]).unwrap(),
        BatchRequest::rectangles(vec![Cartesian::new(vec![
            Axis::range(1, 1),
            Axis::Selected(vec![33, 2, 33]),
            Axis::range(30, 5),
        ])
        .unwrap()])
        .unwrap(),
    ] {
        let batch = evaluate(&view, &request, None);
        assert!(batch.support.is_none());
        let coords = request.coordinates(view.shape()).unwrap();
        let wanted: Vec<_> = coords.iter().map(|c| expected(c, 300)).collect();
        assert_eq!(batch.values, wanted);
    }

    let turned = view.transpose(None).unwrap().flip(0).unwrap();
    assert_eq!(turned.shape(), &[40, 35, 2]);
    let request = BatchRequest::linear(0, 50).unwrap();
    let batch = evaluate(&turned, &request, None);
    let coords = request.coordinates(turned.shape()).unwrap();
    let wanted: Vec<_> =
        coords.iter().map(|c| expected(&[c[2], c[1], 39 - c[0]], 300)).collect();
    assert_eq!(batch.values, wanted);
}

#[test]
fn products_are_supported_where_a_row_or_a_column_is() {
    let sparse = Layout::Sparse { axis: None };
    let view = MatMulView::new(source(&[3, 4], sparse), source(&[4, 2], sparse)).unwrap();
    assert_eq!(view.layout(), Layout::Sparse { axis: None });
    let left: fn(&[u64]) -> u8 = |c| if c == [1, 2] { 1 } else { 0 };
    let right: fn(&[u64]) -> u8 = |c| if c == [3, 0] { 1 } else { 0 };
    let request = BatchRequest::linear(0, 6).unwrap();
    let batch = evaluate(&view, &request, Some((left, right)));
    assert_eq!(batch.support, Some(vec![1, 0, 1, 1, 1, 0]));
    assert_eq!(batch.values[1], 0);
    assert_eq!(batch.values[5], 0);
    assert_eq!(batch.values[0], expected(&[0, 0], 4));
    assert_eq!(batch.values[3], expected(&[1, 1], 4));
}

#[test]
fn operands_are_boxes_of_rows_and_columns() {
    let left = operand_request(&[2, 9, 7], &[1], &[3, 8], 4, 2, true).unwrap();
    assert_eq!(
        left.coordinates(&[2, 9, 7]).unwrap(),
        vec![vec![1, 3, 4], vec![1, 3, 5], vec![1, 8, 4], vec![1, 8, 5]]
    );
    let right = operand_request(&[2, 7, 9], &[1], &[3, 8], 4, 2, false).unwrap();
    assert_eq!(
        right.coordinates(&[2, 7, 9]).unwrap(),
        vec![vec![1, 4, 3], vec![1, 4, 8], vec![1, 5, 3], vec![1, 5, 8]]
    );
    assert!(matches!(
        operand_request(&[2, 9, 7], &[1], &[9], 0, 1, true),
        Err(Error::InvalidCoord(_))
    ));
}

#[test]
fn partial_products_are_added_item_by_item() {
    let mut sums = None;
    combine_partial(&mut sums, vec![250u8, 1], 2).unwrap();
    assert_eq!(sums, Some(vec![250, 1]));
    combine_partial(&mut sums, vec![10u8, 2], 2).unwrap();
    assert_eq!(sums, Some(vec![4, 3]));
    assert_eq!(250u8.sum(10), 4);
    assert!(0u8.is_zero());
}

#[test]
fn products_need_matching_shapes() {
    let left = source(&[2, 3], Layout::Dense);
    assert!(MatMulView::new(left.clone(), source(&[4, 2], Layout::Dense)).is_err());
    assert!(MatMulView::new(left, source(&[3, 2], Layout::Dense)).is_ok());
}
