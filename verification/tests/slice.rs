use fensor::expression::MAX_BATCH_ELEMENTS;
use fensor::request::{Axis, RequestKind};
use fensor::slice::Slice;

#[test]
fn ordered_coverage_and_permanent_exhaustion() {
    let slice = Slice::new(
        &[3, 6000],
        vec![
            Axis::Selected(vec![2, 0, 2]),
            Axis::Span {
                start: 1,
                step: 2,
                len: 2999,
            },
        ],
    )
    .unwrap();
    let mut requests = slice.requests();
    let mut actual = Vec::new();

    while let Some(request) = requests.next() {
        assert!(request.len() <= MAX_BATCH_ELEMENTS);
        actual.extend(request.coordinates(&[3, 6000]).unwrap());
    }

    let expected: Vec<_> = [2, 0, 2]
        .into_iter()
        .flat_map(|row| (0..2999).map(move |i| vec![row, 1 + i * 2]))
        .collect();
    assert_eq!(actual, expected);
    assert!(requests.next().is_none());
    assert!(requests.next().is_none());
    assert!(Slice::new(&[4], vec![Axis::range(4, 0)])
        .unwrap()
        .requests()
        .next()
        .is_none());
    assert!(Slice::full(&[]).is_err());
    let mut scalar = Slice::new(&[], vec![]).unwrap().requests();
    assert_eq!(scalar.next().unwrap().len(), 1);
    assert!(scalar.next().is_none());
}

#[test]
fn validation_and_huge_bounded_prefix() {
    assert!(Slice::new(&[2], vec![]).is_err());
    let slice = Slice::full(&[3]).unwrap();
    assert!(slice.intersect(&[]).is_err());
    assert!(slice.intersect(&[(2, 1)]).is_err());
    assert!(Slice::new(
        &[10],
        vec![Axis::Span {
            start: 0,
            step: 0,
            len: 1
        }]
    )
    .is_err());
    assert!(Slice::new(
        &[u64::MAX],
        vec![Axis::Span {
            start: 1,
            step: u64::MAX,
            len: 2
        }]
    )
    .is_err());
    assert!(Slice::new(&[3], vec![Axis::Selected(vec![3])]).is_err());
    assert!(Slice::full(&[u64::MAX, 2]).is_err());
    let slice = Slice::full(&[1_000_000_000, 1_000_000_000]).unwrap();
    let request = slice.requests().next().unwrap();
    assert_eq!(request.len(), MAX_BATCH_ELEMENTS);
    assert!(matches!(request.kind(), RequestKind::Rectangles(_)));
}

#[test]
fn requests_are_as_long_as_a_batch_allows() {
    let lens = |shape: &[u64]| {
        let mut requests = Slice::full(shape).unwrap().requests();
        let mut lens = Vec::new();
        while let Some(request) = requests.next() {
            lens.push(request.len());
        }
        lens
    };
    assert_eq!(lens(&[3, 3000]), [3000, 3000, 3000]);
    assert_eq!(lens(&[10, 1000]), [4000, 4000, 2000]);
    assert_eq!(lens(&[2, 5000]), [4096, 904, 4096, 904]);
}

#[test]
fn intersections_keep_order_and_steps() {
    let slice = Slice::new(
        &[10, 10],
        vec![
            Axis::Selected(vec![7, 1, 4, 1]),
            Axis::Span {
                start: 1,
                step: 3,
                len: 3,
            },
        ],
    )
    .unwrap();
    let part = slice.intersect(&[(1, 5), (2, 8)]).unwrap();
    let mut requests = part.requests();
    let request = requests.next().unwrap();
    assert_eq!(
        request.coordinates(&[10, 10]).unwrap(),
        vec![
            vec![1, 4],
            vec![1, 7],
            vec![4, 4],
            vec![4, 7],
            vec![1, 4],
            vec![1, 7]
        ]
    );
    assert!(requests.next().is_none());
}
