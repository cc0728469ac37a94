use fensor::error::Error;
use fensor::inline::{AxisRange, Range};
use fensor::validate::{
    full_range, iter_range_coords, matmul_output_shape, validate_coord,
};

#[test]
fn matrices_that_do_not_fit_are_named() {
    let err = matmul_output_shape(&[2, 3], &[4, 5]).expect_err("inner dimensions differ");
    let Error::InvalidLayout(message) = err else { panic!("{err:?}") };
    assert_eq!(
        message,
        "invalid dimensions for matrix multiply: left=[2, 3], right=[4, 5] \
         (inner dimensions 3 and 4 do not match)"
    );
}

#[test]
fn range_cardinality_handles_empty_selections_and_overflow() {
    let long = u64::MAX / 2;
    let selection = vec![AxisRange::In(0, long, 1), AxisRange::Of(vec![0, 1, 0])];
    assert!(matches!(
        iter_range_coords(&[long, 2], &Range::from_vec(selection.clone())),
        Err(Error::InvalidLayout(_))
    ));

    let mut empty = selection;
    empty.push(AxisRange::Of(Vec::new()));
    let mut coords = iter_range_coords(&[long, 2, 1], &Range::from_vec(empty)).unwrap();
    assert_eq!(coords.remaining(), 0);
    assert_eq!(coords.next(), None);
    assert_eq!(coords.next(), None);
}

#[test]
fn matrix_shapes_reject_overflow_and_empty_dimensions() {
    assert!(matmul_output_shape(&[u64::MAX, 2], &[2, 1]).is_err());
    assert!(matmul_output_shape(&[u64::MAX, 1], &[1, 2]).is_err());
    assert!(matmul_output_shape(&[1, 0], &[0, 1]).is_err());
}

#[test]
fn matrix_shapes_contract_the_inner_dimension() {
    assert_eq!(
        matmul_output_shape(&[7, 2, 3], &[7, 3, 5]).unwrap().as_slice(),
        &[7, 2, 5]
    );
    let error = matmul_output_shape(&[2, 3], &[4, 5]).unwrap_err();
    assert!(matches!(error, Error::InvalidLayout(_)));
    assert!(error.message().contains("left=[2, 3], right=[4, 5]"));
    assert!(matches!(matmul_output_shape(&[3], &[3, 1]), Err(Error::InvalidLayout(_))));
}

#[test]
fn coordinates_lie_below_their_dimensions() {
    assert!(validate_coord(&[2, 3], &[1, 2]).is_ok());
    assert!(matches!(validate_coord(&[2, 3], &[1, 3]), Err(Error::InvalidCoord(_))));
    assert!(matches!(validate_coord(&[2, 3], &[1]), Err(Error::InvalidCoord(_))));
}

#[test]
fn ranges_walk_in_row_major_order() {
    let range = Range::from_vec(vec![
        AxisRange::Of(vec![3, 0]),
        AxisRange::At(1),
        AxisRange::In(1, 6, 2),
    ]);
    let mut coords = iter_range_coords(&[4, 2, 6], &range).unwrap();
    assert_eq!(coords.remaining(), 6);
    let mut all = Vec::new();
    while let Some(coord) = coords.next() {
        all.push(coord);
    }
    assert_eq!(
        all,
        vec![
            vec![3, 1, 1],
            vec![3, 1, 3],
            vec![3, 1, 5],
            vec![0, 1, 1],
            vec![0, 1, 3],
            vec![0, 1, 5]
        ]
    );
    let mut whole = iter_range_coords(&[2, 1], &full_range(&[2, 1])).unwrap();
    assert_eq!(whole.next(), Some(vec![0, 0]));
    assert_eq!(whole.next(), Some(vec![1, 0]));
    assert_eq!(whole.next(), None);
}
