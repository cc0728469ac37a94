use fensor::binary::{
    Add, And, BinaryOp, BinaryView, Div, Ge, Gt, Le, Lt, Mul, Ne, Or, Pow, Rem, Sub, Xor,
};
use fensor::error::Error;
use fensor::expression::EvaluatedBatch;
use fensor::groups::{push_group, reduce_groups, GroupBatch, GroupReader};
use fensor::inline::{Axes, AxisRange, Range, Shape};
use fensor::matrix::{mt, DiagView};
use fensor::reduce::{
    accumulate, confirms_any, finish, refutes_all, Max, Min, Product, ReduceOp, ReduceView, Sum,
};
use fensor::request::BatchRequest;
use fensor::scalar::{
    AddScalar, AndScalar, DivScalar, EqScalar, GeScalar, GtScalar, LeScalar, LtScalar, MulScalar,
    NeScalar, OrScalar, PowScalar, RemScalar, SubScalar, XorScalar,
};
use fensor::schema::{contiguous_strides, Layout};
use fensor::selection::WhereView;
use fensor::traits::{TensorGeometry, TensorTransform, TensorViewSemantics};
use fensor::unary::{Abs, Not, UnaryOp, UnaryView};
use fensor::view::TensorView;

fn source(shape: &[u64], layout: Layout) -> TensorView<()> {
    TensorView::new_identity(
        (),
        Shape::from_vec(shape.to_vec()),
        contiguous_strides(shape).unwrap(),
        layout,
    )
}

fn batch(values: &[u8], support: Option<&[u8]>) -> EvaluatedBatch<u8> {
    EvaluatedBatch { values: values.to_vec(), support: support.map(|mask| mask.to_vec()) }
}

fn binary<O: BinaryOp<u8, Output = u8>>(op: O, left: &[u8], right: &[u8]) -> Vec<u8> {
    op.apply(left.to_vec(), right.to_vec()).unwrap()
}

fn unary<O: UnaryOp<u8, Output = u8>>(op: O, values: &[u8]) -> Vec<u8> {
    op.apply(values.to_vec()).unwrap()
}

const SPARSE: Layout = Layout::Sparse { axis: Some(1) };

#[test]
fn binary_operations_on_bytes() {
    let left = [250, 3, 0, 200];
    let right = [10, 5, 7, 200];
    assert_eq!(binary(Add, &left, &right), vec![4, 8, 7, 144]);
    assert_eq!(binary(Sub, &left, &right), vec![240, 254, 249, 0]);
    assert_eq!(binary(Mul, &left, &right), vec![196, 15, 0, 64]);
    assert_eq!(binary(Div, &[250, 3, 0, 9], &[10, 5, 7, 0]), vec![25, 0, 0, 0]);
    assert_eq!(binary(Pow, &[2, 3, 0, 15], &[7, 5, 0, 2]), vec![128, 243, 1, 225]);
    assert_eq!(binary(Pow, &[2, 3, 16, 255], &[8, 6, 2, 255]), vec![0, 217, 0, 255]);
    assert_eq!(binary(Rem, &[2, 17, 9, 0], &[5, 4, 0, 0]), vec![2, 1, 0, 0]);
    assert_eq!(binary(fensor::binary::Eq, &left, &right), vec![0, 0, 0, 1]);
    assert_eq!(binary(Ne, &left, &right), vec![1, 1, 1, 0]);
    assert_eq!(binary(Gt, &left, &right), vec![1, 0, 0, 0]);
    assert_eq!(binary(Ge, &left, &right), vec![1, 0, 0, 1]);
    assert_eq!(binary(Lt, &left, &right), vec![0, 1, 1, 0]);
    assert_eq!(binary(Le, &left, &right), vec![0, 1, 1, 1]);
    assert_eq!(binary(And, &[0, 2, 0, 3], &[0, 0, 4, 5]), vec![0, 0, 0, 1]);
    assert_eq!(binary(Or, &[0, 2, 0, 3], &[0, 0, 4, 5]), vec![0, 1, 1, 1]);
    assert_eq!(binary(Xor, &[0, 2, 0, 3], &[0, 0, 4, 5]), vec![0, 1, 1, 0]);
}

#[test]
fn scalar_operations_on_bytes() {
    let values = [250, 3, 0, 9];
    assert_eq!(unary(AddScalar::new(10), &values), vec![4, 13, 10, 19]);
    assert_eq!(unary(SubScalar::new(4), &values), vec![246, 255, 252, 5]);
    assert_eq!(unary(MulScalar::new(3), &values), vec![238, 9, 0, 27]);
    assert_eq!(unary(DivScalar::new(2), &values), vec![125, 1, 0, 4]);
    assert_eq!(unary(DivScalar::new(0), &values), vec![0, 0, 0, 0]);
    assert_eq!(unary(PowScalar::new(2), &[3, 15, 0]), vec![9, 225, 0]);
    assert_eq!(unary(PowScalar::new(3), &[7, 0, 2]), vec![87, 0, 8]);
    assert_eq!(unary(PowScalar::new(0), &[7, 0, 2]), vec![1, 1, 1]);
    assert_eq!(unary(RemScalar::new(4), &values), vec![2, 3, 0, 1]);
    assert_eq!(unary(RemScalar::new(0), &values), vec![0, 0, 0, 0]);
    assert_eq!(unary(EqScalar::new(3), &values), vec![0, 1, 0, 0]);
    assert_eq!(unary(NeScalar::new(3), &values), vec![1, 0, 1, 1]);
    assert_eq!(unary(GtScalar::new(3), &values), vec![1, 0, 0, 1]);
    assert_eq!(unary(GeScalar::new(3), &values), vec![1, 1, 0, 1]);
    assert_eq!(unary(LtScalar::new(3), &values), vec![0, 0, 1, 0]);
    assert_eq!(unary(LeScalar::new(3), &values), vec![0, 1, 1, 0]);
    assert_eq!(unary(AndScalar::new(2), &values), vec![1, 1, 0, 1]);
    assert_eq!(unary(OrScalar::new(0), &values), vec![1, 1, 0, 1]);
    assert_eq!(unary(XorScalar::new(5), &values), vec![0, 0, 1, 0]);
    assert_eq!(*XorScalar::new(5u8).number(), 5);
}

#[test]
fn large_batches_give_the_same_results() {
    let left: Vec<u8> = (0..4096u32).map(|i| (i % 251) as u8).collect();
    let right: Vec<u8> = (0..4096u32).map(|i| (i % 13) as u8).collect();
    let sums: Vec<u8> = left.iter().zip(&right).map(|(a, b)| a.wrapping_add(*b)).collect();
    assert_eq!(binary(Add, &left, &right), sums);
    let total = left.iter().fold(0u8, |n, v| n.wrapping_add(*v));
    assert_eq!(Sum.partial(left.clone()).unwrap(), total);
    assert_eq!(Max.partial(left.clone()).unwrap(), 250);
    assert_eq!(Min.partial(left).unwrap(), 0);
    let odd: Vec<u8> = (0..100u32).map(|i| (2 * i + 1) as u8).collect();
    let product = odd.iter().fold(1u8, |n, v| n.wrapping_mul(*v));
    assert_eq!(Product.partial(odd).unwrap(), product);
}

#[test]
fn unary_operations_on_bytes() {
    assert_eq!(unary(Not, &[0, 1, 7]), vec![1, 0, 0]);
    assert_eq!(unary(Abs, &[0, 1, 255]), vec![0, 1, 255]);
}

#[test]
fn unary_views_keep_the_support_of_their_source() {
    let view = UnaryView::new(source(&[2, 3], SPARSE), Not);
    assert_eq!(view.shape(), &[2, 3]);
    assert_eq!(view.layout(), SPARSE);
    assert!(!view.is_base_tensor() && !view.supports_write_through());
    let out = view.build(batch(&[0, 0, 5], Some(&[1, 0, 1]))).unwrap();
    assert_eq!(out.values, vec![1, 0, 0]);
    assert_eq!(out.support, Some(vec![1, 0, 1]));
    assert!(view.build(batch(&[0, 0], Some(&[1]))).is_err());
    let turned = view.transpose(None).unwrap();
    assert_eq!(turned.shape(), &[3, 2]);
    assert_eq!(turned.source().flat_offset(&[2, 1]).unwrap(), 5);
}

#[test]
fn binary_views_join_the_support_of_their_sources() {
    let view =
        BinaryView::new(source(&[3], SPARSE_FIRST), source(&[3], SPARSE_FIRST), Add).unwrap();
    assert_eq!(view.layout(), Layout::Sparse { axis: None });
    let out = view
        .build(3, batch(&[1, 0, 0], Some(&[1, 0, 0])), batch(&[5, 6, 0], Some(&[1, 1, 0])))
        .unwrap();
    assert_eq!(out.values, vec![6, 6, 0]);
    assert_eq!(out.support, Some(vec![1, 1, 0]));
    let equal = BinaryView::new(
        source(&[3], SPARSE_FIRST),
        source(&[3], SPARSE_FIRST),
        fensor::binary::Eq,
    )
    .unwrap();
    let out = equal
        .build(3, batch(&[1, 0, 0], Some(&[1, 0, 0])), batch(&[1, 0, 0], Some(&[0, 0, 1])))
        .unwrap();
    // Elements without support are zero, though they are equal.
    assert_eq!(out.values, vec![1, 0, 1]);
    assert!(view.build(3, batch(&[1], None), batch(&[1], None)).is_err());
    let dense = BinaryView::new(source(&[3], Layout::Dense), source(&[3], SPARSE_FIRST), Add);
    assert_eq!(dense.unwrap().layout(), Layout::Dense);
    let error = BinaryView::new(source(&[3], Layout::Dense), source(&[2], Layout::Dense), Add)
        .err()
        .unwrap();
    assert!(matches!(error, Error::InvalidSchema(_)));
    assert_eq!(error.message(), "binary operand shapes differ: [3] and [2]");
}

const SPARSE_FIRST: Layout = Layout::Sparse { axis: Some(0) };

#[test]
fn transforms_reach_every_source() {
    let view =
        BinaryView::new(source(&[2, 3], Layout::Dense), source(&[2, 3], Layout::Dense), Mul)
            .unwrap();
    let view = view
        .flip(1)
        .unwrap()
        .unsqueeze(Axes::from_vec(vec![0]))
        .unwrap()
        .broadcast(Shape::from_vec(vec![4, 2, 3]))
        .unwrap()
        .slice(Range::from_vec(vec![
            AxisRange::At(1),
            AxisRange::In(0, 2, 1),
            AxisRange::Of(vec![2, 0]),
        ]))
        .unwrap()
        .transpose(None)
        .unwrap();
    assert_eq!(view.shape(), &[2, 2]);
    for part in [view.left(), view.right()] {
        assert_eq!(part.flat_offset(&[0, 1]).unwrap(), 3);
        assert_eq!(part.flat_offset(&[1, 0]).unwrap(), 2);
    }
    let flat = BinaryView::new(source(&[2, 3], SPARSE), source(&[2, 3], SPARSE), Mul)
        .unwrap()
        .reshape(Shape::from_vec(vec![6]))
        .unwrap();
    assert_eq!(flat.shape(), &[6]);
    let narrow = UnaryView::new(source(&[1, 3], Layout::Dense), Not)
        .squeeze(Axes::from_vec(vec![0]))
        .unwrap();
    assert_eq!(narrow.shape(), &[3]);
}

#[test]
fn selections_take_from_either_branch() {
    let view = WhereView::new(
        source(&[4], SPARSE_FIRST),
        source(&[4], SPARSE_FIRST),
        source(&[4], SPARSE_FIRST),
    )
    .unwrap();
    assert_eq!(view.layout(), Layout::Sparse { axis: None });
    assert!(!view.is_base_tensor() && !view.supports_write_through());
    let out = view
        .build(
            4,
            batch(&[1, 0, 7, 0], Some(&[1, 0, 0, 0])),
            batch(&[10, 20, 30, 40], Some(&[0, 0, 1, 0])),
            batch(&[50, 60, 70, 80], Some(&[0, 1, 0, 0])),
        )
        .unwrap();
    assert_eq!(out.values, vec![10, 60, 30, 0]);
    assert_eq!(out.support, Some(vec![1, 1, 1, 0]));
    let turned = view.flip(0).unwrap();
    assert_eq!(turned.condition().flat_offset(&[0]).unwrap(), 3);
    assert_eq!(turned.taken().flat_offset(&[0]).unwrap(), 3);
    assert_eq!(turned.or_else().flat_offset(&[0]).unwrap(), 3);
    let dense = source(&[4], Layout::Dense);
    let error = WhereView::new(dense.clone(), dense, source(&[5], Layout::Dense)).err().unwrap();
    assert!(matches!(error, Error::InvalidSchema(_)));
    assert_eq!(error.message(), "conditional operand shapes differ: [4], [4], [5]");
}

#[test]
fn reductions_accumulate_supported_values() {
    let batches = [
        (vec![200u8, 9, 60], Some(vec![1u8, 0, 1])),
        (vec![1, 2], Some(vec![0, 0])),
        (vec![7], None),
    ];
    let mut sum = None;
    let mut product = None;
    let mut least = None;
    let mut greatest = None;
    for (values, support) in batches {
        let batch = || EvaluatedBatch { values: values.clone(), support: support.clone() };
        accumulate(&Sum, &mut sum, batch()).unwrap();
        accumulate(&Product, &mut product, batch()).unwrap();
        accumulate(&Min, &mut least, batch()).unwrap();
        accumulate(&Max, &mut greatest, batch()).unwrap();
    }
    assert_eq!(finish::<u8, Sum>(sum).unwrap(), 11);
    assert_eq!(finish::<u8, Product>(product).unwrap(), (200u32 * 60 * 7 % 256) as u8);
    assert_eq!(finish::<u8, Min>(least).unwrap(), 7);
    assert_eq!(finish::<u8, Max>(greatest).unwrap(), 200);
    let mut state = Some(3u8);
    assert!(accumulate(&Sum, &mut state, batch(&[1], Some(&[]))).is_err());
    assert_eq!(state, Some(3));
}

#[test]
fn reductions_of_nothing() {
    assert_eq!(finish::<u8, Sum>(None).unwrap(), 0);
    assert_eq!(finish::<u8, Product>(None).unwrap(), 1);
    assert!(matches!(finish::<u8, Min>(None), Err(Error::Unsupported(_))));
    let error = finish::<u8, Max>(None).err().unwrap();
    assert_eq!(error.message(), "max_all has empty support");
}

#[test]
fn order_does_not_change_a_reduction() {
    let mut forward = None;
    let mut backward = None;
    for values in [[3u8, 250], [7, 7], [90, 1]] {
        accumulate(&Sum, &mut forward, batch(&values, None)).unwrap();
    }
    for values in [[90u8, 1], [7, 7], [3, 250]] {
        accumulate(&Sum, &mut backward, batch(&values, None)).unwrap();
    }
    assert_eq!(forward, backward);
}

#[test]
fn boolean_terminals_look_at_supported_values() {
    assert!(refutes_all(batch(&[1, 0], None)).unwrap());
    assert!(!refutes_all(batch(&[1, 0], Some(&[1, 0]))).unwrap());
    assert!(confirms_any(batch(&[0, 4], None)).unwrap());
    assert!(!confirms_any(batch(&[0, 4], Some(&[1, 0]))).unwrap());
    assert!(refutes_all(batch(&[1], Some(&[]))).is_err());
}

#[test]
fn reduced_shapes_drop_or_keep_axes() {
    let axes = |values: &[usize]| Axes::from_vec(values.to_vec());
    let view = ReduceView::new(source(&[2, 3, 4], SPARSE), axes(&[2, 0, 2]), false, Sum).unwrap();
    assert_eq!(view.shape(), &[3]);
    assert_eq!(view.layout(), Layout::Sparse { axis: None });
    let kept = ReduceView::new(source(&[2, 3, 4], SPARSE), axes(&[2, 0]), true, Sum).unwrap();
    assert_eq!(kept.shape(), &[1, 3, 1]);
    let all = ReduceView::new(source(&[2, 3], SPARSE), axes(&[0, 1]), false, Sum).unwrap();
    assert_eq!(all.shape(), &[1]);
    assert!(matches!(
        ReduceView::new(source(&[2, 3], SPARSE), axes(&[2]), false, Sum),
        Err(Error::InvalidLayout(_))
    ));
    let group = kept.group(&[0, 2, 0]).unwrap();
    assert_eq!(group.len(), 8);
    assert!(matches!(kept.group(&[0, 3, 0]), Err(Error::InvalidCoord(_))));
    let flipped = view.flip(0).unwrap();
    let request = flipped.group(&[0]).unwrap().requests().next().unwrap();
    let coords = request.coordinates(&[2, 3, 4]).unwrap();
    assert_eq!(coords.len(), 8);
    assert!(coords.iter().all(|c| c[1] == 2));
}

#[test]
fn small_groups_share_a_batch() {
    let view = ReduceView::new(
        source(&[5, 1000], Layout::Dense),
        Axes::from_vec(vec![1]),
        false,
        Sum,
    )
    .unwrap();
    let request = BatchRequest::linear(0, 5).unwrap();
    let mut reader = GroupReader::new(&view, &request).unwrap();
    let mut sizes = Vec::new();
    let mut values = Vec::new();
    let mut support = Some(Vec::new());
    while let Some(next) = reader.next().unwrap() {
        let GroupBatch::Packed { request, lengths } = next else {
            panic!("expected packed groups")
        };
        sizes.push(lengths.clone());
        let coords = request.coordinates(&[5, 1000]).unwrap();
        let read = EvaluatedBatch {
            values: coords.iter().map(|c| c[0] as u8).collect(),
            support: Some(coords.iter().map(|c| (c[0] != 3) as u8).collect()),
        };
        reduce_groups(&Max, &read, &lengths, &mut values, &mut support).unwrap();
    }
    assert_eq!(sizes, vec![vec![1000; 4], vec![1000]]);
    assert_eq!(values, vec![0, 1, 2, 0, 4]);
    assert_eq!(support, Some(vec![1, 1, 1, 0, 1]));
}

#[test]
fn large_groups_are_read_by_themselves() {
    let view = ReduceView::new(
        source(&[3, 5000], Layout::Dense),
        Axes::from_vec(vec![1]),
        false,
        Sum,
    )
    .unwrap();
    let request = BatchRequest::explicit(vec![vec![2], vec![0]]).unwrap();
    let mut reader = GroupReader::new(&view, &request).unwrap();
    let mut values = Vec::new();
    let mut support = None;
    for row in [2, 0] {
        let Some(GroupBatch::Large(slice)) = reader.next().unwrap() else {
            panic!("expected a large group")
        };
        let mut state = None;
        let mut requests = slice.requests();
        while let Some(request) = requests.next() {
            let coords = request.coordinates(&[3, 5000]).unwrap();
            assert!(coords.iter().all(|c| c[0] == row));
            let ones = vec![1u8; coords.len()];
            accumulate(&Sum, &mut state, EvaluatedBatch { values: ones, support: None }).unwrap();
        }
        push_group(state, &mut values, &mut support);
    }
    assert!(reader.next().unwrap().is_none());
    assert_eq!(values, vec![(5000 % 256) as u8; 2]);
    assert!(support.is_none());
}

#[test]
fn diagonals_name_elements_of_their_source() {
    let view = DiagView::new(source(&[2, 3, 3], SPARSE)).unwrap();
    assert_eq!(view.shape(), &[2, 3]);
    assert_eq!(view.layout(), Layout::Sparse { axis: None });
    assert!(!view.is_base_tensor() && !view.supports_write_through());
    let request = BatchRequest::linear(1, 3).unwrap();
    let asked = view.source_request(&request).unwrap();
    assert_eq!(
        asked.coordinates(&[2, 3, 3]).unwrap(),
        vec![vec![0, 1, 1], vec![0, 2, 2], vec![1, 0, 0]]
    );
    let flipped = view.flip(1).unwrap();
    let asked = flipped.source_request(&BatchRequest::point(&[1, 0])).unwrap();
    assert_eq!(asked.coordinates(&[2, 3, 3]).unwrap(), vec![vec![1, 2, 2]]);
    let error = DiagView::new(source(&[2, 3], SPARSE)).err().unwrap();
    assert!(matches!(error, Error::InvalidLayout(_)));
    assert!(error.message().ends_with("[2, 3]"));
    assert!(matches!(DiagView::new(source(&[3], SPARSE)), Err(Error::InvalidLayout(_))));
}

#[test]
fn matrix_transposes_swap_the_last_axes() {
    let view = mt(source(&[2, 3, 4], Layout::Dense)).unwrap();
    assert_eq!(view.shape(), &[2, 4, 3]);
    assert_eq!(view.flat_offset(&[1, 3, 2]).unwrap(), 12 + 8 + 3);
    let back = mt(view).unwrap();
    assert_eq!(back.flat_offset(&[1, 2, 3]).unwrap(), 23);
    let error = mt(source(&[3], Layout::Dense)).err().unwrap();
    assert!(matches!(error, Error::InvalidLayout(_)));
}
