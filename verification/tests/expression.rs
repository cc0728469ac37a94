use std::cell::Cell;

use fensor::batches::{
    concurrency, coordinate_batches, explicit_requests, product_requests, sparse_coords, workers,
    Requests,
};
use fensor::element::TensorElement;
use fensor::error::{Error, Result};
use fensor::expression::{
    sparse_elements, stored_batch, union_support, EvaluatedBatch, MAX_BATCH_ELEMENTS,
};
use fensor::inline::{Axes, AxisRange, Range, Shape};
use fensor::request::BatchRequest;
use fensor::schema::{contiguous_strides, Layout};
use fensor::view::TensorView;

// An element with two zeros, and with values that are not equal to themselves.
#[derive(Clone, Copy, Debug)]
struct Float(f32);

impl TensorElement for Float {
    fn spec_zero() -> Self {
        Self::zero()
    }

    fn spec_sum(self, other: Self) -> Self {
        self.sum(other)
    }

    fn spec_is_zero(self) -> bool {
        self.is_zero()
    }

    fn lemma_zero() {}

    fn zero() -> Self {
        Float(0.)
    }

    fn sum(self, other: Self) -> Self {
        Float(self.0 + other.0)
    }

    fn is_zero(self) -> bool {
        self.0 == 0.
    }

    fn select(condition: Vec<u8>, taken: Vec<Self>, other: Vec<Self>) -> Result<Vec<Self>> {
        let pairs = taken.into_iter().zip(other);
        Ok(condition
            .into_iter()
            .zip(pairs)
            .map(|(condition, (taken, other))| if condition != 0 { taken } else { other })
            .collect())
    }

    fn multiply(
        left: Vec<Self>,
        right: Vec<Self>,
        rows: usize,
        inner: usize,
        columns: usize,
    ) -> Result<Vec<Self>> {
        let mut product = Vec::with_capacity(rows * columns);
        for row in 0..rows {
            for column in 0..columns {
                let terms = (0..inner).map(|k| left[row * inner + k].0 * right[k * columns + column].0);
                product.push(Float(terms.sum()));
            }
        }
        Ok(product)
    }
}

#[test]
fn sparse_output_preserves_order_duplicates_and_nan() {
    let request =
        BatchRequest::explicit(vec![vec![2], vec![0], vec![2], vec![1], vec![0]]).unwrap();
    let batch = EvaluatedBatch {
        values: vec![3f32, -0., 4., f32::NAN, 0.].into_iter().map(Float).collect(),
        support: Some(vec![1; 5]),
    };
    let output: Vec<(Vec<u64>, f32)> = sparse_elements(request, batch, &[3])
        .unwrap()
        .into_iter()
        .map(|(coord, value)| (coord, value.0))
        .collect();
    assert_eq!(&output[..2], &[(vec![2], 3.), (vec![2], 4.)]);
    assert_eq!(output[2].0, vec![1]);
    assert!(output[2].1.is_nan());
    assert_eq!(output.len(), 3);
}

#[test]
fn sparse_output_rejects_mismatched_values_and_support() {
    for batch in [
        EvaluatedBatch {
            values: vec![1u8, 2],
            support: None,
        },
        EvaluatedBatch {
            values: vec![1u8],
            support: Some(vec![]),
        },
    ] {
        assert!(matches!(
            sparse_elements(BatchRequest::point(&[0]), batch, &[1]),
            Err(Error::InvalidLayout(_))
        ));
    }
}

#[test]
fn malformed_batches_fail_closed() {
    let batch = EvaluatedBatch {
        values: vec![0u8; MAX_BATCH_ELEMENTS + 1],
        support: None,
    };
    assert!(batch.masked().is_err());
    let batch = EvaluatedBatch {
        values: vec![1u8, 2],
        support: None,
    };
    assert!(batch.validate(1).is_err());
    let batch = EvaluatedBatch {
        values: vec![1u8, 2],
        support: Some(vec![1]),
    };
    assert!(batch.validate(2).is_err());
    assert!(batch.masked().is_err());
    let evaluated = EvaluatedBatch {
        values: vec![1u8],
        support: None,
    };
    assert!(evaluated.validate(2).is_err());
    let evaluated = EvaluatedBatch {
        values: vec![1u8],
        support: Some(vec![]),
    };
    assert!(evaluated.populated().is_err());
    assert!(union_support(Some(vec![1]), Some(vec![1, 1])).is_err());
    assert!(union_support(None, Some(vec![1; MAX_BATCH_ELEMENTS + 1])).is_err());
}

#[test]
fn filtering_reuses_the_owned_allocation() {
    let values = vec![2u8, 3, 4, 5];
    let pointer = values.as_ptr();
    let values = EvaluatedBatch {
        values,
        support: Some(vec![0, 1, 0, 1]),
    }
    .populated()
    .unwrap();
    assert_eq!(values, [3, 5]);
    assert_eq!(values.as_ptr(), pointer);
}

#[test]
fn batching_only_consumes_its_bounded_prefix() {
    let consumed = Cell::new(0);
    let coords = (0..1_000_000_000u64).map(|i| {
        consumed.set(consumed.get() + 1);
        vec![i]
    });
    let mut batches = coordinate_batches(coords);
    assert_eq!(consumed.get(), 0);
    assert_eq!(batches.next().unwrap().len(), MAX_BATCH_ELEMENTS);
    assert_eq!(consumed.get(), MAX_BATCH_ELEMENTS);
    drop(batches);
    assert_eq!(consumed.get(), MAX_BATCH_ELEMENTS);
}

#[test]
fn the_last_batch_is_what_is_left() {
    let mut batches = coordinate_batches((0..MAX_BATCH_ELEMENTS as u64 + 2).map(|i| vec![i]));
    let first = batches.next_request().unwrap();
    assert_eq!(first.len(), MAX_BATCH_ELEMENTS);
    let last = batches.next_request().unwrap();
    assert_eq!(
        last.coordinates(&[5000]).unwrap(),
        vec![vec![4096], vec![4097]]
    );
    assert!(batches.next_request().is_none());
}

#[test]
fn masking_puts_zero_where_there_is_no_support() {
    let batch = EvaluatedBatch {
        values: vec![7u8, 8, 9],
        support: Some(vec![1, 0, 2]),
    }
    .masked()
    .unwrap();
    assert_eq!(batch.values, vec![7, 0, 9]);
    assert_eq!(batch.support, Some(vec![1, 0, 2]));
    let again = batch.masked().unwrap();
    assert_eq!(again.values, vec![7, 0, 9]);
    let whole = EvaluatedBatch {
        values: vec![0u8, 1],
        support: None,
    };
    assert_eq!(whole.masked().unwrap().values, vec![0, 1]);
}

#[test]
fn supports_are_joined() {
    assert_eq!(
        union_support(Some(vec![1, 0, 0]), Some(vec![0, 0, 2])).unwrap(),
        Some(vec![1, 0, 2])
    );
    assert_eq!(union_support(Some(vec![1]), None).unwrap(), None);
    assert_eq!(union_support(None, None).unwrap(), None);
}

#[test]
fn stored_zeros_have_no_support_in_a_sparse_tensor() {
    let batch = stored_batch(vec![3u8, 0, 5], Layout::Sparse { axis: Some(0) });
    assert_eq!(batch.support, Some(vec![1, 0, 1]));
    assert_eq!(batch.values, vec![3, 0, 5]);
    assert_eq!(stored_batch(vec![3u8, 0], Layout::Dense).support, None);
}

fn view(layout: Layout) -> TensorView<()> {
    let shape = [3, 4];
    TensorView::new_identity(
        (),
        Shape::from_vec(shape.to_vec()),
        contiguous_strides(&shape).unwrap(),
        layout,
    )
}

#[test]
fn sparse_ranges_are_sets_in_row_major_order() {
    let sparse = view(Layout::Sparse { axis: None });
    let range = Range::from_vec(vec![AxisRange::Of(vec![2, 0, 2]), AxisRange::Of(vec![3, 1])]);
    let order = Axes::from_vec(vec![0, 1]);
    let walk = sparse_coords(&sparse, &range, &order).unwrap();
    let mut requests = explicit_requests(walk);
    let request = requests.next().unwrap();
    assert_eq!(
        request.coordinates(&[3, 4]).unwrap(),
        vec![vec![0, 1], vec![0, 3], vec![2, 1], vec![2, 3]]
    );
    assert!(requests.next().is_none());
}

#[test]
fn sparse_iteration_refuses_other_orders_and_layouts() {
    let sparse = view(Layout::Sparse { axis: None });
    let range = Range::from_vec(vec![AxisRange::In(0, 3, 1), AxisRange::In(0, 4, 1)]);
    let error = sparse_coords(&sparse, &range, &Axes::from_vec(vec![1, 0])).err().unwrap();
    assert!(matches!(error, Error::UnsupportedSparseIterationOrder { .. }));
    assert_eq!(
        error.message(),
        "unsupported sparse iteration order: requested [1, 0], base [0, 1]. \
         materialize or perform external sort for incompatible order"
    );
    let order = Axes::from_vec(vec![0, 1]);
    assert!(matches!(
        sparse_coords(&view(Layout::Dense), &range, &order),
        Err(Error::Unsupported(_))
    ));
    let outside = Range::from_vec(vec![AxisRange::At(3), AxisRange::At(0)]);
    assert!(matches!(
        sparse_coords(&sparse, &outside, &order),
        Err(Error::InvalidLayout(_))
    ));
}

#[test]
fn at_least_one_batch_is_evaluated_at_a_time() {
    assert_eq!(workers(0), 1);
    assert_eq!(workers(6), 6);
    assert!(concurrency() >= 1);
    assert_eq!(concurrency(), workers(num_cpus::get()));
}

#[test]
fn products_prefer_tiles_of_matrices() {
    assert!(matches!(product_requests(&[4, 5]), Ok(Requests::Tiled(_))));
    assert!(matches!(product_requests(&[5]), Ok(Requests::Linear(_))));
    assert!(matches!(product_requests(&[0, 5]), Err(Error::InvalidSchema(_))));
}
