use fensor::error::Error;
use fensor::inline::{Shape, Strides};
use fensor::schema::{
    contiguous_strides, greedy_block_shape, row_major_coords, validate_tensor_dtype, BlockSchema,
    DType, Layout, SparseIndexSchema, SparseTableSchema, StorageSchema, TensorSchema,
};
use number_general::{DType as ElementType, FloatType, NumberType, UIntType};

#[test]
fn contiguous_strides_rank_three() {
    // [4,5,6]: strides[2]=1, strides[1]=1*6=6, strides[0]=6*5=30
    assert_eq!(
        contiguous_strides(&[4, 5, 6]).expect("strides"),
        Strides::from_vec(vec![30, 6, 1])
    );
}

#[test]
fn contiguous_strides_rank_two() {
    // [2,3]: strides[1]=1, strides[0]=1*3=3
    assert_eq!(
        contiguous_strides(&[2, 3]).expect("strides"),
        Strides::from_vec(vec![3, 1])
    );
}

#[test]
fn contiguous_strides_single_dim() {
    assert_eq!(
        contiguous_strides(&[7]).expect("strides"),
        Strides::from_vec(vec![1])
    );
}

#[test]
fn contiguous_strides_all_ones() {
    // [1,1,1]: every stride collapses to 1
    assert_eq!(
        contiguous_strides(&[1, 1, 1]).expect("strides"),
        Strides::from_vec(vec![1, 1, 1])
    );
}

#[test]
fn contiguous_strides_leading_one() {
    // [1,5,6]: a leading 1 dim doesn't perturb trailing strides
    assert_eq!(
        contiguous_strides(&[1, 5, 6]).expect("strides"),
        Strides::from_vec(vec![30, 6, 1])
    );
}

#[test]
fn contiguous_strides_trailing_one() {
    // [4,5,1]: a trailing 1 dim collapses the last two strides to 1
    assert_eq!(
        contiguous_strides(&[4, 5, 1]).expect("strides"),
        Strides::from_vec(vec![5, 1, 1])
    );
}

#[test]
fn contiguous_strides_empty_shape() {
    // validate_shape_dims rejects an empty shape before any stride math runs
    let err = contiguous_strides(&[]).expect_err("empty shape should be rejected");
    assert!(matches!(err, Error::InvalidSchema(_)));
}

#[test]
fn contiguous_strides_zero_dim() {
    // validate_shape_dims rejects any zero-sized dimension, so the old
    // "0 propagates as a stride" behavior is no longer reachable
    let err = contiguous_strides(&[3, 0, 4]).expect_err("zero dimension should be rejected");
    assert!(matches!(err, Error::InvalidSchema(_)));
}

#[test]
fn contiguous_strides_overflow() {
    // strides[1] = shape[2] = u64::MAX (no overflow: 1 * MAX);
    // strides[0] = strides[1] * shape[1] = MAX * 2 -> overflows u64
    let err = contiguous_strides(&[3, 2, u64::MAX]).expect_err("overflow should be rejected");
    assert!(matches!(err, Error::InvalidSchema(_)));
}

#[test]
fn greedy_block_shape_capacity_covers_whole_tensor() {
    // cap=1000 exceeds 4*5*6=120, so the whole tensor fits in one block
    assert_eq!(
        greedy_block_shape(&[4, 5, 6], 1000).expect("block shape"),
        Shape::from_vec(vec![4, 5, 6])
    );
}

#[test]
fn greedy_block_shape_capacity_equals_total() {
    // cap=6 exactly equals 2*3, so the whole tensor still fits
    assert_eq!(
        greedy_block_shape(&[2, 3], 6).expect("block shape"),
        Shape::from_vec(vec![2, 3])
    );
}

#[test]
fn greedy_block_shape_partial_fit_limits_outer_axis() {
    // axis 2: take=min(6,50)=6, remaining=50/6=8
    // axis 1: take=min(5,8)=5, remaining=8/5=1
    // axis 0: take=min(4,1)=1
    assert_eq!(
        greedy_block_shape(&[4, 5, 6], 50).expect("block shape"),
        Shape::from_vec(vec![1, 5, 6])
    );
}

#[test]
fn greedy_block_shape_rank_two_partial() {
    // axis 1: take=min(7,5)=5, remaining=5/5=1
    // axis 0: take=min(3,1)=1
    assert_eq!(
        greedy_block_shape(&[3, 7], 5).expect("block shape"),
        Shape::from_vec(vec![1, 5])
    );
}

#[test]
fn greedy_block_shape_single_dim() {
    // cap needn't evenly divide the axis: take=min(10,3)=3
    assert_eq!(
        greedy_block_shape(&[10], 3).expect("block shape"),
        Shape::from_vec(vec![3])
    );
}

#[test]
fn greedy_block_shape_capacity_one() {
    // the smallest feasible capacity forces every axis down to 1
    assert_eq!(
        greedy_block_shape(&[4, 5, 6], 1).expect("block shape"),
        Shape::from_vec(vec![1, 1, 1])
    );
}

#[test]
fn greedy_block_shape_zero_capacity() {
    // no block can hold 0 elements; block_shape entries must be non-zero
    let err = greedy_block_shape(&[4, 5, 6], 0).expect_err("zero capacity should be rejected");
    assert!(matches!(err, Error::InvalidSchema(_)));
}

#[test]
fn greedy_block_shape_empty_shape() {
    // validate_shape_dims rejects an empty shape, same as contiguous_strides
    let err = greedy_block_shape(&[], 10).expect_err("empty shape should be rejected");
    assert!(matches!(err, Error::InvalidSchema(_)));
}

#[test]
fn greedy_block_shape_zero_dim() {
    // validate_shape_dims rejects any zero-sized dimension, same as contiguous_strides
    let err =
        greedy_block_shape(&[3, 0, 4], 10).expect_err("zero dimension should be rejected");
    assert!(matches!(err, Error::InvalidSchema(_)));
}

#[test]
fn tensor_schema_new_computes_strides() {
    let schema = TensorSchema::new(DType::F32, Shape::from_vec(vec![4, 5, 6])).expect("schema");
    assert_eq!(schema.shape().as_slice(), &[4, 5, 6]);
    assert_eq!(schema.strides().as_slice(), &[30, 6, 1]);
}

#[test]
fn tensor_schema_new_rejects_empty_shape() {
    let err = TensorSchema::new(DType::F32, Shape::new()).expect_err("empty shape rejected");
    assert!(matches!(err, Error::InvalidSchema(_)));
}

#[test]
fn block_schema_new_covers_whole_tensor() {
    let block = BlockSchema::new(&[4, 5, 6], 1000).expect("block schema");
    assert_eq!(block.shape.as_slice(), &[4, 5, 6]);
    assert_eq!(block.strides.as_slice(), &[30, 6, 1]);
}

#[test]
fn storage_schema_new_evenly_dividing() {
    // tensor [4, 6], capacity large enough for block [4, 6] -> grid [1, 1]
    let storage = StorageSchema::new(&[4, 6], Layout::Dense, 1000).expect("storage schema");
    assert_eq!(storage.shape.as_slice(), &[1, 1]);
    assert_eq!(storage.block_schema.shape.as_slice(), &[4, 6]);
}

#[test]
fn storage_schema_new_ceiling_remainder() {
    // tensor [10], capacity 3 -> block [3], grid ceil(10/3) = 4
    let storage = StorageSchema::new(&[10], Layout::Dense, 3).expect("storage schema");
    assert_eq!(storage.block_schema.shape.as_slice(), &[3]);
    assert_eq!(storage.shape.as_slice(), &[4]);
    assert_eq!(storage.strides.as_slice(), &[1]);
}

#[test]
fn storage_schema_from_block_shape_matches_new() {
    let via_new = StorageSchema::new(&[10], Layout::Dense, 3).expect("via new");
    let via_block_shape =
        StorageSchema::from_block_shape(&[10], Layout::Dense, Shape::from_vec(vec![3]))
            .expect("via from_block_shape");
    assert_eq!(via_new, via_block_shape);
}

#[test]
fn storage_schema_new_rejects_zero_capacity() {
    let err =
        StorageSchema::new(&[4, 5, 6], Layout::Dense, 0).expect_err("zero capacity rejected");
    assert!(matches!(err, Error::InvalidSchema(_)));
}

#[test]
fn storage_schema_new_rejects_empty_shape() {
    let err = StorageSchema::new(&[], Layout::Dense, 10).expect_err("empty shape rejected");
    assert!(matches!(err, Error::InvalidSchema(_)));
}

#[test]
fn typed_tensor_rejects_schema_dtype_mismatch() {
    let err = validate_tensor_dtype(NumberType::Float(FloatType::F64), f32::dtype())
        .expect_err("expected mismatch");
    assert!(matches!(err, Error::InvalidSchema(_)));
}

#[test]
fn schemas_name_the_type_of_their_elements() {
    let byte = NumberType::UInt(UIntType::U8);
    let schema = TensorSchema::new(byte, Shape::from_vec(vec![2, 3])).expect("schema");
    assert!(validate_tensor_dtype(schema.dtype(), u8::dtype()).is_ok());
    assert!(validate_tensor_dtype(f32::dtype(), f32::dtype()).is_ok());
    let err = validate_tensor_dtype(schema.dtype(), f64::dtype()).expect_err("another type");
    let Error::InvalidSchema(message) = err else { panic!("{err:?}") };
    let (found, wanted) = (u8::dtype(), f64::dtype());
    assert_eq!(message, format!("tensor dtype mismatch: schema {found:?} != tensor {wanted:?}"));
}

#[test]
fn element_types_have_names() {
    assert_eq!(DType::F32.as_str(), "f32");
    assert_eq!(DType::F64.as_str(), "f64");
    assert_eq!(DType::try_parse("f32"), Some(DType::F32));
    assert_eq!(DType::try_parse("f64"), Some(DType::F64));
    assert_eq!(DType::try_parse("u8"), None);
    assert_eq!(DType::try_parse(""), None);
}

#[test]
fn sparse_axes_lie_in_the_tensor() {
    assert!(StorageSchema::new(&[2, 3], Layout::Sparse { axis: Some(1) }, 4).is_ok());
    let err = StorageSchema::new(&[2, 3], Layout::Sparse { axis: Some(2) }, 4)
        .expect_err("axis out of bounds");
    assert!(matches!(err, Error::InvalidSchema(_)));
}

#[test]
fn row_major_walks_visit_each_coordinate_once() {
    let mut walk = row_major_coords(&[2, 3]).expect("walk");
    let mut all = Vec::new();
    while let Some(coord) = walk.next() {
        all.push(coord);
    }
    assert_eq!(
        all,
        vec![vec![0, 0], vec![0, 1], vec![0, 2], vec![1, 0], vec![1, 1], vec![1, 2]]
    );
    assert!(walk.next().is_none());
    assert!(row_major_coords(&[2, 0]).unwrap().next().is_none());
    assert!(row_major_coords(&[u64::MAX, 2]).is_err());
}

#[test]
fn index_rows_have_a_key_and_a_block() {
    let table = SparseTableSchema::default();
    assert!(table.validate_key(vec![1, 2]).is_ok());
    assert!(table.validate_key(vec![1]).is_err());
    assert!(table.validate_values(vec![7]).is_ok());
    assert!(table.validate_values(vec![7, 8]).is_err());
    let index = SparseIndexSchema::new(vec!["coord".to_string(), "block_offset".to_string()]);
    assert!(index.validate_key(vec![1, 2]).is_ok());
    assert!(index.validate_key(vec![1, 2, 3]).is_err());
}
