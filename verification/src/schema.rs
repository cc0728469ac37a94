//! Tensor, block and storage geometry, and the schema of the sparse block index.

use vstd::prelude::*;
use vstd::string::StringExecFns;
use vstd::arithmetic::div_mod::{lemma_fundamental_div_mod, lemma_mod_bound};
use vstd::arithmetic::mul::lemma_mul_is_commutative;
use crate::error::{Error, Result};
use vstd::slice::{slice_subrange, slice_to_vec};
use crate::geometry::{
    advance, all_positive, coordinate_at, in_box, lemma_coordinate_position, lemma_coordinate_zero,
    lemma_position_bound, lemma_position_coordinate, lemma_volume_positive, lemma_volume_push,
    lemma_volume_suffix_bound, position_of, volume,
};
use crate::inline::{Coord, Shape, Strides};
use number_general::NumberType;

verus! {

/// The largest number of elements that one stored block may hold.
pub const MAX_BLOCK_CAPACITY: usize = 4096;

/// The quotient, rounded up.
pub open spec fn ceil_div(a: int, b: int) -> int {
    if a % b == 0 {
        a / b
    } else {
        a / b + 1
    }
}

/// Division rounded up.
pub(crate) fn div_ceil(a: u64, b: u64) -> (q: u64)
    requires
        b > 0,
    ensures
        q == ceil_div(a as int, b as int),
        a > 0 ==> 1 <= q <= a,
        a == 0 ==> q == 0,
        q * b >= a,
        q * b < a + b,
{
    let q: u64 = a / b;
    let r: u64 = a % b;
    proof {
        lemma_fundamental_div_mod(a as int, b as int);
        lemma_mod_bound(a as int, b as int);
        lemma_mul_is_commutative(q as int, b as int);
        assert(q <= a && (r != 0 ==> q < a) && (a > 0 && r == 0 ==> q > 0)) by (nonlinear_arith)
            requires
                a == b * q + r,
                0 <= r < b,
                q >= 0,
        ;
        assert((q + 1) * b == q * b + b) by (nonlinear_arith);
    }
    if r == 0 {
        q
    } else {
        q + 1
    }
}

/// A shape that storage accepts: at least one axis, and no empty one.
pub open spec fn valid_dims(shape: Seq<u64>) -> bool {
    shape.len() > 0 && all_positive(shape)
}

pub fn validate_shape_dims(shape: &[u64]) -> (result: Result<()>)
    ensures
        valid_dims(shape@) ==> result is Ok,
        !valid_dims(shape@) ==> result matches Err(Error::InvalidSchema(_)),
{
    if shape.len() == 0 {
        return Err(Error::InvalidSchema("tensor shape cannot be empty".to_string()));
    }
    let mut i: usize = 0;
    while i < shape.len()
        invariant
            i <= shape.len(),
            forall|j: int| 0 <= j < i ==> #[trigger] shape@[j] > 0,
        decreases shape.len() - i,
    {
        if shape[i] == 0 {
            return Err(
                Error::InvalidSchema("tensor shape dimensions must be non-zero".to_string()),
            );
        }
        i += 1;
    }
    Ok(())
}

/// The numbers are the row-major strides of the shape.
pub open spec fn are_strides(strides: Seq<u64>, shape: Seq<u64>) -> bool {
    &&& strides.len() == shape.len()
    &&& forall|i: int|
        0 <= i < shape.len() ==> #[trigger] strides[i] == volume(shape.skip(i + 1))
}

/// The row-major strides of a shape.
pub fn contiguous_strides(shape: &[u64]) -> (result: Result<Strides>)
    ensures
        result is Ok <==> valid_dims(shape@) && volume(shape@.skip(1)) <= u64::MAX,
        result matches Ok(strides) ==> are_strides(strides@, shape@),
        result matches Err(error) ==> error is InvalidSchema,
{
    validate_shape_dims(shape)?;
    let rank: usize = shape.len();
    let mut strides: Vec<u64> = vec![1; rank];
    let mut i: usize = rank - 1;
    proof {
        assert(shape@.skip(rank as int) =~= Seq::<u64>::empty());
    }
    while i > 0
        invariant
            valid_dims(shape@),
            rank == shape.len(),
            strides.len() == rank,
            i < rank,
            forall|j: int| i <= j < rank ==> #[trigger] strides@[j] == volume(shape@.skip(j + 1)),
        decreases i,
    {
        let ghost suffix = shape@.skip(i as int);
        proof {
            assert(suffix.skip(1) =~= shape@.skip(i + 1));
            assert(volume(suffix) == suffix[0] as int * volume(suffix.skip(1)));
            lemma_mul_is_commutative(suffix[0] as int, volume(suffix.skip(1)));
        }
        match strides[i].checked_mul(shape[i]) {
            Some(stride) => {
                i -= 1;
                strides[i] = stride;
                assert(suffix == shape@.skip(i + 1));
            },
            None => {
                proof {
                    assert(shape@.skip(1).skip(i - 1) =~= suffix);
                    assert(all_positive(shape@.skip(1))) by {
                        assert forall|j: int| 0 <= j < shape@.skip(1).len() implies
                            #[trigger] shape@.skip(1)[j] > 0 by {
                            assert(shape@[j + 1] > 0);
                        }
                    }
                    lemma_volume_suffix_bound(shape@.skip(1), i - 1);
                }
                return Err(Error::InvalidSchema("Dimension overflows stride".to_string()));
            },
        }
    }
    proof {
        assert(strides@[0] == volume(shape@.skip(1)));
    }
    Ok(Shape::from_vec(strides))
}

/// The block shape that fills a capacity from the last axis on: each axis takes as much as
/// fits into what the axes behind it left.
pub open spec fn greedy_blocks(shape: Seq<u64>, capacity: int) -> Seq<u64>
    decreases shape.len(),
{
    if shape.len() == 0 {
        Seq::empty()
    } else {
        let take = if shape.last() <= capacity {
            shape.last() as int
        } else {
            capacity
        };
        greedy_blocks(shape.drop_last(), capacity / take).push(take as u64)
    }
}

/// The block shape chosen for a new tensor.
pub fn greedy_block_shape(shape: &[u64], max_capacity: usize) -> (result: Result<Shape>)
    ensures
        result is Ok <==> valid_dims(shape@) && max_capacity > 0,
        result matches Ok(blocks) ==> blocks@ == greedy_blocks(shape@, max_capacity as int),
        result matches Err(error) ==> error is InvalidSchema,
{
    validate_shape_dims(shape)?;
    if max_capacity == 0 {
        return Err(Error::InvalidSchema("max block capacity must be non-zero".to_string()));
    }
    let rank: usize = shape.len();
    let mut blocks: Vec<u64> = vec![1; rank];
    let mut remaining: u64 = max_capacity as u64;
    let mut i: usize = rank;
    proof {
        assert(shape@.take(rank as int) =~= shape@);
        assert(greedy_blocks(shape@, remaining as int) + blocks@.skip(rank as int)
            =~= greedy_blocks(shape@, max_capacity as int));
    }
    while i > 0
        invariant
            valid_dims(shape@),
            rank == shape.len(),
            blocks.len() == rank,
            i <= rank,
            remaining > 0,
            greedy_blocks(shape@.take(i as int), remaining as int) + blocks@.skip(i as int)
                == greedy_blocks(shape@, max_capacity as int),
        decreases i,
    {
        let ghost head = shape@.take(i as int);
        let ghost before = blocks@.skip(i as int);
        i -= 1;
        let dim: u64 = shape[i];
        let take: u64 = if dim <= remaining {
            dim
        } else {
            remaining
        };
        blocks[i] = take;
        proof {
            assert(head.last() == dim);
            assert(head.drop_last() =~= shape@.take(i as int));
            assert(remaining / take > 0) by (nonlinear_arith)
                requires
                    0 < take <= remaining,
            ;
            assert(blocks@.skip(i as int) =~= seq![take] + before);
            assert(greedy_blocks(shape@.take(i as int), (remaining / take) as int).push(take)
                + before =~= greedy_blocks(shape@.take(i as int), (remaining / take) as int)
                + blocks@.skip(i as int));
        }
        remaining = remaining / take;
    }
    proof {
        assert(greedy_blocks(shape@.take(0), remaining as int) =~= Seq::<u64>::empty());
        assert(blocks@.skip(0) =~= blocks@);
        assert(blocks@ =~= greedy_blocks(shape@, max_capacity as int));
    }
    Ok(Shape::from_vec(blocks))
}

/// Multiplying up the dimensions, from the first on, never leaves `u64`.
pub open spec fn product_fits(shape: Seq<u64>) -> bool {
    forall|k: int| 0 <= k <= shape.len() ==> volume(#[trigger] shape.take(k)) <= u64::MAX
}

/// The number of elements of a shape.
pub fn checked_product(shape: &[u64]) -> (result: Result<u64>)
    ensures
        result is Ok <==> product_fits(shape@),
        result matches Ok(total) ==> total == volume(shape@),
        result matches Err(error) ==> error is InvalidSchema,
{
    let mut total: u64 = 1;
    let mut i: usize = 0;
    while i < shape.len()
        invariant
            i <= shape.len(),
            total == volume(shape@.take(i as int)),
            forall|k: int| 0 <= k <= i ==> volume(#[trigger] shape@.take(k)) <= u64::MAX,
        decreases shape.len() - i,
    {
        proof {
            assert(shape@.take(i + 1) =~= shape@.take(i as int).push(shape@[i as int]));
            lemma_volume_push(shape@.take(i as int), shape@[i as int]);
        }
        match total.checked_mul(shape[i]) {
            Some(next) => {
                total = next;
            },
            None => {
                return Err(
                    Error::InvalidSchema("shape element count overflows u64".to_string()),
                );
            },
        }
        i += 1;
    }
    proof {
        assert(shape@.take(i as int) =~= shape@);
    }
    Ok(total)
}

/// A shape without empty axes fits exactly when its volume does.
pub proof fn lemma_product_fits(shape: Seq<u64>)
    requires
        all_positive(shape),
    ensures
        product_fits(shape) <==> volume(shape) <= u64::MAX,
{
    assert(shape.take(shape.len() as int) =~= shape);
    if volume(shape) <= u64::MAX {
        assert forall|k: int| 0 <= k <= shape.len() implies volume(#[trigger] shape.take(k))
            <= u64::MAX by {
            lemma_volume_suffix_bound(shape, k);
        }
    }
}

/// A greedy block is never empty, never exceeds the tensor along any axis nor the capacity
/// as a whole, and is the whole tensor whenever that fits.
pub proof fn greedy_blocks_fill_the_capacity(shape: Seq<u64>, capacity: int)
    requires
        all_positive(shape),
        0 < capacity <= u64::MAX,
    ensures
        greedy_blocks(shape, capacity).len() == shape.len(),
        all_positive(greedy_blocks(shape, capacity)),
        forall|i: int|
            0 <= i < shape.len() ==> #[trigger] greedy_blocks(shape, capacity)[i] <= shape[i],
        1 <= volume(greedy_blocks(shape, capacity)) <= capacity,
        volume(shape) <= capacity ==> greedy_blocks(shape, capacity) == shape,
    decreases shape.len(),
{
    let blocks = greedy_blocks(shape, capacity);
    if shape.len() == 0 {
        assert(blocks =~= shape);
    } else {
        let d = shape.last() as int;
        let init = shape.drop_last();
        let take = if d <= capacity {
            d
        } else {
            capacity
        };
        let left = capacity / take;
        assert(d == shape[shape.len() - 1]);
        assert(all_positive(init)) by {
            assert forall|i: int| 0 <= i < init.len() implies #[trigger] init[i] > 0 by {
                assert(shape[i] > 0);
            }
        }
        assert(0 < left <= capacity) by (nonlinear_arith)
            requires
                left == capacity / take,
                0 < take <= capacity,
        ;
        greedy_blocks_fill_the_capacity(init, left);
        let rest = greedy_blocks(init, left);
        lemma_volume_push(rest, take as u64);
        lemma_volume_positive(blocks);
        assert forall|i: int| 0 <= i < shape.len() implies #[trigger] blocks[i] <= shape[i]
            && blocks[i] > 0 by {
            if i < init.len() {
                assert(rest[i] <= init[i]);
                assert(rest[i] > 0);
            }
        }
        assert(all_positive(blocks));
        assert(volume(rest) * take <= capacity) by (nonlinear_arith)
            requires
                volume(rest) <= left,
                left == capacity / take,
                0 < take,
                capacity > 0,
        ;
        if volume(shape) <= capacity {
            assert(shape =~= init.push(shape.last()));
            lemma_volume_push(init, shape.last());
            lemma_volume_positive(init);
            let v = volume(init);
            assert(d <= capacity) by (nonlinear_arith)
                requires
                    v * d <= capacity,
                    v >= 1,
                    d > 0,
            ;
            assert(v <= left) by (nonlinear_arith)
                requires
                    v * d <= capacity,
                    d > 0,
                    left == capacity / d,
            ;
            assert(blocks =~= shape);
        }
    }
}

/// How elements of a tensor are typed in storage.
#[derive(Clone, Copy, PartialEq, Eq, Debug, Structural)]
pub enum DType {
    F32,
    F64,
}

/// The name of an element type.
pub open spec fn dtype_name(dtype: DType) -> Seq<char> {
    match dtype {
        DType::F32 => "f32"@,
        DType::F64 => "f64"@,
    }
}

impl DType {
    pub fn as_str(self) -> (name: &'static str)
        ensures
            name@ == dtype_name(self),
    {
        match self {
            DType::F32 => "f32",
            DType::F64 => "f64",
        }
    }

    pub fn try_parse(value: &str) -> (dtype: Option<Self>)
        ensures
            match dtype {
                Some(dtype) => value@ == dtype_name(dtype),
                None => forall|dtype: DType| value@ != #[trigger] dtype_name(dtype),
            },
    {
        let name = value.to_string();
        if name == DType::F32.as_str().to_string() {
            Some(DType::F32)
        } else if name == DType::F64.as_str().to_string() {
            Some(DType::F64)
        } else {
            None
        }
    }
}

/// The name of an element type reads back as that type.
pub proof fn dtype_names_are_distinct(left: DType, right: DType)
    ensures
        dtype_name(left) == dtype_name(right) ==> left == right,
{
    reveal_strlit("f32");
    reveal_strlit("f64");
    assert("f32"@[1] == '3');
    assert("f64"@[1] == '6');
}

/// How blocks are kept: all of them, or only those with a nonzero element. The axis of a
/// sparse layout is a hint on how its index is keyed.
#[derive(Clone, Copy, PartialEq, Eq, Debug, Structural)]
pub enum Layout {
    Dense,
    Sparse { axis: Option<usize> },
}

/// What a tensor is: its element type, and its shape with the row-major strides of it.
#[derive(PartialEq, Eq, Debug)]
pub struct TensorSchema<D = DType> {
    dtype: D,
    shape: Shape,
    strides: Strides,
}

impl<D: Copy> TensorSchema<D> {
    pub closed spec fn spec_dtype(&self) -> D {
        self.dtype
    }

    pub closed spec fn spec_shape(&self) -> Seq<u64> {
        self.shape@
    }

    pub closed spec fn spec_strides(&self) -> Seq<u64> {
        self.strides@
    }

    /// The shape is one that storage accepts, and the strides are those of the shape.
    pub open spec fn wf(&self) -> bool {
        &&& valid_dims(self.spec_shape())
        &&& are_strides(self.spec_strides(), self.spec_shape())
    }

    pub fn new(dtype: D, shape: Shape) -> (result: Result<Self>)
        ensures
            result is Ok <==> valid_dims(shape@) && volume(shape@.skip(1)) <= u64::MAX,
            result matches Ok(schema) ==> schema.wf() && schema.spec_dtype() == dtype
                && schema.spec_shape() == shape@,
            result matches Err(error) ==> error is InvalidSchema,
    {
        validate_shape_dims(shape.as_slice())?;
        let strides = contiguous_strides(shape.as_slice())?;
        Ok(TensorSchema { dtype, shape, strides })
    }

    pub fn dtype(&self) -> (dtype: D)
        ensures
            dtype == self.spec_dtype(),
    {
        self.dtype
    }

    pub fn shape(&self) -> (shape: &Shape)
        ensures
            shape@ == self.spec_shape(),
    {
        &self.shape
    }

    pub fn strides(&self) -> (strides: &Strides)
        ensures
            strides@ == self.spec_strides(),
    {
        &self.strides
    }
}

impl<D: Copy> Clone for TensorSchema<D> {
    fn clone(&self) -> (schema: Self)
        ensures
            schema.spec_dtype() == self.spec_dtype(),
            schema.spec_shape() == self.spec_shape(),
            schema.spec_strides() == self.spec_strides(),
    {
        TensorSchema {
            dtype: self.dtype,
            shape: self.shape.clone(),
            strides: self.strides.clone(),
        }
    }
}

/// `number_general::NumberType`: the type of a number.
#[verifier::external_type_specification]
#[verifier::external_body]
pub struct ExNumberType(NumberType);

/// The `==` of `number_general::NumberType`: whether two types are the same one.
#[verifier::external_body]
fn same_type(left: NumberType, right: NumberType) -> (same: bool)
    ensures
        same == (left == right),
{
    left == right
}

/// The `Debug` text of `number_general::NumberType`. Nothing is stated of it: it is for people to
/// read.
#[verifier::external_body]
fn type_text(dtype: NumberType) -> (text: String) {
    format!("{dtype:?}")
}

/// Check that a schema is one of tensors with elements of a type.
pub fn validate_tensor_dtype(dtype: NumberType, expected: NumberType) -> (result: Result<()>)
    ensures
        dtype == expected ==> result is Ok,
        dtype != expected ==> result matches Err(Error::InvalidSchema(_)),
{
    if !same_type(dtype, expected) {
        return Err(
            Error::InvalidSchema(
                "tensor dtype mismatch: schema ".to_string().concat(
                    type_text(dtype).as_str(),
                ).concat(" != tensor ").concat(type_text(expected).as_str()),
            ),
        );
    }
    Ok(())
}

/// The shape of one stored block, with the row-major strides of it.
#[derive(PartialEq, Eq, Debug)]
pub struct BlockSchema {
    pub shape: Shape,
    pub strides: Strides,
}

impl BlockSchema {
    pub open spec fn wf(&self) -> bool {
        &&& valid_dims(self.shape@)
        &&& are_strides(self.strides@, self.shape@)
    }

    pub fn new(tensor_shape: &[u64], max_capacity: usize) -> (result: Result<Self>)
        ensures
            result is Ok <==> valid_dims(tensor_shape@) && max_capacity > 0,
            result matches Ok(block) ==> block.wf() && block.shape@ == greedy_blocks(
                tensor_shape@,
                max_capacity as int,
            ),
            result matches Err(error) ==> error is InvalidSchema,
    {
        let shape = greedy_block_shape(tensor_shape, max_capacity)?;
        proof {
            greedy_blocks_fill_the_capacity(tensor_shape@, max_capacity as int);
            lemma_volume_suffix_bound(shape@, 1);
        }
        let strides = contiguous_strides(shape.as_slice())?;
        Ok(BlockSchema { shape, strides })
    }
}

impl Clone for BlockSchema {
    fn clone(&self) -> (block: Self)
        ensures
            block.shape@ == self.shape@,
            block.strides@ == self.strides@,
    {
        BlockSchema { shape: self.shape.clone(), strides: self.strides.clone() }
    }
}

/// How many blocks cover each axis of a tensor, as far as both have axes.
pub open spec fn grid_of(tensor_shape: Seq<u64>, block_shape: Seq<u64>) -> Seq<u64> {
    Seq::new(
        if tensor_shape.len() <= block_shape.len() {
            tensor_shape.len()
        } else {
            block_shape.len()
        },
        |i: int| ceil_div(tensor_shape[i] as int, block_shape[i] as int) as u64,
    )
}

/// The layout's axis, if it names one, is an axis of the tensor.
pub open spec fn layout_fits(layout: Layout, rank: nat) -> bool {
    layout matches Layout::Sparse { axis: Some(axis) } ==> axis < rank
}

/// How a tensor is cut into blocks: the grid of blocks with its row-major strides, and the
/// shape of a block.
#[derive(PartialEq, Eq, Debug)]
pub struct StorageSchema {
    pub shape: Shape,
    pub layout: Layout,
    pub strides: Strides,
    pub block_schema: BlockSchema,
}

impl StorageSchema {
    /// The schema cuts up tensors of this shape.
    pub open spec fn stores(&self, tensor_shape: Seq<u64>) -> bool {
        &&& self.block_schema.wf()
        &&& self.shape@ == grid_of(tensor_shape, self.block_schema.shape@)
        &&& valid_dims(self.shape@)
        &&& are_strides(self.strides@, self.shape@)
        &&& layout_fits(self.layout, tensor_shape.len())
    }

    /// Choose the block shape for a new tensor.
    pub fn new(tensor_shape: &[u64], layout: Layout, max_capacity: usize) -> (result: Result<Self>)
        ensures
            result is Ok <==> ({
                let blocks = greedy_blocks(tensor_shape@, max_capacity as int);
                &&& valid_dims(tensor_shape@)
                &&& max_capacity > 0
                &&& layout_fits(layout, tensor_shape@.len())
                &&& volume(grid_of(tensor_shape@, blocks).skip(1)) <= u64::MAX
            }),
            result matches Ok(schema) ==> schema.stores(tensor_shape@) && schema.layout == layout
                && schema.block_schema.shape@ == greedy_blocks(tensor_shape@, max_capacity as int),
            result matches Err(error) ==> error is InvalidSchema,
    {
        let block_schema = BlockSchema::new(tensor_shape, max_capacity)?;
        proof {
            greedy_blocks_fill_the_capacity(tensor_shape@, max_capacity as int);
            lemma_grid_valid(tensor_shape@, block_schema.shape@);
        }
        Self::from_block_schema(tensor_shape, layout, block_schema)
    }

    /// Take the block shape as it was stored.
    pub fn from_block_shape(tensor_shape: &[u64], layout: Layout, block_shape: Shape) -> (result:
        Result<Self>)
        ensures
            result is Ok <==> {
                &&& valid_dims(block_shape@)
                &&& volume(block_shape@.skip(1)) <= u64::MAX
                &&& layout_fits(layout, tensor_shape@.len())
                &&& valid_dims(grid_of(tensor_shape@, block_shape@))
                &&& volume(grid_of(tensor_shape@, block_shape@).skip(1)) <= u64::MAX
            },
            result matches Ok(schema) ==> schema.stores(tensor_shape@) && schema.layout == layout
                && schema.block_schema.shape@ == block_shape@,
            result matches Err(error) ==> error is InvalidSchema,
    {
        let strides = contiguous_strides(block_shape.as_slice())?;
        Self::from_block_schema(
            tensor_shape,
            layout,
            BlockSchema { shape: block_shape, strides },
        )
    }

    fn from_block_schema(tensor_shape: &[u64], layout: Layout, block_schema: BlockSchema) -> (result:
        Result<Self>)
        requires
            block_schema.wf(),
        ensures
            result is Ok <==> {
                &&& layout_fits(layout, tensor_shape@.len())
                &&& valid_dims(grid_of(tensor_shape@, block_schema.shape@))
                &&& volume(grid_of(tensor_shape@, block_schema.shape@).skip(1)) <= u64::MAX
            },
            result matches Ok(schema) ==> schema.stores(tensor_shape@) && schema.layout == layout
                && schema.block_schema == block_schema,
            result matches Err(error) ==> error is InvalidSchema,
    {
        if let Layout::Sparse { axis: Some(axis) } = layout {
            if axis >= tensor_shape.len() {
                return Err(Error::InvalidSchema("sparse axis hint out of bounds".to_string()));
            }
        }
        let blocks = block_schema.shape.as_slice();
        let mut grid: Vec<u64> = Vec::new();
        let mut i: usize = 0;
        while i < tensor_shape.len() && i < blocks.len()
            invariant
                i <= tensor_shape.len(),
                i <= blocks.len(),
                grid.len() == i,
                all_positive(blocks@),
                forall|j: int|
                    0 <= j < i ==> #[trigger] grid@[j] == ceil_div(
                        tensor_shape@[j] as int,
                        blocks@[j] as int,
                    ) as u64,
            decreases tensor_shape.len() - i,
        {
            grid.push(div_ceil(tensor_shape[i], blocks[i]));
            i += 1;
        }
        proof {
            assert(grid@ =~= grid_of(tensor_shape@, blocks@));
        }
        let shape = Shape::from_vec(grid);
        let strides = contiguous_strides(shape.as_slice())?;
        Ok(StorageSchema { shape, layout, strides, block_schema })
    }
}

impl Clone for StorageSchema {
    fn clone(&self) -> (schema: Self)
        ensures
            schema.shape@ == self.shape@,
            schema.layout == self.layout,
            schema.strides@ == self.strides@,
            schema.block_schema.shape@ == self.block_schema.shape@,
            schema.block_schema.strides@ == self.block_schema.strides@,
    {
        StorageSchema {
            shape: self.shape.clone(),
            layout: self.layout,
            strides: self.strides.clone(),
            block_schema: self.block_schema.clone(),
        }
    }
}

pub proof fn lemma_ceil_div(a: int, b: int)
    requires
        0 <= a,
        0 < b,
    ensures
        0 <= ceil_div(a, b) <= a,
        a > 0 ==> ceil_div(a, b) > 0,
        (ceil_div(a, b) - 1) * b < a <= ceil_div(a, b) * b || a == 0,
{
    lemma_fundamental_div_mod(a, b);
    lemma_mod_bound(a, b);
    let q = a / b;
    let r = a % b;
    assert(0 <= q <= a && (r != 0 ==> q < a) && (a > 0 && r == 0 ==> q > 0)) by (nonlinear_arith)
        requires
            a == b * q + r,
            0 <= r < b,
            0 <= a,
    ;
    assert((q - 1) * b == b * q - b && (q + 1) * b == b * q + b && q * b == b * q)
        by (nonlinear_arith);
}

/// A tensor and a block without empty axes have a grid without empty axes.
pub proof fn lemma_grid_valid(tensor_shape: Seq<u64>, block_shape: Seq<u64>)
    requires
        valid_dims(tensor_shape),
        valid_dims(block_shape),
    ensures
        valid_dims(grid_of(tensor_shape, block_shape)),
{
    let grid = grid_of(tensor_shape, block_shape);
    assert forall|i: int| 0 <= i < grid.len() implies #[trigger] grid[i] > 0 by {
        assert(tensor_shape[i] > 0);
        assert(block_shape[i] > 0);
        lemma_ceil_div(tensor_shape[i] as int, block_shape[i] as int);
    }
}

/// Where an element is kept: the block, and the place in it.
#[derive(Clone, Copy, PartialEq, Eq, Debug, Structural)]
pub struct BlockPosition {
    pub block_id: u64,
    pub offset_in_block: usize,
}

/// How many coordinates a row-major walk visits. A shape without axes has none to visit.
pub open spec fn walk_len(shape: Seq<u64>) -> int {
    if shape.len() == 0 {
        0
    } else {
        volume(shape)
    }
}

/// The coordinates of a shape in row-major order.
pub open spec fn row_major(shape: Seq<u64>) -> Seq<Seq<u64>> {
    Seq::new(walk_len(shape) as nat, |i: int| coordinate_at(i, shape))
}

/// A row-major walk visits each coordinate of the shape exactly once, in the order of
/// positions.
pub proof fn row_major_visits_each_coordinate_once(shape: Seq<u64>, coord: Seq<u64>)
    requires
        valid_dims(shape),
    ensures
        in_box(coord, shape) <==> row_major(shape).contains(coord),
        row_major(shape).no_duplicates(),
        forall|i: int|
            0 <= i < row_major(shape).len() ==> position_of(#[trigger] row_major(shape)[i], shape)
                == i,
{
    lemma_volume_positive(shape);
    assert forall|i: int| 0 <= i < row_major(shape).len() implies position_of(
        #[trigger] row_major(shape)[i],
        shape,
    ) == i && in_box(row_major(shape)[i], shape) by {
        lemma_coordinate_position(i, shape);
    }
    if in_box(coord, shape) {
        lemma_position_bound(coord, shape);
        lemma_position_coordinate(coord, shape);
        assert(row_major(shape)[position_of(coord, shape)] == coord);
    }
}

/// A walk over the coordinates of a shape in row-major order.
pub struct RowMajorCoords {
    shape: Shape,
    coord: Coord,
    remaining: u64,
}

impl RowMajorCoords {
    pub closed spec fn spec_shape(&self) -> Seq<u64> {
        self.shape@
    }

    /// How many coordinates are left.
    pub closed spec fn spec_remaining(&self) -> int {
        self.remaining as int
    }

    /// The position of the coordinate that comes next.
    pub open spec fn position(&self) -> int {
        walk_len(self.spec_shape()) - self.spec_remaining()
    }

    pub closed spec fn wf(&self) -> bool {
        &&& 0 <= self.remaining <= walk_len(self.shape@)
        &&& self.remaining > 0 ==> {
            &&& all_positive(self.shape@)
            &&& self.coord@ == coordinate_at(self.position(), self.shape@)
        }
    }

    pub proof fn lemma_bounds(&self)
        requires
            self.wf(),
        ensures
            0 <= self.spec_remaining() <= walk_len(self.spec_shape()),
            self.spec_remaining() > 0 ==> valid_dims(self.spec_shape()),
    {
    }

    /// The next coordinate, until none is left.
    pub fn next(&mut self) -> (coord: Option<Vec<u64>>)
        requires
            old(self).wf(),
        ensures
            final(self).wf(),
            final(self).spec_shape() == old(self).spec_shape(),
            match coord {
                Some(coord) => {
                    &&& 0 <= old(self).position() < row_major(old(self).spec_shape()).len()
                    &&& coord@ == row_major(old(self).spec_shape())[old(self).position()]
                    &&& final(self).spec_remaining() == old(self).spec_remaining() - 1
                },
                None => {
                    &&& old(self).spec_remaining() == 0
                    &&& final(self).spec_remaining() == 0
                },
            },
    {
        if self.remaining == 0 {
            return None;
        }
        let out = slice_to_vec(self.coord.as_slice());
        proof {
            lemma_coordinate_position(self.position(), self.shape@);
        }
        self.remaining = self.remaining - 1;
        if self.remaining > 0 {
            advance(&mut self.coord, self.shape.as_slice());
        }
        Some(out)
    }
}

/// Walk over a shape in row-major order.
pub fn row_major_coords(shape: &[u64]) -> (result: Result<RowMajorCoords>)
    ensures
        result is Ok <==> product_fits(shape@),
        result matches Ok(walk) ==> walk.wf() && walk.spec_shape() == shape@ && walk.spec_remaining()
            == walk_len(shape@),
        result matches Err(error) ==> error is InvalidSchema,
{
    let total: u64 = checked_product(shape)?;
    let remaining: u64 = if shape.len() == 0 {
        0
    } else {
        total
    };
    let coord = Shape::from_vec(vec![0; shape.len()]);
    proof {
        lemma_volume_positive(shape@);
        if remaining > 0 {
            lemma_coordinate_zero(shape@);
            assert(coord@ =~= coordinate_at(0, shape@));
        }
    }
    Ok(RowMajorCoords { shape: Shape::from_slice(shape), coord, remaining })
}

/// Columns of an index over the blocks of a sparse tensor.
#[derive(Clone, PartialEq, Eq, Debug)]
pub struct SparseIndexSchema {
    columns: Vec<String>,
}

/// `std::io::Error::new` with the kind for data that cannot be. Nothing is claimed of it.
#[verifier::external_body]
fn invalid_data(message: &str) -> std::io::Error {
    std::io::Error::new(std::io::ErrorKind::InvalidData, message)
}

impl SparseIndexSchema {
    pub closed spec fn spec_columns(&self) -> Seq<String> {
        self.columns@
    }

    pub fn new(columns: Vec<String>) -> (schema: Self)
        ensures
            schema.spec_columns() == columns@,
    {
        SparseIndexSchema { columns }
    }

    pub fn columns(&self) -> (columns: &[String])
        ensures
            columns@ == self.spec_columns(),
    {
        self.columns.as_slice()
    }

    /// The size of an index node, in bytes.
    pub fn block_size(&self) -> (size: usize)
        ensures
            size == 4096,
    {
        4096
    }

    pub fn len(&self) -> (len: usize)
        ensures
            len == self.spec_columns().len(),
    {
        self.columns.len()
    }

    pub fn is_empty(&self) -> (empty: bool)
        ensures
            empty == (self.spec_columns().len() == 0),
    {
        self.columns.len() == 0
    }

    /// The order of the index tree.
    pub fn order(&self) -> (order: usize)
        ensures
            order == 16,
    {
        16
    }

    /// A key has one value per column.
    pub fn validate_key(&self, key: Vec<u64>) -> (result: std::result::Result<
        Vec<u64>,
        std::io::Error,
    >)
        ensures
            result is Ok <==> key@.len() == self.spec_columns().len(),
            result matches Ok(valid) ==> valid == key,
    {
        if key.len() == self.len() {
            Ok(key)
        } else {
            Err(invalid_data("invalid sparse index key length"))
        }
    }
}

/// The block index of a sparse tensor: a coordinate and a block of the grid give the block
/// that is stored for them.
#[derive(Clone, PartialEq, Eq, Debug)]
pub struct SparseTableSchema {
    primary: SparseIndexSchema,
    auxiliary: Vec<(String, SparseIndexSchema)>,
}

impl SparseTableSchema {
    pub closed spec fn spec_primary(&self) -> Seq<String> {
        self.primary.spec_columns()
    }

    pub closed spec fn spec_auxiliary(&self) -> Seq<(String, SparseIndexSchema)> {
        self.auxiliary@
    }

    /// Three columns: two of the key, and one value.
    pub open spec fn wf(&self) -> bool {
        &&& self.spec_primary().len() == 3
        &&& self.spec_primary()[0]@ == "coord"@
        &&& self.spec_primary()[1]@ == "block_offset"@
        &&& self.spec_primary()[2]@ == "block_id"@
        &&& self.spec_auxiliary().len() == 0
    }

    pub fn key(&self) -> (columns: &[String])
        requires
            self.wf(),
        ensures
            columns@ == self.spec_primary().take(2),
    {
        slice_subrange(self.primary.columns(), 0, 2)
    }

    pub fn values(&self) -> (columns: &[String])
        requires
            self.wf(),
        ensures
            columns@ == self.spec_primary().skip(2),
    {
        let columns = self.primary.columns();
        slice_subrange(columns, 2, columns.len())
    }

    pub fn primary(&self) -> (index: &SparseIndexSchema)
        ensures
            index.spec_columns() == self.spec_primary(),
    {
        &self.primary
    }

    pub fn auxiliary(&self) -> (indices: &[(String, SparseIndexSchema)])
        ensures
            indices@ == self.spec_auxiliary(),
    {
        self.auxiliary.as_slice()
    }

    /// A key has one value per key column.
    pub fn validate_key(&self, key: Vec<u64>) -> (result: std::result::Result<
        Vec<u64>,
        std::io::Error,
    >)
        ensures
            result is Ok <==> key@.len() == 2,
            result matches Ok(valid) ==> valid == key,
    {
        if key.len() == 2 {
            Ok(key)
        } else {
            Err(invalid_data("invalid sparse table key length"))
        }
    }

    /// A row holds one value beside its key.
    pub fn validate_values(&self, values: Vec<u64>) -> (result: std::result::Result<
        Vec<u64>,
        std::io::Error,
    >)
        ensures
            result is Ok <==> values@.len() == 1,
            result matches Ok(valid) ==> valid == values,
    {
        if values.len() == 1 {
            Ok(values)
        } else {
            Err(invalid_data("invalid sparse table value length"))
        }
    }
}

impl Default for SparseTableSchema {
    fn default() -> (schema: Self)
        ensures
            schema.wf(),
    {
        let columns = vec!["coord".to_string(), "block_offset".to_string(), "block_id".to_string()];
        SparseTableSchema { primary: SparseIndexSchema::new(columns), auxiliary: Vec::new() }
    }
}

} // verus!
