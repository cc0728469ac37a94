//! How a tensor is kept in storage: which block and which place holds an element, and what a
//! write does to the blocks and the index.

use vstd::prelude::*;
use vstd::string::StringExecFns;
use crate::element::{filled, TensorElement};
use crate::error::{Error, Result};
use crate::geometry::{
    all_positive, in_box, lemma_volume_positive, lemma_volume_suffix_bound, volume,
};
use crate::inline::{Shape, Strides};
use crate::schema::{
    are_strides, BlockPosition, checked_product, contiguous_strides, greedy_blocks,
    greedy_blocks_fill_the_capacity, grid_of, Layout, layout_fits, lemma_grid_valid,
    lemma_product_fits, MAX_BLOCK_CAPACITY, StorageSchema, valid_dims,
};
use crate::storage_read::{
    block_of, block_positions_are_unique, lemma_grid_volume, place_of, StorageShape,
};
use crate::validate::ensure_offset_in_bounds;

verus! {

/// The axis that the index of a layout is keyed by. Storage accepts a layout only if its axis is
/// one of the tensor, so that no other axis is ever put in its place.
pub open spec fn sparse_axis(layout: Layout) -> usize {
    match layout {
        Layout::Sparse { axis: Some(axis) } => axis,
        _ => 0,
    }
}

pub fn sparse_axis_for_layout(layout: Layout) -> (axis: usize)
    ensures
        axis == sparse_axis(layout),
{
    match layout {
        Layout::Sparse { axis } => match axis {
            Some(axis) => axis,
            None => 0,
        },
        Layout::Dense => 0,
    }
}

/// The geometry of a stored tensor.
#[derive(Debug)]
pub struct TensorStorage {
    shape: Shape,
    strides: Strides,
    schema: StorageSchema,
}

impl TensorStorage {
    pub closed spec fn spec_shape(&self) -> Seq<u64> {
        self.shape@
    }

    pub closed spec fn spec_strides(&self) -> Seq<u64> {
        self.strides@
    }

    pub closed spec fn spec_layout(&self) -> Layout {
        self.schema.layout
    }

    pub closed spec fn spec_block_shape(&self) -> Seq<u64> {
        self.schema.block_schema.shape@
    }

    /// How many elements a block has.
    pub open spec fn spec_block_len(&self) -> int {
        volume(self.spec_block_shape())
    }

    /// How many blocks the grid has.
    pub open spec fn spec_num_blocks(&self) -> int {
        volume(grid_of(self.spec_shape(), self.spec_block_shape()))
    }

    pub closed spec fn wf(&self) -> bool {
        &&& valid_dims(self.shape@)
        &&& are_strides(self.strides@, self.shape@)
        &&& self.schema.stores(self.shape@)
        &&& self.schema.block_schema.shape@.len() == self.shape@.len()
        &&& volume(self.schema.block_schema.shape@) <= MAX_BLOCK_CAPACITY
    }

    /// A machine can number the blocks.
    pub open spec fn is_countable(&self) -> bool {
        self.spec_num_blocks() <= u64::MAX
    }

    pub proof fn lemma_wf(&self)
        requires
            self.wf(),
        ensures
            valid_dims(self.spec_shape()),
            are_strides(self.spec_strides(), self.spec_shape()),
            self.spec_block_shape().len() == self.spec_shape().len(),
            all_positive(self.spec_block_shape()),
            0 < self.spec_block_len() <= MAX_BLOCK_CAPACITY,
            0 < self.spec_num_blocks() <= volume(self.spec_shape()),
            sparse_axis(self.spec_layout()) < self.spec_shape().len(),
    {
        lemma_volume_positive(self.spec_block_shape());
        lemma_grid_volume(self.spec_shape(), self.spec_block_shape());
    }

    /// Lay out a new tensor, in blocks of at most so many elements.
    pub fn create(shape: Shape, layout: Layout, max_capacity: usize) -> (result: Result<Self>)
        ensures
            result is Ok <==> {
                &&& 0 < max_capacity <= MAX_BLOCK_CAPACITY
                &&& valid_dims(shape@)
                &&& volume(shape@.skip(1)) <= u64::MAX
                &&& layout_fits(layout, shape@.len())
            },
            result matches Ok(storage) ==> {
                &&& storage.wf()
                &&& storage.spec_shape() == shape@
                &&& storage.spec_layout() == layout
                &&& storage.spec_block_shape() == greedy_blocks(shape@, max_capacity as int)
            },
            result matches Err(error) ==> error is InvalidSchema,
    {
        if max_capacity == 0 || max_capacity > MAX_BLOCK_CAPACITY {
            return Err(
                Error::InvalidSchema(
                    "max block capacity must be non-zero and at most ".to_string().concat(
                        MAX_BLOCK_CAPACITY.to_string().as_str(),
                    ).concat(", got ").concat(max_capacity.to_string().as_str()),
                ),
            );
        }
        let strides = contiguous_strides(shape.as_slice())?;
        proof {
            let blocks = greedy_blocks(shape@, max_capacity as int);
            greedy_blocks_fill_the_capacity(shape@, max_capacity as int);
            assert(grid_of(shape@, blocks).skip(1) =~= grid_of(shape@.skip(1), blocks.skip(1)));
            assert(all_positive(shape@.skip(1))) by {
                assert forall|i: int| 0 <= i < shape@.skip(1).len() implies #[trigger] shape@.skip(
                    1,
                )[i] > 0 by {
                    assert(shape@[i + 1] > 0);
                }
            }
            assert(all_positive(blocks.skip(1))) by {
                assert forall|i: int| 0 <= i < blocks.skip(1).len() implies #[trigger] blocks.skip(
                    1,
                )[i] > 0 by {
                    assert(blocks[i + 1] > 0);
                }
            }
            lemma_grid_volume(shape@.skip(1), blocks.skip(1));
        }
        let schema = StorageSchema::new(shape.as_slice(), layout, max_capacity)?;
        Ok(TensorStorage { shape, strides, schema })
    }

    /// Take the layout of a tensor as it was stored.
    pub fn from_blocks(shape: Shape, layout: Layout, block_shape: Shape) -> (result: Result<Self>)
        ensures
            result is Ok <==> {
                &&& valid_dims(shape@)
                &&& volume(shape@.skip(1)) <= u64::MAX
                &&& valid_dims(block_shape@)
                &&& block_shape@.len() == shape@.len()
                &&& volume(block_shape@) <= MAX_BLOCK_CAPACITY
                &&& layout_fits(layout, shape@.len())
                &&& volume(grid_of(shape@, block_shape@).skip(1)) <= u64::MAX
            },
            result matches Ok(storage) ==> {
                &&& storage.wf()
                &&& storage.spec_shape() == shape@
                &&& storage.spec_layout() == layout
                &&& storage.spec_block_shape() == block_shape@
            },
            result matches Err(error) ==> error is InvalidSchema,
    {
        let strides = contiguous_strides(shape.as_slice())?;
        if shape.len() != block_shape.len() {
            return Err(
                Error::InvalidSchema("block shape rank differs from tensor rank".to_string()),
            );
        }
        proof {
            if valid_dims(block_shape@) {
                lemma_product_fits(block_shape@);
                lemma_volume_suffix_bound(block_shape@, 1);
                lemma_grid_valid(shape@, block_shape@);
            }
            lemma_volume_positive(block_shape@);
        }
        let capacity: u64 = checked_product(block_shape.as_slice())?;
        if capacity == 0 || capacity > MAX_BLOCK_CAPACITY as u64 {
            return Err(Error::InvalidSchema("invalid block capacity".to_string()));
        }
        let schema = StorageSchema::from_block_shape(shape.as_slice(), layout, block_shape)?;
        Ok(TensorStorage { shape, strides, schema })
    }

    pub fn shape(&self) -> (shape: &[u64])
        ensures
            shape@ == self.spec_shape(),
    {
        self.shape.as_slice()
    }

    pub fn strides(&self) -> (strides: &[u64])
        ensures
            strides@ == self.spec_strides(),
    {
        self.strides.as_slice()
    }

    pub fn layout(&self) -> (layout: Layout)
        ensures
            layout == self.spec_layout(),
    {
        self.schema.layout
    }

    pub fn block_shape(&self) -> (shape: &[u64])
        ensures
            shape@ == self.spec_block_shape(),
    {
        self.schema.block_schema.shape.as_slice()
    }

    /// How many blocks there are along each axis.
    pub fn grid_shape(&self) -> (shape: &[u64])
        requires
            self.wf(),
        ensures
            shape@ == grid_of(self.spec_shape(), self.spec_block_shape()),
    {
        self.schema.shape.as_slice()
    }

    /// How many elements a block has.
    pub fn block_len(&self) -> (len: usize)
        requires
            self.wf(),
        ensures
            len == self.spec_block_len(),
    {
        proof {
            self.lemma_wf();
            lemma_product_fits(self.spec_block_shape());
        }
        match checked_product(self.schema.block_schema.shape.as_slice()) {
            Ok(len) => len as usize,
            Err(_) => 0,
        }
    }

    /// How many blocks the grid has.
    pub fn num_blocks(&self) -> (blocks: u64)
        requires
            self.wf(),
            self.is_countable(),
        ensures
            blocks == self.spec_num_blocks(),
    {
        proof {
            self.lemma_wf();
            lemma_product_fits(self.schema.shape@);
        }
        match checked_product(self.schema.shape.as_slice()) {
            Ok(blocks) => blocks,
            Err(_) => 0,
        }
    }

    /// A block of zeros.
    pub fn default_block<T: TensorElement>(&self) -> (block: Vec<T>)
        requires
            self.wf(),
        ensures
            block@ == zeros::<T>(self.spec_block_len()),
    {
        proof {
            self.lemma_wf();
        }
        filled(T::zero(), self.block_len())
    }

    /// How to plan reads of the tensor.
    pub fn storage_shape(&self) -> (shape: StorageShape<'_>)
        requires
            self.wf(),
            self.is_countable(),
        ensures
            shape.wf(),
            shape.shape@ == self.spec_shape(),
            shape.strides@ == self.spec_strides(),
            shape.block_shape@ == self.spec_block_shape(),
            shape.sparse_axis == match self.spec_layout() {
                Layout::Dense => None::<usize>,
                Layout::Sparse { .. } => Some(sparse_axis(self.spec_layout())),
            },
    {
        proof {
            self.lemma_wf();
        }
        let sparse_axis: Option<usize> = match self.schema.layout {
            Layout::Dense => None,
            Layout::Sparse { .. } => Some(sparse_axis_for_layout(self.schema.layout)),
        };
        StorageShape {
            shape: self.shape.as_slice(),
            strides: self.strides.as_slice(),
            block_shape: self.schema.block_schema.shape.as_slice(),
            block_strides: self.schema.block_schema.strides.as_slice(),
            grid_strides: self.schema.strides.as_slice(),
            sparse_axis,
        }
    }

    /// The block and the place in it that an element belongs to.
    pub fn block_position_from_base_coord(&self, coord: &[u64]) -> (position: BlockPosition)
        requires
            self.wf(),
            self.is_countable(),
            in_box(coord@, self.spec_shape()),
        ensures
            position.block_id == block_of(coord@, self.spec_shape(), self.spec_block_shape()),
            position.offset_in_block == place_of(coord@, self.spec_block_shape()),
            position.offset_in_block < self.spec_block_len(),
            position.block_id < self.spec_num_blocks(),
    {
        proof {
            self.lemma_wf();
            block_positions_are_unique(
                coord@,
                coord@,
                self.spec_shape(),
                self.spec_block_shape(),
            );
        }
        let (block_id, offset_in_block) = self.storage_shape().position(coord);
        BlockPosition { block_id, offset_in_block }
    }

    /// The key of the index for a coordinate and its block.
    pub fn sparse_key(&self, coord: &[u64], block: u64) -> (key: Vec<u64>)
        requires
            self.wf(),
            coord@.len() == self.spec_shape().len(),
        ensures
            key@ == seq![coord@[sparse_axis(self.spec_layout()) as int], block],
    {
        proof {
            self.lemma_wf();
        }
        let axis: usize = sparse_axis_for_layout(self.schema.layout);
        let key = vec![coord[axis], block];
        assert(key@ =~= seq![coord@[axis as int], block]);
        key
    }
}

/// So many zeros.
pub open spec fn zeros<T: TensorElement>(len: int) -> Seq<T> {
    Seq::new(len as nat, |i: int| T::spec_zero())
}

/// What a batch of updates makes of a block: each in turn, so that the last one wins.
pub open spec fn updated<T>(block: Seq<T>, updates: Seq<(usize, usize, T)>) -> Seq<T>
    decreases updates.len(),
{
    if updates.len() == 0 {
        block
    } else {
        updated(block, updates.drop_last()).update(updates.last().1 as int, updates.last().2)
    }
}

/// Every update is for a place of the block.
pub open spec fn updates_fit<T>(updates: Seq<(usize, usize, T)>, len: int) -> bool {
    forall|i: int| 0 <= i < updates.len() ==> (#[trigger] updates[i]).1 < len
}

/// Apply updates to a block, each with its order in a batch, its place and its value. Every place
/// is checked before any value changes.
pub fn apply_block_updates<T: Copy>(
    block: &mut Vec<T>,
    updates: &[(usize, usize, T)],
    block_len: usize,
) -> (result: Result<()>)
    ensures
        result is Ok <==> old(block)@.len() == block_len && updates_fit(
            updates@,
            block_len as int,
        ),
        result is Ok ==> final(block)@ == updated(old(block)@, updates@),
        result is Err ==> final(block)@ == old(block)@,
        result matches Err(error) ==> error is InvalidLayout,
{
    if block.len() != block_len {
        return Err(Error::InvalidLayout("invalid stored block length".to_string()));
    }
    let mut i: usize = 0;
    while i < updates.len()
        invariant
            i <= updates.len(),
            block@ == old(block)@,
            block@.len() == block_len,
            forall|j: int| 0 <= j < i ==> (#[trigger] updates@[j]).1 < block_len,
        decreases updates.len() - i,
    {
        let (_, offset, _) = updates[i];
        let checked = ensure_offset_in_bounds(offset, block.len());
        if let Err(error) = checked {
            assert(!(updates@[i as int].1 < block_len));
            return Err(error);
        }
        i += 1;
    }
    let mut i: usize = 0;
    let ghost first = block@;
    proof {
        assert(updates@.take(0) =~= Seq::<(usize, usize, T)>::empty());
    }
    while i < updates.len()
        invariant
            i <= updates.len(),
            first == old(block)@,
            first.len() == block_len,
            block@.len() == block_len,
            updates_fit(updates@, block_len as int),
            block@ == updated(first, updates@.take(i as int)),
        decreases updates.len() - i,
    {
        let (_, offset, value) = updates[i];
        proof {
            assert(updates@[i as int].1 < block_len);
            assert(updates@.take(i + 1).drop_last() =~= updates@.take(i as int));
            assert(updates@.take(i + 1).last() == updates@[i as int]);
        }
        block.set(offset, value);
        i += 1;
    }
    proof {
        assert(updates@.take(i as int) =~= updates@);
    }
    Ok(())
}

/// Every element of the block is zero.
pub fn is_empty_block<T: TensorElement>(block: &[T]) -> (empty: bool)
    ensures
        empty <==> all_zero(block@),
{
    let mut i: usize = 0;
    while i < block.len()
        invariant
            i <= block.len(),
            forall|j: int| 0 <= j < i ==> (#[trigger] block@[j]).spec_is_zero(),
        decreases block.len() - i,
    {
        if !block[i].is_zero() {
            assert(!block@[i as int].spec_is_zero());
            return false;
        }
        i += 1;
    }
    true
}

/// Every element is zero.
pub open spec fn all_zero<T: TensorElement>(block: Seq<T>) -> bool {
    forall|i: int| 0 <= i < block.len() ==> (#[trigger] block[i]).spec_is_zero()
}

} // verus!
