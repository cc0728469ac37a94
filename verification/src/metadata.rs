//! What storage keeps of a tensor beside its blocks.

use vstd::prelude::*;
use vstd::slice::slice_to_vec;
use crate::error::{Error, Result};
use crate::geometry::{all_positive, lemma_volume_positive, lemma_volume_suffix_bound, volume};
use crate::inline::Shape;
use crate::schema::{
    checked_product, contiguous_strides, grid_of, Layout, layout_fits, lemma_grid_valid,
    MAX_BLOCK_CAPACITY, product_fits, StorageSchema, valid_dims,
};
use crate::storage_read::lemma_grid_volume;
use crate::tensor::TensorStorage;

verus! {

/// The geometry of a stored tensor of elements of a type. The type itself is not kept: whoever
/// saves and loads it knows which it is.
#[derive(Debug)]
pub struct TensorMetadata<T> {
    shape: Shape,
    layout: Layout,
    block_shape: Shape,
    dtype: core::marker::PhantomData<T>,
}

/// Blocks of this shape can hold a tensor of that shape.
pub open spec fn metadata_fits(shape: Seq<u64>, layout: Layout, block_shape: Seq<u64>) -> bool {
    &&& valid_dims(shape)
    &&& volume(shape.skip(1)) <= u64::MAX
    &&& block_shape.len() == shape.len()
    &&& product_fits(block_shape)
    &&& 0 < volume(block_shape) <= MAX_BLOCK_CAPACITY
    &&& layout_fits(layout, shape.len())
}

/// A layout as a flag and an axis.
pub open spec fn layout_parts(layout: Layout) -> (bool, Option<u64>) {
    match layout {
        Layout::Dense => (false, None),
        Layout::Sparse { axis: None } => (true, None),
        Layout::Sparse { axis: Some(axis) } => (true, Some(axis as u64)),
    }
}

/// What is kept: the shape, whether the layout is sparse, its axis, and the shape of a block.
pub type Encoded = (Vec<u64>, bool, Option<u64>, Vec<u64>);

/// The parts are those of the metadata.
pub open spec fn keeps<T>(encoded: Encoded, metadata: TensorMetadata<T>) -> bool {
    &&& encoded.0@ == metadata.spec_shape()
    &&& (encoded.1, encoded.2) == layout_parts(metadata.spec_layout())
    &&& encoded.3@ == metadata.spec_block_shape()
}

/// The parts are those of some layout that fits the shapes.
pub open spec fn is_decodable(encoded: Encoded) -> bool {
    exists|layout: Layout| #[trigger]
        layout_parts(layout) == (encoded.1, encoded.2) && metadata_fits(
            encoded.0@,
            layout,
            encoded.3@,
        )
}

impl<T> TensorMetadata<T> {
    pub closed spec fn spec_shape(&self) -> Seq<u64> {
        self.shape@
    }

    pub closed spec fn spec_layout(&self) -> Layout {
        self.layout
    }

    pub closed spec fn spec_block_shape(&self) -> Seq<u64> {
        self.block_shape@
    }

    pub open spec fn wf(&self) -> bool {
        metadata_fits(self.spec_shape(), self.spec_layout(), self.spec_block_shape())
    }

    pub fn new(shape: Shape, layout: Layout, block_shape: Shape) -> (result: Result<Self>)
        ensures
            result is Ok <==> metadata_fits(shape@, layout, block_shape@),
            result matches Ok(metadata) ==> metadata.wf() && metadata.spec_shape() == shape@
                && metadata.spec_layout() == layout && metadata.spec_block_shape() == block_shape@,
            result matches Err(error) ==> error is InvalidSchema,
    {
        contiguous_strides(shape.as_slice())?;
        if shape.len() != block_shape.len() {
            return Err(
                Error::InvalidSchema("block shape rank differs from tensor rank".to_string()),
            );
        }
        let capacity: u64 = match checked_product(block_shape.as_slice()) {
            Ok(capacity) => capacity,
            Err(_) => {
                return Err(Error::InvalidSchema("block capacity overflow".to_string()));
            },
        };
        if capacity == 0 || capacity > MAX_BLOCK_CAPACITY as u64 {
            return Err(Error::InvalidSchema("invalid block capacity".to_string()));
        }
        proof {
            lemma_blocks_cover(shape@, block_shape@);
        }
        StorageSchema::from_block_shape(shape.as_slice(), layout, block_shape.clone())?;
        Ok(TensorMetadata { shape, layout, block_shape, dtype: core::marker::PhantomData })
    }

    pub fn shape(&self) -> (shape: &Shape)
        ensures
            shape@ == self.spec_shape(),
    {
        &self.shape
    }

    pub fn layout(&self) -> (layout: Layout)
        ensures
            layout == self.spec_layout(),
    {
        self.layout
    }

    pub fn block_shape(&self) -> (shape: &Shape)
        ensures
            shape@ == self.spec_block_shape(),
    {
        &self.block_shape
    }

    /// The geometry of the stored tensor.
    pub fn storage(&self) -> (result: Result<TensorStorage>)
        requires
            self.wf(),
        ensures
            result is Ok,
            result matches Ok(storage) ==> storage.wf() && storage.spec_shape()
                == self.spec_shape() && storage.spec_layout() == self.spec_layout()
                && storage.spec_block_shape() == self.spec_block_shape(),
    {
        proof {
            lemma_blocks_cover(self.shape@, self.block_shape@);
        }
        TensorStorage::from_blocks(self.shape.clone(), self.layout, self.block_shape.clone())
    }

    /// What is kept of the tensor.
    pub fn encode(&self) -> (encoded: Encoded)
        ensures
            keeps(encoded, *self),
    {
        let (sparse, axis): (bool, Option<u64>) = match self.layout {
            Layout::Dense => (false, None),
            Layout::Sparse { axis } => match axis {
                Some(axis) => (true, Some(axis as u64)),
                None => (true, None),
            },
        };
        (
            slice_to_vec(self.shape.as_slice()),
            sparse,
            axis,
            slice_to_vec(self.block_shape.as_slice()),
        )
    }

    /// Take what is kept of a tensor. A dense tensor has no axis.
    pub fn decode(encoded: Encoded) -> (result: Result<Self>)
        ensures
            result is Ok <==> is_decodable(encoded),
            result matches Ok(metadata) ==> metadata.wf() && keeps(encoded, metadata),
            result matches Err(error) ==> error is InvalidSchema,
    {
        let (shape, sparse, axis, block_shape) = encoded;
        let layout = match axis {
            None => if sparse {
                Layout::Sparse { axis: None }
            } else {
                Layout::Dense
            },
            Some(axis) => {
                if !sparse {
                    return Err(
                        Error::InvalidSchema("dense metadata contains a sparse axis".to_string()),
                    );
                }
                if axis > usize::MAX as u64 {
                    return Err(Error::InvalidSchema("sparse axis overflow".to_string()));
                }
                Layout::Sparse { axis: Some(axis as usize) }
            },
        };
        assert(layout_parts(layout) == (sparse, axis));
        Self::new(Shape::from_vec(shape), layout, Shape::from_vec(block_shape))
    }
}

/// Metadata that were kept can be taken again, and are then the same.
pub proof fn kept_metadata_are_given_back<T>(
    metadata: TensorMetadata<T>,
    encoded: Encoded,
    decoded: TensorMetadata<T>,
)
    requires
        metadata.wf(),
        keeps(encoded, metadata),
    ensures
        is_decodable(encoded),
        keeps(encoded, decoded) ==> decoded.spec_shape() == metadata.spec_shape()
            && decoded.spec_layout() == metadata.spec_layout() && decoded.spec_block_shape()
            == metadata.spec_block_shape(),
{
    assert(layout_parts(metadata.spec_layout()) == (encoded.1, encoded.2));
}

/// Two layouts are not kept alike.
pub proof fn layouts_have_their_own_parts(left: Layout, right: Layout)
    requires
        layout_parts(left) == layout_parts(right),
    ensures
        left == right,
{
}

/// Blocks of positive capacity cover a tensor by a grid that can be indexed.
proof fn lemma_blocks_cover(shape: Seq<u64>, block_shape: Seq<u64>)
    requires
        valid_dims(shape),
        volume(shape.skip(1)) <= u64::MAX,
        block_shape.len() == shape.len(),
        0 < volume(block_shape) <= MAX_BLOCK_CAPACITY,
    ensures
        valid_dims(block_shape),
        volume(block_shape.skip(1)) <= u64::MAX,
        valid_dims(grid_of(shape, block_shape)),
        volume(grid_of(shape, block_shape).skip(1)) <= u64::MAX,
{
    lemma_volume_positive(block_shape);
    lemma_grid_valid(shape, block_shape);
    lemma_volume_suffix_bound(block_shape, 1);
    let rest = shape.skip(1);
    let blocks = block_shape.skip(1);
    assert(grid_of(shape, block_shape).skip(1) =~= grid_of(rest, blocks));
    assert(all_positive(rest)) by {
        assert forall|i: int| 0 <= i < rest.len() implies #[trigger] rest[i] > 0 by {
            assert(shape[i + 1] > 0);
        }
    }
    assert(all_positive(blocks)) by {
        assert forall|i: int| 0 <= i < blocks.len() implies #[trigger] blocks[i] > 0 by {
            assert(block_shape[i + 1] > 0);
        }
    }
    lemma_grid_volume(rest, blocks);
}

} // verus!
