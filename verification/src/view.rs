//! Geometric views of stored tensors.

use vstd::prelude::*;
use crate::error::{Error, Result};
use crate::inline::{Axes, Bound, Range, Shape, Strides};
use crate::mapping::{
    AxisContrib, broadcasted, chosen_permutation, contiguous, CoordinateMap, flip_fits, flipped,
    identity_map, Mapping, offset_at, offset_fits, reshaped, resolves, slice_fits, sliced,
    squeeze_base_fits, squeezed, transposed, unravel, unsqueezed,
};
use crate::room::{map_room, transforms_stay_in_range};
use crate::schema::Layout;
use crate::traits::{TensorGeometry, TensorTransform, TensorViewSemantics};
use crate::transform::{
    lemma_broadcast_places, lemma_flip_places, lemma_reshape_places, lemma_slice_places,
    lemma_squeeze_places, lemma_transpose_places, lemma_unsqueeze_places,
};
use crate::validate::same_dims;

verus! {

/// A view of a stored tensor: which element of the tensor stands at each coordinate. The base is
/// whatever the tensor is read and written through.
#[derive(Debug)]
pub struct TensorView<B> {
    base: B,
    base_shape: Shape,
    base_strides: Strides,
    layout: Layout,
    mapping: CoordinateMap,
}

/// Some axis of the view is a table or a constant.
pub open spec fn has_no_stride(map: Mapping) -> bool {
    exists|i: int| 0 <= i < map.axes.len() && !((#[trigger] map.axes[i]) is Stride)
}

impl<B> TensorView<B> {
    pub closed spec fn spec_base(&self) -> B {
        self.base
    }

    pub closed spec fn spec_base_shape(&self) -> Seq<u64> {
        self.base_shape@
    }

    pub closed spec fn spec_base_strides(&self) -> Seq<u64> {
        self.base_strides@
    }

    pub closed spec fn spec_mapping(&self) -> Mapping {
        self.mapping@
    }

    /// The other view is one of the same tensor.
    pub open spec fn same_source(&self, other: &Self) -> bool {
        &&& self.spec_base() == other.spec_base()
        &&& self.spec_base_shape() == other.spec_base_shape()
        &&& self.spec_base_strides() == other.spec_base_strides()
        &&& self.spec_layout() == other.spec_layout()
    }

    pub closed spec fn wf(&self) -> bool {
        self.mapping.wf()
    }

    /// The whole of a tensor.
    pub fn new_identity(base: B, shape: Shape, strides: Strides, layout: Layout) -> (view: Self)
        requires
            shape@.len() == strides@.len(),
        ensures
            view.inv(),
            view.spec_base() == base,
            view.spec_shape() == shape@,
            view.spec_layout() == layout,
            view.spec_base_shape() == shape@,
            view.spec_base_strides() == strides@,
            view.spec_mapping() == identity_map(shape@, strides@),
    {
        let mapping = CoordinateMap::identity(shape.clone(), strides.as_slice());
        TensorView { base, base_shape: shape, base_strides: strides, layout, mapping }
    }

    pub fn base(&self) -> (base: &B)
        ensures
            *base == self.spec_base(),
    {
        &self.base
    }

    /// The offset in the tensor of the element at a coordinate.
    pub fn flat_offset(&self, coord: &[u64]) -> (result: Result<i128>)
        requires
            self.inv(),
        ensures
            result is Ok <==> offset_fits(self.spec_mapping(), coord@),
            result matches Ok(offset) ==> offset == offset_at(self.spec_mapping(), coord@)
                && self.places(coord@) == seq![offset as int],
            result matches Err(error) ==> error is InvalidCoord,
    {
        self.mapping.flat_offset(coord)
    }

    /// The map from the coordinates of the view to offsets in the tensor.
    pub fn mapping(&self) -> (mapping: &CoordinateMap)
        ensures
            mapping@ == self.spec_mapping(),
            self.inv() ==> mapping.wf(),
    {
        &self.mapping
    }

    /// The coordinate in the tensor of the element at a coordinate of the view.
    pub fn resolve_base_coord(&self, coord: &[u64]) -> (result: Result<Vec<u64>>)
        requires
            self.inv(),
        ensures
            result is Ok <==> resolves(
                self.spec_mapping(),
                coord@,
                self.spec_base_shape(),
                self.spec_base_strides(),
            ),
            result matches Ok(base) ==> base@ == unravel(
                offset_at(self.spec_mapping(), coord@),
                self.spec_base_shape(),
                self.spec_base_strides(),
            ),
            result matches Err(error) ==> error is InvalidCoord,
    {
        self.mapping.resolve(coord, self.base_shape.as_slice(), self.base_strides.as_slice())
    }

    /// The coordinate in the tensor to write to. A view that shows elements more than once, or
    /// through a table, is not written to.
    pub fn write_target(&self, coord: &[u64]) -> (result: Result<Vec<u64>>)
        requires
            self.inv(),
        ensures
            result is Ok <==> self.spec_writes_through() && resolves(
                self.spec_mapping(),
                coord@,
                self.spec_base_shape(),
                self.spec_base_strides(),
            ),
            result matches Ok(base) ==> base@ == unravel(
                offset_at(self.spec_mapping(), coord@),
                self.spec_base_shape(),
                self.spec_base_strides(),
            ),
            (result matches Err(Error::Unsupported(_))) <==> !self.spec_writes_through(),
            result matches Err(error) ==> error is Unsupported || error is InvalidCoord,
    {
        if !self.supports_write_through() {
            return Err(
                Error::Unsupported(
                    "this view does not support write-through to the base tensor".to_string(),
                ),
            );
        }
        self.resolve_base_coord(coord)
    }
}

impl<B: Copy> Clone for TensorView<B> {
    fn clone(&self) -> (view: Self)
        ensures
            view.spec_base() == self.spec_base(),
            view.spec_base_shape() == self.spec_base_shape(),
            view.spec_base_strides() == self.spec_base_strides(),
            view.spec_layout() == self.spec_layout(),
            view.spec_mapping() == self.spec_mapping(),
            self.inv() ==> view.inv(),
    {
        TensorView {
            base: self.base,
            base_shape: self.base_shape.clone(),
            base_strides: self.base_strides.clone(),
            layout: self.layout,
            mapping: self.mapping.clone(),
        }
    }
}

impl<B> TensorGeometry for TensorView<B> {
    open spec fn spec_shape(&self) -> Seq<u64> {
        self.spec_mapping().shape
    }

    closed spec fn spec_layout(&self) -> Layout {
        self.layout
    }

    fn shape(&self) -> (shape: &[u64]) {
        self.mapping.shape.as_slice()
    }

    fn layout(&self) -> (layout: Layout) {
        self.layout
    }
}

impl<B> TensorViewSemantics for TensorView<B> {
    open spec fn spec_is_base(&self) -> bool {
        let map = self.spec_mapping();
        map.base == 0 && map.shape == self.spec_base_shape() && contiguous(map)
    }

    open spec fn spec_writes_through(&self) -> bool {
        !has_no_stride(self.spec_mapping())
    }

    fn is_base_tensor(&self) -> (base: bool) {
        self.mapping.base_offset == 0 && same_dims(
            self.mapping.shape.as_slice(),
            self.base_shape.as_slice(),
        ) && self.mapping.is_c_contiguous()
    }

    fn supports_write_through(&self) -> (writes: bool) {
        let ghost map = self.mapping@;
        let mut i: usize = 0;
        while i < self.mapping.axes.len()
            invariant
                i <= self.mapping.axes.len(),
                map == self.mapping@,
                forall|j: int| 0 <= j < i ==> (#[trigger] map.axes[j]) is Stride,
            decreases self.mapping.axes.len() - i,
        {
            match &self.mapping.axes[i] {
                AxisContrib::Stride(_) => {
                    assert(map.axes[i as int] is Stride);
                },
                _ => {
                    assert(!(map.axes[i as int] is Stride));
                    return false;
                },
            }
            i += 1;
        }
        true
    }
}

impl<B> TensorTransform for TensorView<B> {
    closed spec fn inv(&self) -> bool {
        self.wf()
    }

    open spec fn places(&self, coord: Seq<u64>) -> Seq<int> {
        seq![offset_at(self.spec_mapping(), coord)]
    }

    open spec fn is_contiguous(&self) -> bool {
        contiguous(self.spec_mapping())
    }

    open spec fn room(&self, n: int) -> bool {
        map_room(self.spec_mapping(), n)
    }

    open spec fn flips_in_range(&self, axis: int) -> bool {
        flip_fits(self.spec_mapping(), axis)
    }

    open spec fn slices_in_range(&self, range: Seq<Bound>) -> bool {
        slice_fits(self.spec_mapping(), range)
    }

    open spec fn squeezes_in_range(&self, axes: Seq<usize>) -> bool {
        squeeze_base_fits(self.spec_mapping(), axes)
    }

    proof fn lemma_in_range(&self, n: int) {
        assert(self.mapping.axes.len() == self.mapping@.axes.len());
        transforms_stay_in_range(self.mapping@, n);
    }

    fn reshape(self, shape: Shape) -> (result: Result<Self>)
        ensures
            result matches Ok(view) ==> view.same_source(&self) && view.spec_mapping()
                == reshaped(self.spec_mapping(), shape@),
    {
        let ghost map = self.mapping@;
        let mapping = self.mapping.reshape(shape)?;
        proof {
            lemma_reshape_places(map, shape@);
        }
        Ok(
            Self {
                base: self.base,
                base_shape: self.base_shape,
                base_strides: self.base_strides,
                layout: self.layout,
                mapping,
            },
        )
    }

    fn broadcast(self, shape: Shape) -> (result: Result<Self>)
        ensures
            result matches Ok(view) ==> view.same_source(&self) && view.spec_mapping()
                == broadcasted(self.spec_mapping(), shape@),
    {
        let ghost map = self.mapping@;
        let mapping = self.mapping.broadcast(shape)?;
        proof {
            lemma_broadcast_places(map, shape@);
        }
        Ok(
            Self {
                base: self.base,
                base_shape: self.base_shape,
                base_strides: self.base_strides,
                layout: self.layout,
                mapping,
            },
        )
    }

    fn flip(self, axis: usize) -> (result: Result<Self>)
        ensures
            result matches Ok(view) ==> view.same_source(&self) && view.spec_mapping()
                == flipped(self.spec_mapping(), axis as int),
    {
        let ghost map = self.mapping@;
        let mapping = self.mapping.flip(axis)?;
        proof {
            lemma_flip_places(map, axis as int);
        }
        Ok(
            Self {
                base: self.base,
                base_shape: self.base_shape,
                base_strides: self.base_strides,
                layout: self.layout,
                mapping,
            },
        )
    }

    fn slice(self, range: Range) -> (result: Result<Self>)
        ensures
            result matches Ok(view) ==> view.same_source(&self) && view.spec_mapping()
                == sliced(self.spec_mapping(), range@),
    {
        let ghost map = self.mapping@;
        let mapping = self.mapping.slice(range)?;
        proof {
            lemma_slice_places(map, range@);
        }
        Ok(
            Self {
                base: self.base,
                base_shape: self.base_shape,
                base_strides: self.base_strides,
                layout: self.layout,
                mapping,
            },
        )
    }

    fn squeeze(self, axes: Axes) -> (result: Result<Self>)
        ensures
            result matches Ok(view) ==> view.same_source(&self) && view.spec_mapping()
                == squeezed(self.spec_mapping(), axes@),
    {
        let ghost map = self.mapping@;
        let rank: usize = self.mapping.shape.len();
        let mapping = self.mapping.squeeze(axes)?;
        proof {
            assert(rank == map.shape.len());
            lemma_squeeze_places(map, axes@);
        }
        Ok(
            Self {
                base: self.base,
                base_shape: self.base_shape,
                base_strides: self.base_strides,
                layout: self.layout,
                mapping,
            },
        )
    }

    fn transpose(self, permutation: Option<Axes>) -> (result: Result<Self>)
        ensures
            result matches Ok(view) ==> view.same_source(&self) && view.spec_mapping()
                == transposed(
                    self.spec_mapping(),
                    chosen_permutation(permutation, self.spec_shape().len()),
                ),
    {
        let ghost map = self.mapping@;
        let rank: usize = self.mapping.shape.len();
        let mapping = self.mapping.transpose(permutation)?;
        proof {
            assert(rank == map.shape.len());
            lemma_transpose_places(map, chosen_permutation(permutation, map.shape.len()));
        }
        Ok(
            Self {
                base: self.base,
                base_shape: self.base_shape,
                base_strides: self.base_strides,
                layout: self.layout,
                mapping,
            },
        )
    }

    fn unsqueeze(self, axes: Axes) -> (result: Result<Self>)
        ensures
            result matches Ok(view) ==> view.same_source(&self) && view.spec_mapping()
                == unsqueezed(self.spec_mapping(), axes@),
    {
        let ghost map = self.mapping@;
        let mapping = self.mapping.unsqueeze(axes)?;
        proof {
            lemma_unsqueeze_places(map, axes@);
        }
        Ok(
            Self {
                base: self.base,
                base_shape: self.base_shape,
                base_strides: self.base_strides,
                layout: self.layout,
                mapping,
            },
        )
    }
}

} // verus!
