//! What tensors and their views have in common.

use vstd::prelude::*;
use crate::error::{Error, Result};
use crate::geometry::{in_box, volume};
use crate::inline::{Axes, Bound, Range, Shape};
use crate::mapping::{
    broadcast_fits, chosen_permutation, distinct_axes, is_permutation, kept, marks, slice_nonempty,
    slice_shape, squeeze_fits, unsqueezed_shape,
};
use crate::room::{sliced_room, squeezed_room, steps_at_most};
use crate::schema::{checked_product, Layout, product_fits, valid_dims};
use crate::transform::{mirrored, permuted_shape, regrouped, unpermuted};
use crate::transform_laws::{expand, narrow, unspread, widen};
use crate::validate::range_fits;

verus! {

/// The shape and the layout of a tensor or a view.
pub trait TensorGeometry {
    spec fn spec_shape(&self) -> Seq<u64>;

    spec fn spec_layout(&self) -> Layout;

    fn shape(&self) -> (shape: &[u64])
        ensures
            shape@ == self.spec_shape(),
    ;

    fn layout(&self) -> (layout: Layout)
        ensures
            layout == self.spec_layout(),
    ;

    fn ndim(&self) -> (rank: usize)
        ensures
            rank == self.spec_shape().len(),
    {
        self.shape().len()
    }

    /// How many elements there are, if a machine can count them.
    fn size(&self) -> (result: Result<u64>)
        ensures
            result is Ok <==> product_fits(self.spec_shape()),
            result matches Ok(size) ==> size == volume(self.spec_shape()),
            result matches Err(error) ==> error is InvalidSchema,
    {
        checked_product(self.shape())
    }
}

/// What a view is allowed to do with the tensor under it.
pub trait TensorViewSemantics: TensorGeometry {
    /// The view shows the tensor under it as it is.
    spec fn spec_is_base(&self) -> bool;

    /// Writing to the view is writing to the tensor under it.
    spec fn spec_writes_through(&self) -> bool;

    fn is_base_tensor(&self) -> (base: bool)
        ensures
            base == self.spec_is_base(),
    ;

    fn supports_write_through(&self) -> (writes: bool)
        ensures
            writes == self.spec_writes_through(),
    ;
}

/// Views that change how elements are addressed, and not the elements.
///
/// `places` says where the element at a coordinate comes from: one offset for each tensor, or each
/// computed result, that the view takes it from. Every transform is stated by it: at each
/// coordinate the new view has the places that the old one has at a coordinate that the transform
/// determines.
pub trait TensorTransform: TensorGeometry + Sized {
    /// The view is in good order.
    spec fn inv(&self) -> bool;

    spec fn places(&self, coord: Seq<u64>) -> Seq<int>;

    /// Consecutive positions of the view are consecutive places.
    spec fn is_contiguous(&self) -> bool;

    /// Every number that goes into a place lies within `n` of zero.
    spec fn room(&self, n: int) -> bool;

    /// Flipping the axis stays within the range of offsets.
    spec fn flips_in_range(&self, axis: int) -> bool;

    /// Slicing stays within the range of offsets.
    spec fn slices_in_range(&self, range: Seq<Bound>) -> bool;

    /// Squeezing stays within the range of offsets.
    spec fn squeezes_in_range(&self, axes: Seq<usize>) -> bool;

    /// Transforms stay within the range of offsets as long as the room of their results does.
    proof fn lemma_in_range(&self, n: int)
        requires
            self.inv(),
            self.room(n),
        ensures
            2 * n <= i128::MAX ==> forall|axis: int|
                0 <= axis < self.spec_shape().len() ==> #[trigger] self.flips_in_range(axis),
            forall|range: Seq<Bound>, m: int|
                #![trigger self.slices_in_range(range), steps_at_most(range, m)]
                m >= 0 && steps_at_most(range, m) && sliced_room(n, self.spec_shape().len(), m)
                    <= i128::MAX ==> self.slices_in_range(range),
            squeezed_room(n, self.spec_shape().len()) <= i128::MAX ==> forall|axes: Seq<usize>|
                squeeze_fits(self.spec_shape(), axes) ==> #[trigger] self.squeezes_in_range(axes),
    ;

    /// The same elements in the same order, under another shape.
    fn reshape(self, shape: Shape) -> (result: Result<Self>)
        requires
            self.inv(),
            product_fits(self.spec_shape()),
            product_fits(shape@),
        ensures
            result is Ok <==> volume(shape@) == volume(self.spec_shape()) && self.is_contiguous()
                && valid_dims(shape@),
            result matches Ok(view) ==> {
                &&& view.inv()
                &&& view.spec_shape() == shape@
                &&& view.spec_layout() == self.spec_layout()
                &&& forall|coord: Seq<u64>| #[trigger]
                    in_box(coord, shape@) ==> view.places(coord) == self.places(
                        regrouped(self.spec_shape(), shape@, coord),
                    )
                &&& forall|n: int| #[trigger]
                    self.room(n) && volume(shape@) <= n ==> view.room(n)
            },
            (result matches Err(Error::InvalidLayout(_))) <==> volume(shape@) != volume(
                self.spec_shape(),
            ),
            (result matches Err(Error::Unsupported(_))) ==> volume(shape@) == volume(
                self.spec_shape(),
            ) && !self.is_contiguous(),
            volume(shape@) == volume(self.spec_shape()) && !self.is_contiguous() && valid_dims(
                shape@,
            ) ==> result matches Err(Error::Unsupported(_)),
            result matches Err(error) ==> error is InvalidLayout || error is Unsupported
                || error is InvalidSchema,
    ;

    /// The elements repeated over a larger shape.
    fn broadcast(self, shape: Shape) -> (result: Result<Self>)
        requires
            self.inv(),
        ensures
            result is Ok <==> broadcast_fits(self.spec_shape(), shape@),
            result matches Ok(view) ==> {
                &&& view.inv()
                &&& view.spec_shape() == shape@
                &&& view.spec_layout() == self.spec_layout()
                &&& forall|coord: Seq<u64>| #[trigger]
                    in_box(coord, shape@) ==> view.places(coord) == self.places(
                        unspread(self.spec_shape(), coord),
                    )
                &&& forall|n: int| #[trigger] self.room(n) ==> view.room(n)
            },
            result matches Err(error) ==> error is InvalidLayout,
    ;

    /// An axis counted from its other end.
    fn flip(self, axis: usize) -> (result: Result<Self>)
        requires
            self.inv(),
            axis < self.spec_shape().len() ==> self.flips_in_range(axis as int),
        ensures
            result is Ok <==> axis < self.spec_shape().len(),
            result matches Ok(view) ==> {
                &&& view.inv()
                &&& view.spec_shape() == self.spec_shape()
                &&& view.spec_layout() == self.spec_layout()
                &&& forall|coord: Seq<u64>| #[trigger]
                    in_box(coord, self.spec_shape()) ==> view.places(coord) == self.places(
                        mirrored(self.spec_shape(), axis as int, coord),
                    )
                &&& forall|n: int| #[trigger] self.room(n) ==> view.room(2 * n)
            },
            result matches Err(error) ==> error is InvalidLayout,
    ;

    /// The elements that a range selects. A bound on a single index removes its axis.
    fn slice(self, range: Range) -> (result: Result<Self>)
        requires
            self.inv(),
            self.slices_in_range(range@),
        ensures
            result is Ok <==> range_fits(range@, self.spec_shape()) && slice_nonempty(range@),
            result matches Ok(view) ==> {
                &&& view.inv()
                &&& view.spec_shape() == slice_shape(range@)
                &&& view.spec_layout() == self.spec_layout()
                &&& forall|coord: Seq<u64>| #[trigger]
                    in_box(coord, slice_shape(range@)) ==> view.places(coord) == self.places(
                        expand(range@, coord),
                    )
                &&& forall|n: int, m: int|
                    #![trigger self.room(n), steps_at_most(range@, m)]
                    self.room(n) && m >= 0 && steps_at_most(range@, m) && sliced_room(
                        n,
                        self.spec_shape().len(),
                        m,
                    ) <= i128::MAX ==> view.room(sliced_room(n, self.spec_shape().len(), m))
            },
            result matches Err(error) ==> error is InvalidLayout,
    ;

    /// Some axes of a single index removed.
    fn squeeze(self, axes: Axes) -> (result: Result<Self>)
        requires
            self.inv(),
            squeeze_fits(self.spec_shape(), axes@) ==> self.squeezes_in_range(axes@),
        ensures
            result is Ok <==> squeeze_fits(self.spec_shape(), axes@),
            result matches Ok(view) ==> {
                let dropped = marks(self.spec_shape().len(), axes@);
                &&& view.inv()
                &&& view.spec_shape() == kept(self.spec_shape(), dropped)
                &&& view.spec_layout() == self.spec_layout()
                &&& forall|coord: Seq<u64>| #[trigger]
                    in_box(coord, kept(self.spec_shape(), dropped)) ==> view.places(coord)
                        == self.places(widen(dropped, coord))
                &&& forall|n: int| #[trigger]
                    self.room(n) ==> view.room(squeezed_room(n, self.spec_shape().len()))
            },
            result matches Err(error) ==> error is InvalidLayout,
    ;

    /// The axes in another order; without one, in reverse.
    fn transpose(self, permutation: Option<Axes>) -> (result: Result<Self>)
        requires
            self.inv(),
        ensures
            result is Ok <==> is_permutation(
                chosen_permutation(permutation, self.spec_shape().len()),
                self.spec_shape().len(),
            ),
            result matches Ok(view) ==> {
                let order = chosen_permutation(permutation, self.spec_shape().len());
                &&& view.inv()
                &&& view.spec_shape() == permuted_shape(order, self.spec_shape())
                &&& view.spec_layout() == self.spec_layout()
                &&& forall|coord: Seq<u64>| #[trigger]
                    in_box(coord, permuted_shape(order, self.spec_shape())) ==> view.places(coord)
                        == self.places(unpermuted(order, coord))
                &&& forall|n: int| #[trigger] self.room(n) ==> view.room(n)
            },
            result matches Err(error) ==> error is InvalidLayout,
    ;

    /// Axes of a single index put before the named ones.
    fn unsqueeze(self, axes: Axes) -> (result: Result<Self>)
        requires
            self.inv(),
        ensures
            result is Ok <==> {
                let shape = unsqueezed_shape(self.spec_shape(), axes@);
                &&& axes@.len() > 0
                &&& distinct_axes(self.spec_shape().len(), axes@)
                &&& valid_dims(shape)
                &&& volume(shape.skip(1)) <= u64::MAX
            },
            result matches Ok(view) ==> {
                let shape = unsqueezed_shape(self.spec_shape(), axes@);
                let inserted = marks(self.spec_shape().len(), axes@);
                &&& view.inv()
                &&& view.spec_shape() == shape
                &&& view.spec_layout() == self.spec_layout()
                &&& forall|coord: Seq<u64>| #[trigger]
                    in_box(coord, shape) ==> view.places(coord) == self.places(
                        narrow(inserted, coord),
                    )
                &&& forall|n: int| #[trigger] self.room(n) && volume(shape) <= n ==> view.room(n)
                &&& self.is_contiguous() ==> view.is_contiguous()
            },
            (result matches Err(Error::InvalidLayout(_))) <==> !(axes@.len() > 0 && distinct_axes(
                self.spec_shape().len(),
                axes@,
            )),
            result matches Err(error) ==> error is InvalidLayout || error is InvalidSchema,
    ;
}

} // verus!
