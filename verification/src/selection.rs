//! Conditional selection over three sources.

use vstd::prelude::*;
use vstd::string::StringExecFns;
use crate::binary::joint_layout;
use crate::element::{selected, TensorElement};
use crate::error::{Error, Result};
use crate::expression::{
    batch_fits, EvaluatedBatch, has_no_support, joined, mask_of, masked_values, union_support,
};
use crate::inline::{Axes, Bound, copy_order, Range, Shape};
use crate::schema::Layout;
use crate::traits::{TensorGeometry, TensorTransform, TensorViewSemantics};
use crate::validate::{list_dims, same_dims};

verus! {

/// A read-only selection: where the condition is zero the element of `or_else`, elsewhere that of
/// `taken`. Both branches are read wherever the condition is.
#[derive(Clone, Debug)]
pub struct WhereView<Condition, Then, Else> {
    condition: Condition,
    taken: Then,
    or_else: Else,
}

/// A batch of a selection: supported where any of the three batches is, with what the condition
/// selects there and zero elsewhere.
pub open spec fn is_selected_batch<T: TensorElement>(
    condition: (Seq<u8>, Option<Seq<u8>>),
    taken: (Seq<T>, Option<Seq<u8>>),
    or_else: (Seq<T>, Option<Seq<u8>>),
    batch: (Seq<T>, Option<Seq<u8>>),
) -> bool {
    &&& batch.1 == joined(condition.1, joined(taken.1, or_else.1))
    &&& batch.0 == masked_values(selected(condition.0, taken.0, or_else.0), batch.1)
}

impl<C, L, R> WhereView<C, L, R> {
    pub closed spec fn spec_condition(&self) -> C {
        self.condition
    }

    pub closed spec fn spec_taken(&self) -> L {
        self.taken
    }

    pub closed spec fn spec_or_else(&self) -> R {
        self.or_else
    }

    pub fn condition(&self) -> (condition: &C)
        ensures
            *condition == self.spec_condition(),
    {
        &self.condition
    }

    pub fn taken(&self) -> (taken: &L)
        ensures
            *taken == self.spec_taken(),
    {
        &self.taken
    }

    pub fn or_else(&self) -> (or_else: &R)
        ensures
            *or_else == self.spec_or_else(),
    {
        &self.or_else
    }

    /// The batch of the view for batches of its sources. An element has support where it has in
    /// any source.
    pub fn build<T: TensorElement>(
        &self,
        expected: usize,
        condition: EvaluatedBatch<u8>,
        taken: EvaluatedBatch<T>,
        or_else: EvaluatedBatch<T>,
    ) -> (result: Result<EvaluatedBatch<T>>)
        ensures
            result is Ok <==> batch_fits(
                condition.values@,
                mask_of(condition.support),
                expected as int,
            ) && batch_fits(taken.values@, mask_of(taken.support), expected as int) && batch_fits(
                or_else.values@,
                mask_of(or_else.support),
                expected as int,
            ),
            result matches Ok(batch) ==> batch.values@.len() == expected && is_selected_batch(
                (condition.values@, mask_of(condition.support)),
                (taken.values@, mask_of(taken.support)),
                (or_else.values@, mask_of(or_else.support)),
                (batch.values@, mask_of(batch.support)),
            ),
            result matches Ok(batch) ==> forall|i: int|
                #![trigger batch.values@[i]]
                0 <= i < expected ==> {
                    &&& has_no_support(batch.support, i) ==> batch.values@[i] == T::spec_zero()
                    &&& !has_no_support(batch.support, i) && condition.values@[i] != 0
                        ==> batch.values@[i] == taken.values@[i]
                    &&& !has_no_support(batch.support, i) && condition.values@[i] == 0
                        ==> batch.values@[i] == or_else.values@[i]
                },
            result matches Err(error) ==> error is InvalidLayout,
    {
        condition.validate(expected)?;
        taken.validate(expected)?;
        or_else.validate(expected)?;
        let branches = union_support(taken.support, or_else.support)?;
        let support = union_support(condition.support, branches)?;
        let values = T::select(condition.values, taken.values, or_else.values)?;
        EvaluatedBatch { values, support }.masked()
    }
}

impl<C: TensorGeometry, L: TensorGeometry, R: TensorGeometry> WhereView<C, L, R> {
    /// A selection over three sources, which have one shape.
    pub fn new(condition: C, taken: L, or_else: R) -> (result: Result<Self>)
        ensures
            result is Ok <==> condition.spec_shape() == taken.spec_shape()
                && condition.spec_shape() == or_else.spec_shape(),
            result matches Ok(view) ==> view.spec_condition() == condition && view.spec_taken()
                == taken && view.spec_or_else() == or_else,
            result matches Err(error) ==> error is InvalidSchema,
    {
        if !same_dims(condition.shape(), taken.shape()) || !same_dims(
            condition.shape(),
            or_else.shape(),
        ) {
            return Err(
                Error::InvalidSchema(
                    "conditional operand shapes differ: ".to_string().concat(
                        list_dims(condition.shape()).as_str(),
                    ).concat(", ").concat(list_dims(taken.shape()).as_str()).concat(", ").concat(
                        list_dims(or_else.shape()).as_str(),
                    ),
                ),
            );
        }
        Ok(WhereView { condition, taken, or_else })
    }
}

impl<C: TensorGeometry, L: TensorGeometry, R: TensorGeometry> TensorGeometry for WhereView<
    C,
    L,
    R,
> {
    open spec fn spec_shape(&self) -> Seq<u64> {
        self.spec_condition().spec_shape()
    }

    open spec fn spec_layout(&self) -> Layout {
        joint_layout(
            self.spec_condition().spec_layout(),
            joint_layout(self.spec_taken().spec_layout(), self.spec_or_else().spec_layout()),
        )
    }

    fn shape(&self) -> (shape: &[u64]) {
        self.condition.shape()
    }

    fn layout(&self) -> (layout: Layout) {
        match (self.condition.layout(), self.taken.layout(), self.or_else.layout()) {
            (Layout::Sparse { .. }, Layout::Sparse { .. }, Layout::Sparse { .. }) => {
                Layout::Sparse { axis: None }
            },
            _ => Layout::Dense,
        }
    }
}

impl<C: TensorGeometry, L: TensorGeometry, R: TensorGeometry> TensorViewSemantics for WhereView<
    C,
    L,
    R,
> {
    open spec fn spec_is_base(&self) -> bool {
        false
    }

    open spec fn spec_writes_through(&self) -> bool {
        false
    }

    fn is_base_tensor(&self) -> (base: bool) {
        false
    }

    fn supports_write_through(&self) -> (writes: bool) {
        false
    }
}

impl<C: TensorTransform, L: TensorTransform, R: TensorTransform> TensorTransform for WhereView<
    C,
    L,
    R,
> {
    open spec fn inv(&self) -> bool {
        &&& self.spec_condition().inv()
        &&& self.spec_taken().inv()
        &&& self.spec_or_else().inv()
        &&& self.spec_condition().spec_shape() == self.spec_taken().spec_shape()
        &&& self.spec_condition().spec_shape() == self.spec_or_else().spec_shape()
    }

    open spec fn places(&self, coord: Seq<u64>) -> Seq<int> {
        self.spec_condition().places(coord) + self.spec_taken().places(coord)
            + self.spec_or_else().places(coord)
    }

    open spec fn is_contiguous(&self) -> bool {
        self.spec_condition().is_contiguous() && self.spec_taken().is_contiguous()
            && self.spec_or_else().is_contiguous()
    }

    open spec fn room(&self, n: int) -> bool {
        &&& self.spec_condition().room(n)
        &&& self.spec_taken().room(n)
        &&& self.spec_or_else().room(n)
    }

    open spec fn flips_in_range(&self, axis: int) -> bool {
        &&& self.spec_condition().flips_in_range(axis)
        &&& self.spec_taken().flips_in_range(axis)
        &&& self.spec_or_else().flips_in_range(axis)
    }

    open spec fn slices_in_range(&self, range: Seq<Bound>) -> bool {
        &&& self.spec_condition().slices_in_range(range)
        &&& self.spec_taken().slices_in_range(range)
        &&& self.spec_or_else().slices_in_range(range)
    }

    open spec fn squeezes_in_range(&self, axes: Seq<usize>) -> bool {
        &&& self.spec_condition().squeezes_in_range(axes)
        &&& self.spec_taken().squeezes_in_range(axes)
        &&& self.spec_or_else().squeezes_in_range(axes)
    }

    proof fn lemma_in_range(&self, n: int) {
        self.condition.lemma_in_range(n);
        self.taken.lemma_in_range(n);
        self.or_else.lemma_in_range(n);
    }

    fn reshape(self, shape: Shape) -> (result: Result<Self>) {
        let condition = self.condition.reshape(shape.clone())?;
        let taken = self.taken.reshape(shape.clone())?;
        let or_else = self.or_else.reshape(shape)?;
        Ok(Self { condition, taken, or_else })
    }

    fn broadcast(self, shape: Shape) -> (result: Result<Self>) {
        let condition = self.condition.broadcast(shape.clone())?;
        let taken = self.taken.broadcast(shape.clone())?;
        let or_else = self.or_else.broadcast(shape)?;
        Ok(Self { condition, taken, or_else })
    }

    fn flip(self, axis: usize) -> (result: Result<Self>) {
        let condition = self.condition.flip(axis)?;
        let taken = self.taken.flip(axis)?;
        let or_else = self.or_else.flip(axis)?;
        Ok(Self { condition, taken, or_else })
    }

    fn slice(self, range: Range) -> (result: Result<Self>) {
        let condition = self.condition.slice(range.clone())?;
        let taken = self.taken.slice(range.clone())?;
        let or_else = self.or_else.slice(range)?;
        Ok(Self { condition, taken, or_else })
    }

    fn squeeze(self, axes: Axes) -> (result: Result<Self>) {
        let condition = self.condition.squeeze(axes.clone())?;
        let taken = self.taken.squeeze(axes.clone())?;
        let or_else = self.or_else.squeeze(axes)?;
        Ok(Self { condition, taken, or_else })
    }

    fn transpose(self, permutation: Option<Axes>) -> (result: Result<Self>) {
        let condition = self.condition.transpose(copy_order(&permutation))?;
        let taken = self.taken.transpose(copy_order(&permutation))?;
        let or_else = self.or_else.transpose(permutation)?;
        Ok(Self { condition, taken, or_else })
    }

    fn unsqueeze(self, axes: Axes) -> (result: Result<Self>) {
        let condition = self.condition.unsqueeze(axes.clone())?;
        let taken = self.taken.unsqueeze(axes.clone())?;
        let or_else = self.or_else.unsqueeze(axes)?;
        Ok(Self { condition, taken, or_else })
    }
}

} // verus!
