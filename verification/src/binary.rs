//! Elementwise expressions over two sources.

use vstd::prelude::*;
use vstd::string::StringExecFns;
use crate::backend::{
    add_bytes, and_bytes, div_bytes, eq_bytes, flag, ge_bytes, gt_bytes, le_bytes, lt_bytes,
    mul_bytes, ne_bytes, or_bytes, power, quotient, raise_bytes, remainder, remainders, sub_bytes,
    wrapped, xor_bytes, zipped,
};
use crate::element::TensorElement;
use crate::error::{Error, Result};
use crate::expression::{
    batch_fits, EvaluatedBatch, has_no_support, joined, mask_of, masked_values, union_support,
    union_supports_what_either_side_supports,
};
use crate::inline::{Axes, Bound, copy_order, Range, Shape};
use crate::schema::Layout;
use crate::traits::{TensorGeometry, TensorTransform, TensorViewSemantics};
use crate::validate::{list_dims, same_dims};

verus! {

/// Operations that this library knows.
pub trait Sealed {

}

/// An operation on each pair of elements of two batches.
pub trait BinaryOp<T>: Sealed {
    type Output;

    /// What the operation gives. Where an operation does not say, it is left open.
    open spec fn is_result(&self, left: Seq<T>, right: Seq<T>, out: Seq<Self::Output>) -> bool {
        true
    }

    fn apply(&self, left: Vec<T>, right: Vec<T>) -> (result: Result<Vec<Self::Output>>)
        requires
            left@.len() == right@.len(),
        ensures
            result is Ok,
            result matches Ok(out) ==> out@.len() == left@.len() && self.is_result(
                left@,
                right@,
                out@,
            ),
    ;
}

/// The sum of each pair.
#[derive(Clone, Copy, Debug)]
pub struct Add;

impl Sealed for Add {

}

impl BinaryOp<u8> for Add {
    type Output = u8;

    open spec fn is_result(&self, left: Seq<u8>, right: Seq<u8>, out: Seq<u8>) -> bool {
        out == zipped(left, right, |a: u8, b: u8| wrapped(a + b))
    }

    fn apply(&self, left: Vec<u8>, right: Vec<u8>) -> (result: Result<Vec<u8>>) {
        match add_bytes(left, right) {
            Ok(out) => Ok(out),
            Err(error) => Err(Error::Nd(error)),
        }
    }
}

/// The difference of each pair.
#[derive(Clone, Copy, Debug)]
pub struct Sub;

impl Sealed for Sub {

}

impl BinaryOp<u8> for Sub {
    type Output = u8;

    open spec fn is_result(&self, left: Seq<u8>, right: Seq<u8>, out: Seq<u8>) -> bool {
        out == zipped(left, right, |a: u8, b: u8| wrapped(a - b))
    }

    fn apply(&self, left: Vec<u8>, right: Vec<u8>) -> (result: Result<Vec<u8>>) {
        match sub_bytes(left, right) {
            Ok(out) => Ok(out),
            Err(error) => Err(Error::Nd(error)),
        }
    }
}

/// The product of each pair.
#[derive(Clone, Copy, Debug)]
pub struct Mul;

impl Sealed for Mul {

}

impl BinaryOp<u8> for Mul {
    type Output = u8;

    open spec fn is_result(&self, left: Seq<u8>, right: Seq<u8>, out: Seq<u8>) -> bool {
        out == zipped(left, right, |a: u8, b: u8| wrapped(a * b))
    }

    fn apply(&self, left: Vec<u8>, right: Vec<u8>) -> (result: Result<Vec<u8>>) {
        match mul_bytes(left, right) {
            Ok(out) => Ok(out),
            Err(error) => Err(Error::Nd(error)),
        }
    }
}

/// The quotient of each pair, which is zero for a zero divisor.
#[derive(Clone, Copy, Debug)]
pub struct Div;

impl Sealed for Div {

}

impl BinaryOp<u8> for Div {
    type Output = u8;

    open spec fn is_result(&self, left: Seq<u8>, right: Seq<u8>, out: Seq<u8>) -> bool {
        out == zipped(left, right, |a: u8, b: u8| quotient(a, b))
    }

    fn apply(&self, left: Vec<u8>, right: Vec<u8>) -> (result: Result<Vec<u8>>) {
        match div_bytes(left, right) {
            Ok(out) => Ok(out),
            Err(error) => Err(Error::Nd(error)),
        }
    }
}

/// The left element of each pair raised to the power of the right one, wrapped around.
#[derive(Clone, Copy, Debug)]
pub struct Pow;

impl Sealed for Pow {

}

impl BinaryOp<u8> for Pow {
    type Output = u8;

    open spec fn is_result(&self, left: Seq<u8>, right: Seq<u8>, out: Seq<u8>) -> bool {
        out == zipped(left, right, |a: u8, b: u8| wrapped(power(a, b)))
    }

    fn apply(&self, left: Vec<u8>, right: Vec<u8>) -> (result: Result<Vec<u8>>) {
        Ok(raise_bytes(left, right))
    }
}

/// The remainder of each pair, which is zero for a zero divisor.
#[derive(Clone, Copy, Debug)]
pub struct Rem;

impl Sealed for Rem {

}

impl BinaryOp<u8> for Rem {
    type Output = u8;

    open spec fn is_result(&self, left: Seq<u8>, right: Seq<u8>, out: Seq<u8>) -> bool {
        out == zipped(left, right, |a: u8, b: u8| remainder(a, b))
    }

    fn apply(&self, left: Vec<u8>, right: Vec<u8>) -> (result: Result<Vec<u8>>) {
        Ok(remainders(left, right))
    }
}

/// One where a pair is equal, else zero.
#[derive(Clone, Copy, Debug)]
pub struct Eq;

impl Sealed for Eq {

}

impl BinaryOp<u8> for Eq {
    type Output = u8;

    open spec fn is_result(&self, left: Seq<u8>, right: Seq<u8>, out: Seq<u8>) -> bool {
        out == zipped(left, right, |a: u8, b: u8| flag(a == b))
    }

    fn apply(&self, left: Vec<u8>, right: Vec<u8>) -> (result: Result<Vec<u8>>) {
        match eq_bytes(left, right) {
            Ok(out) => Ok(out),
            Err(error) => Err(Error::Nd(error)),
        }
    }
}

/// One where a pair differs, else zero.
#[derive(Clone, Copy, Debug)]
pub struct Ne;

impl Sealed for Ne {

}

impl BinaryOp<u8> for Ne {
    type Output = u8;

    open spec fn is_result(&self, left: Seq<u8>, right: Seq<u8>, out: Seq<u8>) -> bool {
        out == zipped(left, right, |a: u8, b: u8| flag(a != b))
    }

    fn apply(&self, left: Vec<u8>, right: Vec<u8>) -> (result: Result<Vec<u8>>) {
        match ne_bytes(left, right) {
            Ok(out) => Ok(out),
            Err(error) => Err(Error::Nd(error)),
        }
    }
}

/// One where the left element is greater, else zero.
#[derive(Clone, Copy, Debug)]
pub struct Gt;

impl Sealed for Gt {

}

impl BinaryOp<u8> for Gt {
    type Output = u8;

    open spec fn is_result(&self, left: Seq<u8>, right: Seq<u8>, out: Seq<u8>) -> bool {
        out == zipped(left, right, |a: u8, b: u8| flag(a > b))
    }

    fn apply(&self, left: Vec<u8>, right: Vec<u8>) -> (result: Result<Vec<u8>>) {
        match gt_bytes(left, right) {
            Ok(out) => Ok(out),
            Err(error) => Err(Error::Nd(error)),
        }
    }
}

/// One where the left element is not less, else zero.
#[derive(Clone, Copy, Debug)]
pub struct Ge;

impl Sealed for Ge {

}

impl BinaryOp<u8> for Ge {
    type Output = u8;

    open spec fn is_result(&self, left: Seq<u8>, right: Seq<u8>, out: Seq<u8>) -> bool {
        out == zipped(left, right, |a: u8, b: u8| flag(a >= b))
    }

    fn apply(&self, left: Vec<u8>, right: Vec<u8>) -> (result: Result<Vec<u8>>) {
        match ge_bytes(left, right) {
            Ok(out) => Ok(out),
            Err(error) => Err(Error::Nd(error)),
        }
    }
}

/// One where the left element is less, else zero.
#[derive(Clone, Copy, Debug)]
pub struct Lt;

impl Sealed for Lt {

}

impl BinaryOp<u8> for Lt {
    type Output = u8;

    open spec fn is_result(&self, left: Seq<u8>, right: Seq<u8>, out: Seq<u8>) -> bool {
        out == zipped(left, right, |a: u8, b: u8| flag(a < b))
    }

    fn apply(&self, left: Vec<u8>, right: Vec<u8>) -> (result: Result<Vec<u8>>) {
        match lt_bytes(left, right) {
            Ok(out) => Ok(out),
            Err(error) => Err(Error::Nd(error)),
        }
    }
}

/// One where the left element is not greater, else zero.
#[derive(Clone, Copy, Debug)]
pub struct Le;

impl Sealed for Le {

}

impl BinaryOp<u8> for Le {
    type Output = u8;

    open spec fn is_result(&self, left: Seq<u8>, right: Seq<u8>, out: Seq<u8>) -> bool {
        out == zipped(left, right, |a: u8, b: u8| flag(a <= b))
    }

    fn apply(&self, left: Vec<u8>, right: Vec<u8>) -> (result: Result<Vec<u8>>) {
        match le_bytes(left, right) {
            Ok(out) => Ok(out),
            Err(error) => Err(Error::Nd(error)),
        }
    }
}

/// One where neither element is zero, else zero.
#[derive(Clone, Copy, Debug)]
pub struct And;

impl Sealed for And {

}

impl BinaryOp<u8> for And {
    type Output = u8;

    open spec fn is_result(&self, left: Seq<u8>, right: Seq<u8>, out: Seq<u8>) -> bool {
        out == zipped(left, right, |a: u8, b: u8| flag(a != 0 && b != 0))
    }

    fn apply(&self, left: Vec<u8>, right: Vec<u8>) -> (result: Result<Vec<u8>>) {
        match and_bytes(left, right) {
            Ok(out) => Ok(out),
            Err(error) => Err(Error::Nd(error)),
        }
    }
}

/// One where an element is not zero, else zero.
#[derive(Clone, Copy, Debug)]
pub struct Or;

impl Sealed for Or {

}

impl BinaryOp<u8> for Or {
    type Output = u8;

    open spec fn is_result(&self, left: Seq<u8>, right: Seq<u8>, out: Seq<u8>) -> bool {
        out == zipped(left, right, |a: u8, b: u8| flag(a != 0 || b != 0))
    }

    fn apply(&self, left: Vec<u8>, right: Vec<u8>) -> (result: Result<Vec<u8>>) {
        match or_bytes(left, right) {
            Ok(out) => Ok(out),
            Err(error) => Err(Error::Nd(error)),
        }
    }
}

/// One where just one element is not zero, else zero.
#[derive(Clone, Copy, Debug)]
pub struct Xor;

impl Sealed for Xor {

}

impl BinaryOp<u8> for Xor {
    type Output = u8;

    open spec fn is_result(&self, left: Seq<u8>, right: Seq<u8>, out: Seq<u8>) -> bool {
        out == zipped(left, right, |a: u8, b: u8| flag((a != 0) != (b != 0)))
    }

    fn apply(&self, left: Vec<u8>, right: Vec<u8>) -> (result: Result<Vec<u8>>) {
        match xor_bytes(left, right) {
            Ok(out) => Ok(out),
            Err(error) => Err(Error::Nd(error)),
        }
    }
}

/// The logarithm of the left element of each pair to the base of the right one. For
/// floating-point elements.
#[derive(Clone, Copy, Debug)]
pub struct Log;

impl Sealed for Log {

}

/// The layout of an expression over two sources: sparse only where both are.
pub open spec fn joint_layout(left: Layout, right: Layout) -> Layout {
    if left is Sparse && right is Sparse {
        Layout::Sparse { axis: None }
    } else {
        Layout::Dense
    }
}

pub fn join_layouts(left: Layout, right: Layout) -> (layout: Layout)
    ensures
        layout == joint_layout(left, right),
{
    match (left, right) {
        (Layout::Sparse { .. }, Layout::Sparse { .. }) => Layout::Sparse { axis: None },
        _ => Layout::Dense,
    }
}

/// A batch of an operation on two batches: supported where either of them is, with the result of
/// the operation there and zero elsewhere.
pub open spec fn is_binary_batch<T, O: BinaryOp<T>>(
    op: O,
    left: (Seq<T>, Option<Seq<u8>>),
    right: (Seq<T>, Option<Seq<u8>>),
    batch: (Seq<O::Output>, Option<Seq<u8>>),
) -> bool where O::Output: TensorElement {
    &&& batch.1 == joined(left.1, right.1)
    &&& exists|out: Seq<O::Output>| #[trigger]
        op.is_result(left.0, right.0, out) && out.len() == left.0.len() && batch.0 == masked_values(
            out,
            batch.1,
        )
}

/// A read-only view of an operation on two sources of one shape.
#[derive(Clone, Debug)]
pub struct BinaryView<Left, Right, Op> {
    left: Left,
    right: Right,
    op: Op,
}

impl<L, R, O> BinaryView<L, R, O> {
    pub closed spec fn spec_left(&self) -> L {
        self.left
    }

    pub closed spec fn spec_right(&self) -> R {
        self.right
    }

    pub closed spec fn spec_op(&self) -> O {
        self.op
    }

    pub fn left(&self) -> (left: &L)
        ensures
            *left == self.spec_left(),
    {
        &self.left
    }

    pub fn right(&self) -> (right: &R)
        ensures
            *right == self.spec_right(),
    {
        &self.right
    }

    /// The batch of the view for batches of its sources. An element has support where it has in
    /// either source.
    pub fn build<T>(
        &self,
        expected: usize,
        left: EvaluatedBatch<T>,
        right: EvaluatedBatch<T>,
    ) -> (result: Result<EvaluatedBatch<O::Output>>) where O: BinaryOp<T>, O::Output: TensorElement
        ensures
            result is Ok <==> batch_fits(left.values@, mask_of(left.support), expected as int)
                && batch_fits(right.values@, mask_of(right.support), expected as int),
            result matches Ok(batch) ==> batch.values@.len() == expected && is_binary_batch(
                self.spec_op(),
                (left.values@, mask_of(left.support)),
                (right.values@, mask_of(right.support)),
                (batch.values@, mask_of(batch.support)),
            ),
            result matches Ok(batch) ==> forall|i: int|
                0 <= i < expected && #[trigger] has_no_support(batch.support, i)
                    ==> has_no_support(left.support, i) && has_no_support(right.support, i)
                    && batch.values@[i] == O::Output::spec_zero(),
            result matches Err(error) ==> error is InvalidLayout,
    {
        left.validate(expected)?;
        right.validate(expected)?;
        let support = union_support(left.support, right.support)?;
        let values = self.op.apply(left.values, right.values)?;
        assert(self.spec_op().is_result(left.values@, right.values@, values@));
        let batch = EvaluatedBatch { values, support }.masked()?;
        proof {
            let op = self.spec_op();
            let one = (left.values@, mask_of(left.support));
            let other = (right.values@, mask_of(right.support));
            assert(op.is_result(one.0, other.0, values@));
            assert(batch.values@ == masked_values(values@, mask_of(batch.support)));
            assert(is_binary_batch(op, one, other, (batch.values@, mask_of(batch.support))));
            assert forall|i: int| 0 <= i < expected && #[trigger] has_no_support(
                batch.support,
                i,
            ) implies has_no_support(left.support, i) && has_no_support(right.support, i) && batch.values@[i] == O::Output::spec_zero() by {
                union_supports_what_either_side_supports(one.1, other.1, expected as int, i);
            }
        }
        Ok(batch)
    }
}

impl<L: TensorGeometry, R: TensorGeometry, O> BinaryView<L, R, O> {
    /// An operation on two sources, which have one shape.
    pub fn new(left: L, right: R, op: O) -> (result: Result<Self>)
        ensures
            left.spec_shape() == right.spec_shape() ==> result is Ok,
            left.spec_shape() != right.spec_shape() ==> result matches Err(
                Error::InvalidSchema(_),
            ),
            result matches Ok(view) ==> view.spec_left() == left && view.spec_right() == right
                && view.spec_op() == op,
    {
        if !same_dims(left.shape(), right.shape()) {
            return Err(
                Error::InvalidSchema(
                    "binary operand shapes differ: ".to_string().concat(
                        list_dims(left.shape()).as_str(),
                    ).concat(" and ").concat(list_dims(right.shape()).as_str()),
                ),
            );
        }
        Ok(BinaryView { left, right, op })
    }
}

impl<L: TensorGeometry, R: TensorGeometry, O> TensorGeometry for BinaryView<L, R, O> {
    open spec fn spec_shape(&self) -> Seq<u64> {
        self.spec_left().spec_shape()
    }

    open spec fn spec_layout(&self) -> Layout {
        joint_layout(self.spec_left().spec_layout(), self.spec_right().spec_layout())
    }

    fn shape(&self) -> (shape: &[u64]) {
        self.left.shape()
    }

    fn layout(&self) -> (layout: Layout) {
        join_layouts(self.left.layout(), self.right.layout())
    }
}

impl<L: TensorGeometry, R: TensorGeometry, O> TensorViewSemantics for BinaryView<L, R, O> {
    open spec fn spec_is_base(&self) -> bool {
        false
    }

    open spec fn spec_writes_through(&self) -> bool {
        false
    }

    fn is_base_tensor(&self) -> (base: bool) {
        false
    }

    fn supports_write_through(&self) -> (writes: bool) {
        false
    }
}

impl<L: TensorTransform, R: TensorTransform, O> TensorTransform for BinaryView<L, R, O> {
    open spec fn inv(&self) -> bool {
        &&& self.spec_left().inv()
        &&& self.spec_right().inv()
        &&& self.spec_left().spec_shape() == self.spec_right().spec_shape()
    }

    open spec fn places(&self, coord: Seq<u64>) -> Seq<int> {
        self.spec_left().places(coord) + self.spec_right().places(coord)
    }

    open spec fn is_contiguous(&self) -> bool {
        self.spec_left().is_contiguous() && self.spec_right().is_contiguous()
    }

    open spec fn room(&self, n: int) -> bool {
        self.spec_left().room(n) && self.spec_right().room(n)
    }

    open spec fn flips_in_range(&self, axis: int) -> bool {
        self.spec_left().flips_in_range(axis) && self.spec_right().flips_in_range(axis)
    }

    open spec fn slices_in_range(&self, range: Seq<Bound>) -> bool {
        self.spec_left().slices_in_range(range) && self.spec_right().slices_in_range(range)
    }

    open spec fn squeezes_in_range(&self, axes: Seq<usize>) -> bool {
        self.spec_left().squeezes_in_range(axes) && self.spec_right().squeezes_in_range(axes)
    }

    proof fn lemma_in_range(&self, n: int) {
        self.left.lemma_in_range(n);
        self.right.lemma_in_range(n);
    }

    fn reshape(self, shape: Shape) -> (result: Result<Self>)
        ensures
            result matches Ok(view) ==> view.spec_op() == self.spec_op(),
    {
        let left = self.left.reshape(shape.clone())?;
        let right = self.right.reshape(shape)?;
        Ok(Self { left, right, op: self.op })
    }

    fn broadcast(self, shape: Shape) -> (result: Result<Self>)
        ensures
            result matches Ok(view) ==> view.spec_op() == self.spec_op(),
    {
        let left = self.left.broadcast(shape.clone())?;
        let right = self.right.broadcast(shape)?;
        Ok(Self { left, right, op: self.op })
    }

    fn flip(self, axis: usize) -> (result: Result<Self>)
        ensures
            result matches Ok(view) ==> view.spec_op() == self.spec_op(),
    {
        let left = self.left.flip(axis)?;
        let right = self.right.flip(axis)?;
        Ok(Self { left, right, op: self.op })
    }

    fn slice(self, range: Range) -> (result: Result<Self>)
        ensures
            result matches Ok(view) ==> view.spec_op() == self.spec_op(),
    {
        let left = self.left.slice(range.clone())?;
        let right = self.right.slice(range)?;
        Ok(Self { left, right, op: self.op })
    }

    fn squeeze(self, axes: Axes) -> (result: Result<Self>)
        ensures
            result matches Ok(view) ==> view.spec_op() == self.spec_op(),
    {
        let left = self.left.squeeze(axes.clone())?;
        let right = self.right.squeeze(axes)?;
        Ok(Self { left, right, op: self.op })
    }

    fn transpose(self, permutation: Option<Axes>) -> (result: Result<Self>)
        ensures
            result matches Ok(view) ==> view.spec_op() == self.spec_op(),
    {
        let left = self.left.transpose(copy_order(&permutation))?;
        let right = self.right.transpose(permutation)?;
        Ok(Self { left, right, op: self.op })
    }

    fn unsqueeze(self, axes: Axes) -> (result: Result<Self>)
        ensures
            result matches Ok(view) ==> view.spec_op() == self.spec_op(),
    {
        let left = self.left.unsqueeze(axes.clone())?;
        let right = self.right.unsqueeze(axes)?;
        Ok(Self { left, right, op: self.op })
    }
}

} // verus!
