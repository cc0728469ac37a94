//! Elementwise expressions over one source.

use vstd::prelude::*;
use crate::backend::{abs_bytes, each, flag, not_bytes};
use crate::element::TensorElement;
use crate::error::{Error, Result};
use crate::expression::{batch_fits, EvaluatedBatch, has_no_support, mask_of, masked_values};
use crate::inline::{Axes, Bound, Range, Shape};
use crate::schema::Layout;
use crate::traits::{TensorGeometry, TensorTransform, TensorViewSemantics};

verus! {

/// Operations that this library knows.
pub trait Sealed {

}

/// An operation on each element of a batch.
pub trait UnaryOp<T>: Sealed {
    type Output;

    /// What the operation gives. Where an operation does not say, it is left open.
    open spec fn is_result(&self, values: Seq<T>, out: Seq<Self::Output>) -> bool {
        true
    }

    fn apply(&self, values: Vec<T>) -> (result: Result<Vec<Self::Output>>)
        ensures
            result is Ok,
            result matches Ok(out) ==> out@.len() == values@.len() && self.is_result(
                values@,
                out@,
            ),
    ;
}

/// Exponentiation. For floating-point elements.
#[derive(Clone, Copy, Debug)]
pub struct Exp;

impl Sealed for Exp {

}

/// The natural logarithm. For floating-point elements.
#[derive(Clone, Copy, Debug)]
pub struct Ln;

impl Sealed for Ln {

}

/// Rounding. For floating-point elements.
#[derive(Clone, Copy, Debug)]
pub struct Round;

impl Sealed for Round {

}

/// The sine. For floating-point elements.
#[derive(Clone, Copy, Debug)]
pub struct Sin;

impl Sealed for Sin {

}

/// The inverse sine. For floating-point elements.
#[derive(Clone, Copy, Debug)]
pub struct Asin;

impl Sealed for Asin {

}

/// The hyperbolic sine. For floating-point elements.
#[derive(Clone, Copy, Debug)]
pub struct Sinh;

impl Sealed for Sinh {

}

/// The cosine. For floating-point elements.
#[derive(Clone, Copy, Debug)]
pub struct Cos;

impl Sealed for Cos {

}

/// The inverse cosine. For floating-point elements.
#[derive(Clone, Copy, Debug)]
pub struct Acos;

impl Sealed for Acos {

}

/// The hyperbolic cosine. For floating-point elements.
#[derive(Clone, Copy, Debug)]
pub struct Cosh;

impl Sealed for Cosh {

}

/// The tangent. For floating-point elements.
#[derive(Clone, Copy, Debug)]
pub struct Tan;

impl Sealed for Tan {

}

/// The inverse tangent. For floating-point elements.
#[derive(Clone, Copy, Debug)]
pub struct Atan;

impl Sealed for Atan {

}

/// The hyperbolic tangent. For floating-point elements.
#[derive(Clone, Copy, Debug)]
pub struct Tanh;

impl Sealed for Tanh {

}

/// One for an element that is no number, else zero. For floating-point elements.
#[derive(Clone, Copy, Debug)]
pub struct IsNan;

impl Sealed for IsNan {

}

/// One for an infinite element, else zero. For floating-point elements.
#[derive(Clone, Copy, Debug)]
pub struct IsInf;

impl Sealed for IsInf {

}

/// Another type for the elements.
#[derive(Debug)]
pub struct Cast<To> {
    to: core::marker::PhantomData<To>,
}

impl<To> Sealed for Cast<To> {

}

impl<To> Cast<To> {
    pub fn new() -> (cast: Self) {
        Cast { to: core::marker::PhantomData }
    }
}

/// The absolute value.
#[derive(Clone, Copy, Debug)]
pub struct Abs;

impl Sealed for Abs {

}

impl UnaryOp<u8> for Abs {
    type Output = u8;

    open spec fn is_result(&self, values: Seq<u8>, out: Seq<u8>) -> bool {
        out == each(values, |a: u8| a)
    }

    fn apply(&self, values: Vec<u8>) -> (result: Result<Vec<u8>>) {
        match abs_bytes(values) {
            Ok(out) => Ok(out),
            Err(error) => Err(Error::Nd(error)),
        }
    }
}

/// One for a zero, zero for any other element.
#[derive(Clone, Copy, Debug)]
pub struct Not;

impl Sealed for Not {

}

impl UnaryOp<u8> for Not {
    type Output = u8;

    open spec fn is_result(&self, values: Seq<u8>, out: Seq<u8>) -> bool {
        out == each(values, |a: u8| flag(a == 0))
    }

    fn apply(&self, values: Vec<u8>) -> (result: Result<Vec<u8>>) {
        match not_bytes(values) {
            Ok(out) => Ok(out),
            Err(error) => Err(Error::Nd(error)),
        }
    }
}

/// A batch of an operation on a batch: supported where that is, with the result of the operation
/// there and zero elsewhere.
pub open spec fn is_unary_batch<T, O: UnaryOp<T>>(
    op: O,
    source: (Seq<T>, Option<Seq<u8>>),
    batch: (Seq<O::Output>, Option<Seq<u8>>),
) -> bool where O::Output: TensorElement {
    &&& batch.1 == source.1
    &&& exists|out: Seq<O::Output>| #[trigger]
        op.is_result(source.0, out) && out.len() == source.0.len() && batch.0 == masked_values(
            out,
            batch.1,
        )
}

/// A read-only view of an operation on a source. The source's support is the view's.
#[derive(Clone, Debug)]
pub struct UnaryView<Source, Op> {
    source: Source,
    op: Op,
}

impl<S, O> UnaryView<S, O> {
    pub closed spec fn spec_source(&self) -> S {
        self.source
    }

    pub closed spec fn spec_op(&self) -> O {
        self.op
    }

    pub fn new(source: S, op: O) -> (view: Self)
        ensures
            view.spec_source() == source,
            view.spec_op() == op,
    {
        UnaryView { source, op }
    }

    pub fn source(&self) -> (source: &S)
        ensures
            *source == self.spec_source(),
    {
        &self.source
    }

    /// The batch of the view for a batch of its source.
    pub fn build<T>(&self, source: EvaluatedBatch<T>) -> (result: Result<
        EvaluatedBatch<O::Output>,
    >) where O: UnaryOp<T>, O::Output: TensorElement
        ensures
            result is Ok <==> batch_fits(
                source.values@,
                mask_of(source.support),
                source.values@.len() as int,
            ),
            result matches Ok(batch) ==> is_unary_batch(
                self.spec_op(),
                (source.values@, mask_of(source.support)),
                (batch.values@, mask_of(batch.support)),
            ),
            result matches Ok(batch) ==> batch.values@.len() == source.values@.len() && forall|i: int|
                #![trigger batch.values@[i]]
                0 <= i < batch.values@.len() ==> {
                    &&& has_no_support(batch.support, i) <==> has_no_support(source.support, i)
                    &&& has_no_support(batch.support, i) ==> batch.values@[i]
                        == O::Output::spec_zero()
                },
            result matches Err(error) ==> error is InvalidLayout,
    {
        let values = self.op.apply(source.values)?;
        assert(self.spec_op().is_result(source.values@, values@));
        let batch = EvaluatedBatch { values, support: source.support }.masked()?;
        proof {
            let op = self.spec_op();
            let one = (source.values@, mask_of(source.support));
            assert(op.is_result(one.0, values@));
            assert(batch.values@ == masked_values(values@, mask_of(batch.support)));
            assert(is_unary_batch(op, one, (batch.values@, mask_of(batch.support))));
        }
        Ok(batch)
    }
}

impl<S: TensorGeometry, O> TensorGeometry for UnaryView<S, O> {
    open spec fn spec_shape(&self) -> Seq<u64> {
        self.spec_source().spec_shape()
    }

    open spec fn spec_layout(&self) -> Layout {
        self.spec_source().spec_layout()
    }

    fn shape(&self) -> (shape: &[u64]) {
        self.source.shape()
    }

    fn layout(&self) -> (layout: Layout) {
        self.source.layout()
    }
}

impl<S: TensorGeometry, O> TensorViewSemantics for UnaryView<S, O> {
    open spec fn spec_is_base(&self) -> bool {
        false
    }

    open spec fn spec_writes_through(&self) -> bool {
        false
    }

    fn is_base_tensor(&self) -> (base: bool) {
        false
    }

    fn supports_write_through(&self) -> (writes: bool) {
        false
    }
}

impl<S: TensorTransform, O> TensorTransform for UnaryView<S, O> {
    open spec fn inv(&self) -> bool {
        self.spec_source().inv()
    }

    open spec fn places(&self, coord: Seq<u64>) -> Seq<int> {
        self.spec_source().places(coord)
    }

    open spec fn is_contiguous(&self) -> bool {
        self.spec_source().is_contiguous()
    }

    open spec fn room(&self, n: int) -> bool {
        self.spec_source().room(n)
    }

    open spec fn flips_in_range(&self, axis: int) -> bool {
        self.spec_source().flips_in_range(axis)
    }

    open spec fn slices_in_range(&self, range: Seq<Bound>) -> bool {
        self.spec_source().slices_in_range(range)
    }

    open spec fn squeezes_in_range(&self, axes: Seq<usize>) -> bool {
        self.spec_source().squeezes_in_range(axes)
    }

    proof fn lemma_in_range(&self, n: int) {
        self.source.lemma_in_range(n);
    }

    fn reshape(self, shape: Shape) -> (result: Result<Self>)
        ensures
            result matches Ok(view) ==> view.spec_op() == self.spec_op(),
    {
        let source = self.source.reshape(shape)?;
        Ok(Self { source, op: self.op })
    }

    fn broadcast(self, shape: Shape) -> (result: Result<Self>)
        ensures
            result matches Ok(view) ==> view.spec_op() == self.spec_op(),
    {
        let source = self.source.broadcast(shape)?;
        Ok(Self { source, op: self.op })
    }

    fn flip(self, axis: usize) -> (result: Result<Self>)
        ensures
            result matches Ok(view) ==> view.spec_op() == self.spec_op(),
    {
        let source = self.source.flip(axis)?;
        Ok(Self { source, op: self.op })
    }

    fn slice(self, range: Range) -> (result: Result<Self>)
        ensures
            result matches Ok(view) ==> view.spec_op() == self.spec_op(),
    {
        let source = self.source.slice(range)?;
        Ok(Self { source, op: self.op })
    }

    fn squeeze(self, axes: Axes) -> (result: Result<Self>)
        ensures
            result matches Ok(view) ==> view.spec_op() == self.spec_op(),
    {
        let source = self.source.squeeze(axes)?;
        Ok(Self { source, op: self.op })
    }

    fn transpose(self, permutation: Option<Axes>) -> (result: Result<Self>)
        ensures
            result matches Ok(view) ==> view.spec_op() == self.spec_op(),
    {
        let source = self.source.transpose(permutation)?;
        Ok(Self { source, op: self.op })
    }

    fn unsqueeze(self, axes: Axes) -> (result: Result<Self>)
        ensures
            result matches Ok(view) ==> view.spec_op() == self.spec_op(),
    {
        let source = self.source.unsqueeze(axes)?;
        Ok(Self { source, op: self.op })
    }
}

} // verus!
