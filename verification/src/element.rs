//! The elements of a tensor and what batches of them can do.

use vstd::prelude::*;
use crate::backend::{byte_product, multiply_bytes, number_sum, select_bytes, wrapped};
use crate::error::{Error, Result};

verus! {

/// Where the condition is not zero the item of `taken`, elsewhere that of `other`.
pub open spec fn selected<T>(condition: Seq<u8>, taken: Seq<T>, other: Seq<T>) -> Seq<T> {
    Seq::new(
        condition.len(),
        |i: int|
            if condition[i] != 0 {
                taken[i]
            } else {
                other[i]
            },
    )
}

/// A type of elements. Its arithmetic is that of the array library.
pub trait TensorElement: Copy {
    /// The value of an element that is not stored.
    spec fn spec_zero() -> Self;

    /// The sum of two elements.
    spec fn spec_sum(self, other: Self) -> Self;

    /// The element is zero, or equal to it.
    spec fn spec_is_zero(self) -> bool;

    /// The value of an element that is not stored is zero.
    proof fn lemma_zero()
        ensures
            Self::spec_zero().spec_is_zero(),
    ;

    /// The third matrix is a product of the other two, all row by row. An element type whose sums
    /// depend on their order can have more than one; a type that does not say leaves it open.
    open spec fn is_matrix_product(
        left: Seq<Self>,
        right: Seq<Self>,
        rows: int,
        inner: int,
        columns: int,
        product: Seq<Self>,
    ) -> bool {
        true
    }

    fn zero() -> (zero: Self)
        ensures
            zero == Self::spec_zero(),
    ;

    fn sum(self, other: Self) -> (sum: Self)
        ensures
            sum == self.spec_sum(other),
    ;

    fn is_zero(self) -> (zero: bool)
        ensures
            zero == self.spec_is_zero(),
    ;

    /// Take each item from one of two batches, by a condition.
    fn select(condition: Vec<u8>, taken: Vec<Self>, other: Vec<Self>) -> (result: Result<Vec<Self>>)
        requires
            taken@.len() == condition@.len(),
            other@.len() == condition@.len(),
        ensures
            result is Ok,
            result matches Ok(values) ==> values@ == selected(condition@, taken@, other@),
    ;

    /// Multiply two matrices.
    fn multiply(
        left: Vec<Self>,
        right: Vec<Self>,
        rows: usize,
        inner: usize,
        columns: usize,
    ) -> (result: Result<Vec<Self>>)
        requires
            rows > 0,
            inner > 0,
            columns > 0,
            rows * inner * columns <= usize::MAX,
            left@.len() == rows * inner,
            right@.len() == inner * columns,
        ensures
            result is Ok,
            result matches Ok(product) ==> product@.len() == rows * columns
                && Self::is_matrix_product(
                left@,
                right@,
                rows as int,
                inner as int,
                columns as int,
                product@,
            ),
    ;
}

impl TensorElement for u8 {
    open spec fn spec_zero() -> Self {
        0
    }

    open spec fn spec_sum(self, other: Self) -> Self {
        wrapped(self + other)
    }

    open spec fn spec_is_zero(self) -> bool {
        self == 0
    }

    proof fn lemma_zero() {
    }

    open spec fn is_matrix_product(
        left: Seq<Self>,
        right: Seq<Self>,
        rows: int,
        inner: int,
        columns: int,
        product: Seq<Self>,
    ) -> bool {
        product == byte_product(left, right, rows, inner, columns)
    }

    fn zero() -> (zero: Self) {
        0
    }

    fn sum(self, other: Self) -> (sum: Self) {
        number_sum(self, other)
    }

    fn is_zero(self) -> (zero: bool) {
        self == 0
    }

    fn select(condition: Vec<u8>, taken: Vec<u8>, other: Vec<u8>) -> (result: Result<Vec<u8>>) {
        match select_bytes(condition, taken, other) {
            Ok(values) => {
                assert(values@ =~= selected(condition@, taken@, other@));
                Ok(values)
            },
            Err(error) => Err(Error::Nd(error)),
        }
    }

    fn multiply(
        left: Vec<u8>,
        right: Vec<u8>,
        rows: usize,
        inner: usize,
        columns: usize,
    ) -> (result: Result<Vec<u8>>) {
        match multiply_bytes(left, right, rows, inner, columns) {
            Ok(product) => {
                assert(rows * columns >= 0) by (nonlinear_arith)
                    requires
                        rows > 0,
                        columns > 0,
                ;
                Ok(product)
            },
            Err(error) => Err(Error::Nd(error)),
        }
    }
}

/// A batch of one element, many times.
pub(crate) fn filled<T: Copy>(value: T, len: usize) -> (values: Vec<T>)
    ensures
        values@ == Seq::new(len as nat, |i: int| value),
{
    let mut values: Vec<T> = Vec::new();
    let mut i: usize = 0;
    while i < len
        invariant
            i <= len,
            values@ == Seq::new(i as nat, |i: int| value),
        decreases len - i,
    {
        values.push(value);
        i += 1;
        assert(values@ =~= Seq::new(i as nat, |i: int| value));
    }
    values
}

} // verus!
