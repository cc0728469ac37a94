//! Arrays of bytes: calls into the array library, with what they compute.
//!
//! Every array here lives in host memory, so that no step of a call fails once the lengths agree.

use vstd::arithmetic::div_mod::lemma_mul_mod_noop_left;
use vstd::arithmetic::power::pow;
use vstd::prelude::*;
use ha_ndarray::{
    ArrayBuf, Buffer, Error as NdError, MatrixDual, NDArrayAbs, NDArrayBoolean,
    NDArrayBooleanScalar, NDArrayCompare, NDArrayCompareScalar, NDArrayMath, NDArrayMathScalar,
    NDArrayRead, NDArrayReduceAll, NDArrayUnaryBoolean, NDArrayWhere,
};

verus! {

/// A number reduced to a byte.
pub open spec fn wrapped(value: int) -> u8 {
    (value % 256) as u8
}

/// One for true and zero for false.
pub open spec fn flag(value: bool) -> u8 {
    if value {
        1
    } else {
        0
    }
}

/// The quotient of two bytes, which is zero for a zero divisor.
pub open spec fn quotient(left: u8, right: u8) -> u8 {
    if right == 0 {
        0
    } else {
        (left / right) as u8
    }
}

/// The remainder of two bytes, which is zero for a zero divisor.
pub open spec fn remainder(left: u8, right: u8) -> u8 {
    if right == 0 {
        0
    } else {
        (left % right) as u8
    }
}

/// A byte raised to the power of another.
pub open spec fn power(base: u8, exponent: u8) -> int {
    pow(base as int, exponent as nat)
}

/// An operation on each pair of two sequences of one length.
pub open spec fn zipped(left: Seq<u8>, right: Seq<u8>, op: spec_fn(u8, u8) -> u8) -> Seq<u8> {
    Seq::new(left.len(), |i: int| op(left[i], right[i]))
}

/// An operation on each item.
pub open spec fn each(values: Seq<u8>, op: spec_fn(u8) -> u8) -> Seq<u8> {
    Seq::new(values.len(), |i: int| op(values[i]))
}

/// The sum of a row times a column, over the first positions.
pub open spec fn dot(
    left: Seq<u8>,
    right: Seq<u8>,
    inner: int,
    columns: int,
    row: int,
    column: int,
    n: nat,
) -> int
    decreases n,
{
    if n == 0 {
        0
    } else {
        dot(left, right, inner, columns, row, column, (n - 1) as nat) + left[row * inner + n - 1]
            * right[(n - 1) * columns + column]
    }
}

/// The matrix product of two matrices of bytes, item by item.
pub open spec fn byte_product(
    left: Seq<u8>,
    right: Seq<u8>,
    rows: int,
    inner: int,
    columns: int,
) -> Seq<u8> {
    Seq::new(
        (rows * columns) as nat,
        |k: int|
            wrapped(dot(left, right, inner, columns, k / columns, k % columns, inner as nat)),
    )
}

/// The sum of some bytes.
pub open spec fn byte_sum(values: Seq<u8>) -> int
    decreases values.len(),
{
    if values.len() == 0 {
        0
    } else {
        byte_sum(values.drop_last()) + values.last()
    }
}

/// The product of some bytes.
pub open spec fn byte_factor(values: Seq<u8>) -> int
    decreases values.len(),
{
    if values.len() == 0 {
        1
    } else {
        byte_factor(values.drop_last()) * values.last()
    }
}

/// The byte is the least of some bytes.
pub open spec fn is_least(values: Seq<u8>, least: u8) -> bool {
    values.contains(least) && forall|i: int| 0 <= i < values.len() ==> least <= #[trigger] values[i]
}

/// The byte is the greatest of some bytes.
pub open spec fn is_greatest(values: Seq<u8>, greatest: u8) -> bool {
    values.contains(greatest) && forall|i: int|
        0 <= i < values.len() ==> greatest >= #[trigger] values[i]
}

/// `ha_ndarray::Number::add` on bytes: the sum, wrapped around.
#[verifier::external_body]
pub(crate) fn number_sum(left: u8, right: u8) -> (sum: u8)
    ensures
        sum == wrapped(left + right),
{
    ha_ndarray::Number::add(left, right)
}

/// `ha_ndarray::Number::mul` on bytes: the product, wrapped around.
#[verifier::external_body]
pub(crate) fn number_product(left: u8, right: u8) -> (product: u8)
    ensures
        product == wrapped(left * right),
{
    ha_ndarray::Number::mul(left, right)
}

/// `ha_ndarray::Real::min` on bytes: the lesser of two.
#[verifier::external_body]
pub(crate) fn number_least(left: u8, right: u8) -> (least: u8)
    ensures
        least == if left <= right {
            left
        } else {
            right
        },
{
    ha_ndarray::Real::min(left, right)
}

/// `ha_ndarray::Real::max` on bytes: the greater of two.
#[verifier::external_body]
pub(crate) fn number_greatest(left: u8, right: u8) -> (greatest: u8)
    ensures
        greatest == if left >= right {
            left
        } else {
            right
        },
{
    ha_ndarray::Real::max(left, right)
}

/// A byte raised to the power of another, wrapped around.
pub(crate) fn raise(base: u8, exponent: u8) -> (raised: u8)
    ensures
        raised == wrapped(power(base, exponent)),
{
    let mut raised: u8 = 1;
    let mut i: u8 = 0;
    proof {
        reveal(pow);
    }
    while i < exponent
        invariant
            i <= exponent,
            raised == wrapped(pow(base as int, i as nat)),
        decreases exponent - i,
    {
        proof {
            reveal(pow);
            let whole = pow(base as int, i as nat);
            assert(pow(base as int, (i + 1) as nat) == base * whole);
            lemma_mul_mod_noop_left(whole, base as int, 256);
            assert(whole * base == base * whole) by (nonlinear_arith);
        }
        raised = number_product(raised, base);
        i = i + 1;
    }
    raised
}

/// Each item of `left` raised to the power of that of `right`, wrapped around.
pub(crate) fn raise_bytes(left: Vec<u8>, right: Vec<u8>) -> (raised: Vec<u8>)
    requires
        left@.len() == right@.len(),
    ensures
        raised@ == zipped(left@, right@, |a: u8, b: u8| wrapped(power(a, b))),
{
    let mut raised: Vec<u8> = Vec::new();
    for i in 0..left.len()
        invariant
            left@.len() == right@.len(),
            raised@.len() == i,
            forall|k: int|
                0 <= k < i ==> #[trigger] raised@[k] == wrapped(power(left@[k], right@[k])),
    {
        raised.push(raise(left[i], right[i]));
    }
    assert(raised@ =~= zipped(left@, right@, |a: u8, b: u8| wrapped(power(a, b))));
    raised
}

/// Each item raised to the power of a number, wrapped around.
pub(crate) fn raise_bytes_to(values: Vec<u8>, scalar: u8) -> (raised: Vec<u8>)
    ensures
        raised@ == each(values@, |a: u8| wrapped(power(a, scalar))),
{
    let mut raised: Vec<u8> = Vec::new();
    for i in 0..values.len()
        invariant
            raised@.len() == i,
            forall|k: int|
                0 <= k < i ==> #[trigger] raised@[k] == wrapped(power(values@[k], scalar)),
    {
        raised.push(raise(values[i], scalar));
    }
    assert(raised@ =~= each(values@, |a: u8| wrapped(power(a, scalar))));
    raised
}

/// The remainder of each pair, zero for a zero divisor.
pub(crate) fn remainders(left: Vec<u8>, right: Vec<u8>) -> (rest: Vec<u8>)
    requires
        left@.len() == right@.len(),
    ensures
        rest@ == zipped(left@, right@, |a: u8, b: u8| remainder(a, b)),
{
    let mut rest: Vec<u8> = Vec::new();
    for i in 0..left.len()
        invariant
            left@.len() == right@.len(),
            rest@.len() == i,
            forall|k: int| 0 <= k < i ==> #[trigger] rest@[k] == remainder(left@[k], right@[k]),
    {
        if right[i] == 0 {
            rest.push(0);
        } else {
            rest.push(left[i] % right[i]);
        }
    }
    assert(rest@ =~= zipped(left@, right@, |a: u8, b: u8| remainder(a, b)));
    rest
}

/// Some zeros.
pub(crate) fn zeros(len: usize) -> (values: Vec<u8>)
    ensures
        values@ == Seq::new(len as nat, |i: int| 0u8),
{
    let mut values: Vec<u8> = Vec::new();
    for i in 0..len
        invariant
            values@ == Seq::new(i as nat, |i: int| 0u8),
    {
        values.push(0);
        assert(values@ =~= Seq::new((i + 1) as nat, |i: int| 0u8));
    }
    values
}

/// `NDArrayWhere::cond`: where the condition is not zero the item of `taken`, elsewhere that of
/// `other`.
#[verifier::external_body]
pub(crate) fn select_bytes(condition: Vec<u8>, taken: Vec<u8>, other: Vec<u8>) -> (result:
    core::result::Result<Vec<u8>, NdError>)
    requires
        taken@.len() == condition@.len(),
        other@.len() == condition@.len(),
    ensures
        result is Ok,
        result matches Ok(values) ==> values@ == Seq::new(
            condition@.len(),
            |i: int|
                if condition@[i] != 0 {
                    taken@[i]
                } else {
                    other@[i]
                },
        ),
{
    let shape: ha_ndarray::Shape = std::iter::once(condition.len()).collect();
    let condition = ArrayBuf::<u8, Buffer<u8>>::new(condition.into(), shape.clone())?;
    let taken = ArrayBuf::<u8, Buffer<u8>>::new(taken.into(), shape.clone())?;
    let other = ArrayBuf::<u8, Buffer<u8>>::new(other.into(), shape)?;
    Ok(condition.cond(taken, other)?.buffer()?.to_slice()?.into_vec())
}

/// `MatrixDual::matmul` on two matrices of bytes, row by row: each item is the sum of the products
/// of a row with a column, wrapped around.
#[verifier::external_body]
pub(crate) fn multiply_bytes(
    left: Vec<u8>,
    right: Vec<u8>,
    rows: usize,
    inner: usize,
    columns: usize,
) -> (result: core::result::Result<Vec<u8>, NdError>)
    requires
        rows > 0,
        inner > 0,
        columns > 0,
        rows * inner * columns <= usize::MAX,
        left@.len() == rows * inner,
        right@.len() == inner * columns,
    ensures
        result is Ok,
        result matches Ok(product) ==> product@ == byte_product(
            left@,
            right@,
            rows as int,
            inner as int,
            columns as int,
        ),
{
    let left = ArrayBuf::<u8, Buffer<u8>>::new(left.into(), vec![rows, inner].into())?;
    let right = ArrayBuf::<u8, Buffer<u8>>::new(right.into(), vec![inner, columns].into())?;
    Ok(left.matmul(right)?.buffer()?.to_slice()?.into_vec())
}

/// `NDArrayReduceAll::sum_all` on an array of bytes that is not empty: the sum of all items,
/// wrapped around.
#[verifier::external_body]
pub(crate) fn sum_bytes(values: Vec<u8>) -> (result: core::result::Result<u8, NdError>)
    requires
        values@.len() > 0,
    ensures
        result is Ok,
        result matches Ok(total) ==> total == wrapped(byte_sum(values@)),
{
    let shape: ha_ndarray::Shape = std::iter::once(values.len()).collect();
    ArrayBuf::<u8, Buffer<u8>>::new(values.into(), shape)?.sum_all()
}

/// `NDArrayReduceAll::product_all` on an array of bytes that is not empty: the product of all
/// items, wrapped around.
#[verifier::external_body]
pub(crate) fn product_bytes(values: Vec<u8>) -> (result: core::result::Result<u8, NdError>)
    requires
        values@.len() > 0,
    ensures
        result is Ok,
        result matches Ok(total) ==> total == wrapped(byte_factor(values@)),
{
    let shape: ha_ndarray::Shape = std::iter::once(values.len()).collect();
    ArrayBuf::<u8, Buffer<u8>>::new(values.into(), shape)?.product_all()
}

/// `NDArrayReduceAll::min_all` on an array of bytes that is not empty: the least item.
#[verifier::external_body]
pub(crate) fn least_byte(values: Vec<u8>) -> (result: core::result::Result<u8, NdError>)
    requires
        values@.len() > 0,
    ensures
        result is Ok,
        result matches Ok(least) ==> is_least(values@, least),
{
    let shape: ha_ndarray::Shape = std::iter::once(values.len()).collect();
    ArrayBuf::<u8, Buffer<u8>>::new(values.into(), shape)?.min_all()
}

/// `NDArrayReduceAll::max_all` on an array of bytes that is not empty: the greatest item.
#[verifier::external_body]
pub(crate) fn greatest_byte(values: Vec<u8>) -> (result: core::result::Result<u8, NdError>)
    requires
        values@.len() > 0,
    ensures
        result is Ok,
        result matches Ok(greatest) ==> is_greatest(values@, greatest),
{
    let shape: ha_ndarray::Shape = std::iter::once(values.len()).collect();
    ArrayBuf::<u8, Buffer<u8>>::new(values.into(), shape)?.max_all()
}

/// `NDArrayMath::add` on two arrays of bytes: the sum of each pair, wrapped around.
#[verifier::external_body]
pub(crate) fn add_bytes(left: Vec<u8>, right: Vec<u8>) -> (result: core::result::Result<
    Vec<u8>,
    NdError,
>)
    requires
        left@.len() == right@.len(),
    ensures
        result is Ok,
        result matches Ok(values) ==> values@ == zipped(
            left@,
            right@,
            |a: u8, b: u8| wrapped(a + b),
        ),
{
    let shape: ha_ndarray::Shape = std::iter::once(left.len()).collect();
    let left = ArrayBuf::<u8, Buffer<u8>>::new(left.into(), shape.clone())?;
    let right = ArrayBuf::<u8, Buffer<u8>>::new(right.into(), shape)?;
    Ok(left.add(right)?.buffer()?.to_slice()?.into_vec())
}

/// `NDArrayMath::sub` on two arrays of bytes: the difference of each pair, wrapped around.
#[verifier::external_body]
pub(crate) fn sub_bytes(left: Vec<u8>, right: Vec<u8>) -> (result: core::result::Result<
    Vec<u8>,
    NdError,
>)
    requires
        left@.len() == right@.len(),
    ensures
        result is Ok,
        result matches Ok(values) ==> values@ == zipped(
            left@,
            right@,
            |a: u8, b: u8| wrapped(a - b),
        ),
{
    let shape: ha_ndarray::Shape = std::iter::once(left.len()).collect();
    let left = ArrayBuf::<u8, Buffer<u8>>::new(left.into(), shape.clone())?;
    let right = ArrayBuf::<u8, Buffer<u8>>::new(right.into(), shape)?;
    Ok(left.sub(right)?.buffer()?.to_slice()?.into_vec())
}

/// `NDArrayMath::mul` on two arrays of bytes: the product of each pair, wrapped around.
#[verifier::external_body]
pub(crate) fn mul_bytes(left: Vec<u8>, right: Vec<u8>) -> (result: core::result::Result<
    Vec<u8>,
    NdError,
>)
    requires
        left@.len() == right@.len(),
    ensures
        result is Ok,
        result matches Ok(values) ==> values@ == zipped(
            left@,
            right@,
            |a: u8, b: u8| wrapped(a * b),
        ),
{
    let shape: ha_ndarray::Shape = std::iter::once(left.len()).collect();
    let left = ArrayBuf::<u8, Buffer<u8>>::new(left.into(), shape.clone())?;
    let right = ArrayBuf::<u8, Buffer<u8>>::new(right.into(), shape)?;
    Ok(left.mul(right)?.buffer()?.to_slice()?.into_vec())
}

/// `NDArrayMath::div` on two arrays of bytes: the quotient of each pair, zero for a zero divisor.
#[verifier::external_body]
pub(crate) fn div_bytes(left: Vec<u8>, right: Vec<u8>) -> (result: core::result::Result<
    Vec<u8>,
    NdError,
>)
    requires
        left@.len() == right@.len(),
    ensures
        result is Ok,
        result matches Ok(values) ==> values@ == zipped(
            left@,
            right@,
            |a: u8, b: u8| quotient(a, b),
        ),
{
    let shape: ha_ndarray::Shape = std::iter::once(left.len()).collect();
    let left = ArrayBuf::<u8, Buffer<u8>>::new(left.into(), shape.clone())?;
    let right = ArrayBuf::<u8, Buffer<u8>>::new(right.into(), shape)?;
    Ok(left.div(right)?.buffer()?.to_slice()?.into_vec())
}

/// `NDArrayCompare::eq` on two arrays of bytes: one where a pair is equal, else zero.
#[verifier::external_body]
pub(crate) fn eq_bytes(left: Vec<u8>, right: Vec<u8>) -> (result: core::result::Result<
    Vec<u8>,
    NdError,
>)
    requires
        left@.len() == right@.len(),
    ensures
        result is Ok,
        result matches Ok(values) ==> values@ == zipped(
            left@,
            right@,
            |a: u8, b: u8| flag(a == b),
        ),
{
    let shape: ha_ndarray::Shape = std::iter::once(left.len()).collect();
    let left = ArrayBuf::<u8, Buffer<u8>>::new(left.into(), shape.clone())?;
    let right = ArrayBuf::<u8, Buffer<u8>>::new(right.into(), shape)?;
    Ok(NDArrayCompare::eq(left, right)?.buffer()?.to_slice()?.into_vec())
}

/// `NDArrayCompare::ne` on two arrays of bytes: one where a pair differs, else zero.
#[verifier::external_body]
pub(crate) fn ne_bytes(left: Vec<u8>, right: Vec<u8>) -> (result: core::result::Result<
    Vec<u8>,
    NdError,
>)
    requires
        left@.len() == right@.len(),
    ensures
        result is Ok,
        result matches Ok(values) ==> values@ == zipped(
            left@,
            right@,
            |a: u8, b: u8| flag(a != b),
        ),
{
    let shape: ha_ndarray::Shape = std::iter::once(left.len()).collect();
    let left = ArrayBuf::<u8, Buffer<u8>>::new(left.into(), shape.clone())?;
    let right = ArrayBuf::<u8, Buffer<u8>>::new(right.into(), shape)?;
    Ok(NDArrayCompare::ne(left, right)?.buffer()?.to_slice()?.into_vec())
}

/// `NDArrayCompare::gt` on two arrays of bytes: one where the left item is greater, else zero.
#[verifier::external_body]
pub(crate) fn gt_bytes(left: Vec<u8>, right: Vec<u8>) -> (result: core::result::Result<
    Vec<u8>,
    NdError,
>)
    requires
        left@.len() == right@.len(),
    ensures
        result is Ok,
        result matches Ok(values) ==> values@ == zipped(
            left@,
            right@,
            |a: u8, b: u8| flag(a > b),
        ),
{
    let shape: ha_ndarray::Shape = std::iter::once(left.len()).collect();
    let left = ArrayBuf::<u8, Buffer<u8>>::new(left.into(), shape.clone())?;
    let right = ArrayBuf::<u8, Buffer<u8>>::new(right.into(), shape)?;
    Ok(NDArrayCompare::gt(left, right)?.buffer()?.to_slice()?.into_vec())
}

/// `NDArrayCompare::ge` on two arrays of bytes: one where the left item is not less, else zero.
#[verifier::external_body]
pub(crate) fn ge_bytes(left: Vec<u8>, right: Vec<u8>) -> (result: core::result::Result<
    Vec<u8>,
    NdError,
>)
    requires
        left@.len() == right@.len(),
    ensures
        result is Ok,
        result matches Ok(values) ==> values@ == zipped(
            left@,
            right@,
            |a: u8, b: u8| flag(a >= b),
        ),
{
    let shape: ha_ndarray::Shape = std::iter::once(left.len()).collect();
    let left = ArrayBuf::<u8, Buffer<u8>>::new(left.into(), shape.clone())?;
    let right = ArrayBuf::<u8, Buffer<u8>>::new(right.into(), shape)?;
    Ok(NDArrayCompare::ge(left, right)?.buffer()?.to_slice()?.into_vec())
}

/// `NDArrayCompare::lt` on two arrays of bytes: one where the left item is less, else zero.
#[verifier::external_body]
pub(crate) fn lt_bytes(left: Vec<u8>, right: Vec<u8>) -> (result: core::result::Result<
    Vec<u8>,
    NdError,
>)
    requires
        left@.len() == right@.len(),
    ensures
        result is Ok,
        result matches Ok(values) ==> values@ == zipped(
            left@,
            right@,
            |a: u8, b: u8| flag(a < b),
        ),
{
    let shape: ha_ndarray::Shape = std::iter::once(left.len()).collect();
    let left = ArrayBuf::<u8, Buffer<u8>>::new(left.into(), shape.clone())?;
    let right = ArrayBuf::<u8, Buffer<u8>>::new(right.into(), shape)?;
    Ok(NDArrayCompare::lt(left, right)?.buffer()?.to_slice()?.into_vec())
}

/// `NDArrayCompare::le` on two arrays of bytes: one where the left item is not greater, else zero.
#[verifier::external_body]
pub(crate) fn le_bytes(left: Vec<u8>, right: Vec<u8>) -> (result: core::result::Result<
    Vec<u8>,
    NdError,
>)
    requires
        left@.len() == right@.len(),
    ensures
        result is Ok,
        result matches Ok(values) ==> values@ == zipped(
            left@,
            right@,
            |a: u8, b: u8| flag(a <= b),
        ),
{
    let shape: ha_ndarray::Shape = std::iter::once(left.len()).collect();
    let left = ArrayBuf::<u8, Buffer<u8>>::new(left.into(), shape.clone())?;
    let right = ArrayBuf::<u8, Buffer<u8>>::new(right.into(), shape)?;
    Ok(NDArrayCompare::le(left, right)?.buffer()?.to_slice()?.into_vec())
}

/// `NDArrayBoolean::and` on two arrays of bytes: one where neither item is zero, else zero.
#[verifier::external_body]
pub(crate) fn and_bytes(left: Vec<u8>, right: Vec<u8>) -> (result: core::result::Result<
    Vec<u8>,
    NdError,
>)
    requires
        left@.len() == right@.len(),
    ensures
        result is Ok,
        result matches Ok(values) ==> values@ == zipped(
            left@,
            right@,
            |a: u8, b: u8| flag(a != 0 && b != 0),
        ),
{
    let shape: ha_ndarray::Shape = std::iter::once(left.len()).collect();
    let left = ArrayBuf::<u8, Buffer<u8>>::new(left.into(), shape.clone())?;
    let right = ArrayBuf::<u8, Buffer<u8>>::new(right.into(), shape)?;
    Ok(left.and(right)?.buffer()?.to_slice()?.into_vec())
}

/// `NDArrayBoolean::or` on two arrays of bytes: one where an item is not zero, else zero.
#[verifier::external_body]
pub(crate) fn or_bytes(left: Vec<u8>, right: Vec<u8>) -> (result: core::result::Result<
    Vec<u8>,
    NdError,
>)
    requires
        left@.len() == right@.len(),
    ensures
        result is Ok,
        result matches Ok(values) ==> values@ == zipped(
            left@,
            right@,
            |a: u8, b: u8| flag(a != 0 || b != 0),
        ),
{
    let shape: ha_ndarray::Shape = std::iter::once(left.len()).collect();
    let left = ArrayBuf::<u8, Buffer<u8>>::new(left.into(), shape.clone())?;
    let right = ArrayBuf::<u8, Buffer<u8>>::new(right.into(), shape)?;
    Ok(left.or(right)?.buffer()?.to_slice()?.into_vec())
}

/// `NDArrayBoolean::xor` on two arrays of bytes: one where just one item is not zero, else zero.
#[verifier::external_body]
pub(crate) fn xor_bytes(left: Vec<u8>, right: Vec<u8>) -> (result: core::result::Result<
    Vec<u8>,
    NdError,
>)
    requires
        left@.len() == right@.len(),
    ensures
        result is Ok,
        result matches Ok(values) ==> values@ == zipped(
            left@,
            right@,
            |a: u8, b: u8| flag((a != 0) != (b != 0)),
        ),
{
    let shape: ha_ndarray::Shape = std::iter::once(left.len()).collect();
    let left = ArrayBuf::<u8, Buffer<u8>>::new(left.into(), shape.clone())?;
    let right = ArrayBuf::<u8, Buffer<u8>>::new(right.into(), shape)?;
    Ok(left.xor(right)?.buffer()?.to_slice()?.into_vec())
}

/// `NDArrayMathScalar::add_scalar` on an array of bytes: each item plus the number, wrapped around.
#[verifier::external_body]
pub(crate) fn add_scalar_bytes(values: Vec<u8>, scalar: u8) -> (result: core::result::Result<
    Vec<u8>,
    NdError,
>)
    ensures
        result is Ok,
        result matches Ok(out) ==> out@ == each(values@, |a: u8| wrapped(a + scalar)),
{
    let shape: ha_ndarray::Shape = std::iter::once(values.len()).collect();
    let values = ArrayBuf::<u8, Buffer<u8>>::new(values.into(), shape)?;
    Ok(values.add_scalar(scalar)?.buffer()?.to_slice()?.into_vec())
}

/// `NDArrayMathScalar::sub_scalar` on an array of bytes: each item less the number, wrapped around.
#[verifier::external_body]
pub(crate) fn sub_scalar_bytes(values: Vec<u8>, scalar: u8) -> (result: core::result::Result<
    Vec<u8>,
    NdError,
>)
    ensures
        result is Ok,
        result matches Ok(out) ==> out@ == each(values@, |a: u8| wrapped(a - scalar)),
{
    let shape: ha_ndarray::Shape = std::iter::once(values.len()).collect();
    let values = ArrayBuf::<u8, Buffer<u8>>::new(values.into(), shape)?;
    Ok(values.sub_scalar(scalar)?.buffer()?.to_slice()?.into_vec())
}

/// `NDArrayMathScalar::mul_scalar` on an array of bytes: each item times the number, wrapped
/// around.
#[verifier::external_body]
pub(crate) fn mul_scalar_bytes(values: Vec<u8>, scalar: u8) -> (result: core::result::Result<
    Vec<u8>,
    NdError,
>)
    ensures
        result is Ok,
        result matches Ok(out) ==> out@ == each(values@, |a: u8| wrapped(a * scalar)),
{
    let shape: ha_ndarray::Shape = std::iter::once(values.len()).collect();
    let values = ArrayBuf::<u8, Buffer<u8>>::new(values.into(), shape)?;
    Ok(values.mul_scalar(scalar)?.buffer()?.to_slice()?.into_vec())
}

/// `NDArrayMathScalar::div_scalar` on an array of bytes: each item divided by the number,
/// which is not zero.
#[verifier::external_body]
pub(crate) fn div_scalar_bytes(values: Vec<u8>, scalar: u8) -> (result: core::result::Result<
    Vec<u8>,
    NdError,
>)
    requires
        scalar != 0,
    ensures
        result is Ok,
        result matches Ok(out) ==> out@ == each(values@, |a: u8| quotient(a, scalar)),
{
    let shape: ha_ndarray::Shape = std::iter::once(values.len()).collect();
    let values = ArrayBuf::<u8, Buffer<u8>>::new(values.into(), shape)?;
    Ok(values.div_scalar(scalar)?.buffer()?.to_slice()?.into_vec())
}

/// `NDArrayMathScalar::rem_scalar` on an array of bytes: the remainder of each item by the number,
/// which is not zero.
#[verifier::external_body]
pub(crate) fn rem_scalar_bytes(values: Vec<u8>, scalar: u8) -> (result: core::result::Result<
    Vec<u8>,
    NdError,
>)
    requires
        scalar != 0,
    ensures
        result is Ok,
        result matches Ok(out) ==> out@ == each(values@, |a: u8| remainder(a, scalar)),
{
    let shape: ha_ndarray::Shape = std::iter::once(values.len()).collect();
    let values = ArrayBuf::<u8, Buffer<u8>>::new(values.into(), shape)?;
    Ok(values.rem_scalar(scalar)?.buffer()?.to_slice()?.into_vec())
}

/// `NDArrayCompareScalar::eq_scalar` on an array of bytes: one where an item equals the number,
/// else zero.
#[verifier::external_body]
pub(crate) fn eq_scalar_bytes(values: Vec<u8>, scalar: u8) -> (result: core::result::Result<
    Vec<u8>,
    NdError,
>)
    ensures
        result is Ok,
        result matches Ok(out) ==> out@ == each(values@, |a: u8| flag(a == scalar)),
{
    let shape: ha_ndarray::Shape = std::iter::once(values.len()).collect();
    let values = ArrayBuf::<u8, Buffer<u8>>::new(values.into(), shape)?;
    Ok(values.eq_scalar(scalar)?.buffer()?.to_slice()?.into_vec())
}

/// `NDArrayCompareScalar::ne_scalar` on an array of bytes: one where an item is not the number,
/// else zero.
#[verifier::external_body]
pub(crate) fn ne_scalar_bytes(values: Vec<u8>, scalar: u8) -> (result: core::result::Result<
    Vec<u8>,
    NdError,
>)
    ensures
        result is Ok,
        result matches Ok(out) ==> out@ == each(values@, |a: u8| flag(a != scalar)),
{
    let shape: ha_ndarray::Shape = std::iter::once(values.len()).collect();
    let values = ArrayBuf::<u8, Buffer<u8>>::new(values.into(), shape)?;
    Ok(values.ne_scalar(scalar)?.buffer()?.to_slice()?.into_vec())
}

/// `NDArrayCompareScalar::gt_scalar` on an array of bytes: one where an item is greater, else zero.
#[verifier::external_body]
pub(crate) fn gt_scalar_bytes(values: Vec<u8>, scalar: u8) -> (result: core::result::Result<
    Vec<u8>,
    NdError,
>)
    ensures
        result is Ok,
        result matches Ok(out) ==> out@ == each(values@, |a: u8| flag(a > scalar)),
{
    let shape: ha_ndarray::Shape = std::iter::once(values.len()).collect();
    let values = ArrayBuf::<u8, Buffer<u8>>::new(values.into(), shape)?;
    Ok(values.gt_scalar(scalar)?.buffer()?.to_slice()?.into_vec())
}

/// `NDArrayCompareScalar::ge_scalar` on an array of bytes: one where an item is not less, else
/// zero.
#[verifier::external_body]
pub(crate) fn ge_scalar_bytes(values: Vec<u8>, scalar: u8) -> (result: core::result::Result<
    Vec<u8>,
    NdError,
>)
    ensures
        result is Ok,
        result matches Ok(out) ==> out@ == each(values@, |a: u8| flag(a >= scalar)),
{
    let shape: ha_ndarray::Shape = std::iter::once(values.len()).collect();
    let values = ArrayBuf::<u8, Buffer<u8>>::new(values.into(), shape)?;
    Ok(values.ge_scalar(scalar)?.buffer()?.to_slice()?.into_vec())
}

/// `NDArrayCompareScalar::lt_scalar` on an array of bytes: one where an item is less, else zero.
#[verifier::external_body]
pub(crate) fn lt_scalar_bytes(values: Vec<u8>, scalar: u8) -> (result: core::result::Result<
    Vec<u8>,
    NdError,
>)
    ensures
        result is Ok,
        result matches Ok(out) ==> out@ == each(values@, |a: u8| flag(a < scalar)),
{
    let shape: ha_ndarray::Shape = std::iter::once(values.len()).collect();
    let values = ArrayBuf::<u8, Buffer<u8>>::new(values.into(), shape)?;
    Ok(values.lt_scalar(scalar)?.buffer()?.to_slice()?.into_vec())
}

/// `NDArrayCompareScalar::le_scalar` on an array of bytes: one where an item is not greater, else
/// zero.
#[verifier::external_body]
pub(crate) fn le_scalar_bytes(values: Vec<u8>, scalar: u8) -> (result: core::result::Result<
    Vec<u8>,
    NdError,
>)
    ensures
        result is Ok,
        result matches Ok(out) ==> out@ == each(values@, |a: u8| flag(a <= scalar)),
{
    let shape: ha_ndarray::Shape = std::iter::once(values.len()).collect();
    let values = ArrayBuf::<u8, Buffer<u8>>::new(values.into(), shape)?;
    Ok(values.le_scalar(scalar)?.buffer()?.to_slice()?.into_vec())
}

/// `NDArrayBooleanScalar::and_scalar` on an array of bytes: one where neither an item nor the
/// number is zero, else zero.
#[verifier::external_body]
pub(crate) fn and_scalar_bytes(values: Vec<u8>, scalar: u8) -> (result: core::result::Result<
    Vec<u8>,
    NdError,
>)
    ensures
        result is Ok,
        result matches Ok(out) ==> out@ == each(values@, |a: u8| flag(a != 0 && scalar != 0)),
{
    let shape: ha_ndarray::Shape = std::iter::once(values.len()).collect();
    let values = ArrayBuf::<u8, Buffer<u8>>::new(values.into(), shape)?;
    Ok(values.and_scalar(scalar)?.buffer()?.to_slice()?.into_vec())
}

/// `NDArrayBooleanScalar::or_scalar` on an array of bytes: one where an item or the number is not
/// zero, else zero.
#[verifier::external_body]
pub(crate) fn or_scalar_bytes(values: Vec<u8>, scalar: u8) -> (result: core::result::Result<
    Vec<u8>,
    NdError,
>)
    ensures
        result is Ok,
        result matches Ok(out) ==> out@ == each(values@, |a: u8| flag(a != 0 || scalar != 0)),
{
    let shape: ha_ndarray::Shape = std::iter::once(values.len()).collect();
    let values = ArrayBuf::<u8, Buffer<u8>>::new(values.into(), shape)?;
    Ok(values.or_scalar(scalar)?.buffer()?.to_slice()?.into_vec())
}

/// `NDArrayBooleanScalar::xor_scalar` on an array of bytes: one where just one of an item and the
/// number is not zero, else zero.
#[verifier::external_body]
pub(crate) fn xor_scalar_bytes(values: Vec<u8>, scalar: u8) -> (result: core::result::Result<
    Vec<u8>,
    NdError,
>)
    ensures
        result is Ok,
        result matches Ok(out) ==> out@ == each(values@, |a: u8| flag((a != 0) != (scalar != 0))),
{
    let shape: ha_ndarray::Shape = std::iter::once(values.len()).collect();
    let values = ArrayBuf::<u8, Buffer<u8>>::new(values.into(), shape)?;
    Ok(values.xor_scalar(scalar)?.buffer()?.to_slice()?.into_vec())
}

/// `NDArrayUnaryBoolean::not` on an array of bytes: one where an item is zero, else zero.
#[verifier::external_body]
pub(crate) fn not_bytes(values: Vec<u8>) -> (result: core::result::Result<Vec<u8>, NdError>)
    ensures
        result is Ok,
        result matches Ok(out) ==> out@ == each(values@, |a: u8| flag(a == 0)),
{
    let shape: ha_ndarray::Shape = std::iter::once(values.len()).collect();
    let values = ArrayBuf::<u8, Buffer<u8>>::new(values.into(), shape)?;
    Ok(values.not()?.buffer()?.to_slice()?.into_vec())
}

/// `NDArrayAbs::abs` on an array of bytes: each item as it is.
#[verifier::external_body]
pub(crate) fn abs_bytes(values: Vec<u8>) -> (result: core::result::Result<Vec<u8>, NdError>)
    ensures
        result is Ok,
        result matches Ok(out) ==> out@ == each(values@, |a: u8| a),
{
    let shape: ha_ndarray::Shape = std::iter::once(values.len()).collect();
    let values = ArrayBuf::<u8, Buffer<u8>>::new(values.into(), shape)?;
    Ok(values.abs()?.buffer()?.to_slice()?.into_vec())
}

} // verus!
