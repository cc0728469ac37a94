//! What the operations on bytes mean, and how they relate to each other.

use vstd::prelude::*;
use crate::backend::{flag, power, quotient, remainder, wrapped, zipped};
use crate::binary::{Add, And, BinaryOp, Div, Ge, Gt, Le, Lt, Mul, Ne, Or, Pow, Rem, Sub, Xor};
use crate::scalar::{
    AddScalar, AndScalar, DivScalar, EqScalar, GeScalar, GtScalar, LeScalar, LtScalar, MulScalar,
    NeScalar, OrScalar, PowScalar, RemScalar, SubScalar, XorScalar,
};
use crate::unary::{Abs, Not, UnaryOp};

verus! {

/// The numbers leave the same remainder by 256.
pub open spec fn is_congruent(left: int, right: int) -> bool {
    exists|k: int| left - right == #[trigger] (k * 256)
}

proof fn lemma_congruent(value: int)
    ensures
        is_congruent((value % 256) as u8 as int, value),
{
    vstd::arithmetic::div_mod::lemma_fundamental_div_mod(value, 256);
    let k = -(value / 256);
    assert(value % 256 - value == k * 256);
}

/// A sum of bytes is the sum, but for a multiple of 256, and subtracting gives the summand back.
pub proof fn sums_wrap_around(left: Seq<u8>, right: Seq<u8>, sum: Seq<u8>, rest: Seq<u8>, i: int)
    requires
        left.len() == right.len(),
        0 <= i < left.len(),
        Add.is_result(left, right, sum),
        Sub.is_result(sum, right, rest),
    ensures
        sum.len() == left.len(),
        rest == left,
        is_congruent(sum[i] as int, left[i] + right[i]),
        left[i] + right[i] < 256 ==> sum[i] == left[i] + right[i],
{
    lemma_congruent(left[i] + right[i]);
    assert forall|j: int| 0 <= j < left.len() implies rest[j] == left[j] by {
        let a = left[j] as int;
        let b = right[j] as int;
        assert(sum[j] == ((a + b) % 256) as u8);
        assert(rest[j] == ((sum[j] - b) % 256) as u8);
    }
    assert(rest =~= left);
}

/// A difference of bytes is the difference, but for a multiple of 256, and adding gives the first
/// number back.
pub proof fn differences_wrap_around(
    left: Seq<u8>,
    right: Seq<u8>,
    difference: Seq<u8>,
    whole: Seq<u8>,
    i: int,
)
    requires
        left.len() == right.len(),
        0 <= i < left.len(),
        Sub.is_result(left, right, difference),
        Add.is_result(difference, right, whole),
    ensures
        difference.len() == left.len(),
        whole == left,
        is_congruent(difference[i] as int, left[i] - right[i]),
        left[i] >= right[i] ==> difference[i] == left[i] - right[i],
{
    lemma_congruent(left[i] - right[i]);
    assert forall|j: int| 0 <= j < left.len() implies whole[j] == left[j] by {
        let a = left[j] as int;
        let b = right[j] as int;
        assert(difference[j] == ((a - b) % 256) as u8);
        assert(whole[j] == ((difference[j] + b) % 256) as u8);
    }
    assert(whole =~= left);
}

/// A product of bytes is the product, but for a multiple of 256. It does not depend on the order.
pub proof fn products_wrap_around(
    left: Seq<u8>,
    right: Seq<u8>,
    product: Seq<u8>,
    turned: Seq<u8>,
    i: int,
)
    requires
        left.len() == right.len(),
        0 <= i < left.len(),
        Mul.is_result(left, right, product),
        Mul.is_result(right, left, turned),
    ensures
        product.len() == left.len(),
        turned == product,
        is_congruent(product[i] as int, left[i] * right[i]),
        left[i] * right[i] < 256 ==> product[i] == left[i] * right[i],
{
    lemma_congruent(left[i] * right[i]);
    assert(0 <= left[i] * right[i]) by (nonlinear_arith)
        requires
            left[i] >= 0,
            right[i] >= 0,
    ;
    assert forall|j: int| 0 <= j < left.len() implies turned[j] == product[j] by {
        assert(left[j] * right[j] == right[j] * left[j]) by (nonlinear_arith);
    }
    assert(turned =~= product);
}

/// Quotient and remainder belong together: the quotient times the divisor and the remainder make
/// the number, and the remainder is less than the divisor. By zero, both are zero.
pub proof fn quotients_and_remainders_make_the_number(
    left: Seq<u8>,
    right: Seq<u8>,
    quotient: Seq<u8>,
    remainder: Seq<u8>,
    i: int,
)
    requires
        left.len() == right.len(),
        0 <= i < left.len(),
        Div.is_result(left, right, quotient),
        Rem.is_result(left, right, remainder),
    ensures
        quotient.len() == left.len(),
        remainder.len() == left.len(),
        right[i] != 0 ==> quotient[i] * right[i] + remainder[i] == left[i] && remainder[i]
            < right[i],
        right[i] == 0 ==> quotient[i] == 0 && remainder[i] == 0,
{
    if right[i] != 0 {
        let a = left[i] as int;
        let b = right[i] as int;
        vstd::arithmetic::div_mod::lemma_fundamental_div_mod(a, b);
        assert(b * (a / b) == (a / b) * b) by (nonlinear_arith);
    }
}

/// Any number to the power of zero is one, and one more in the exponent is one more factor.
pub proof fn powers_are_repeated_products(
    base: Seq<u8>,
    exponent: Seq<u8>,
    next: Seq<u8>,
    power: Seq<u8>,
    more: Seq<u8>,
    product: Seq<u8>,
    i: int,
)
    requires
        base.len() == exponent.len() == next.len(),
        0 <= i < base.len(),
        next[i] == exponent[i] + 1,
        Pow.is_result(base, exponent, power),
        Pow.is_result(base, next, more),
        Mul.is_result(power, base, product),
    ensures
        power.len() == base.len(),
        exponent[i] == 0 ==> power[i] == 1,
        more[i] == product[i],
{
    reveal(vstd::arithmetic::power::pow);
    let b = base[i] as int;
    let e = exponent[i] as nat;
    let whole = vstd::arithmetic::power::pow(b, e);
    assert(vstd::arithmetic::power::pow(b, (e + 1) as nat) == b * whole);
    assert(power[i] == (whole % 256) as u8);
    vstd::arithmetic::div_mod::lemma_mul_mod_noop_left(whole, b, 256);
    assert(whole * b == b * whole) by (nonlinear_arith);
}

/// Comparisons are one or zero, and one where the numbers compare as they say.
pub proof fn comparisons_compare(
    left: Seq<u8>,
    right: Seq<u8>,
    equal: Seq<u8>,
    unequal: Seq<u8>,
    greater: Seq<u8>,
    not_less: Seq<u8>,
    less: Seq<u8>,
    not_greater: Seq<u8>,
    i: int,
)
    requires
        left.len() == right.len(),
        0 <= i < left.len(),
        crate::binary::Eq.is_result(left, right, equal),
        Ne.is_result(left, right, unequal),
        Gt.is_result(left, right, greater),
        Ge.is_result(left, right, not_less),
        Lt.is_result(left, right, less),
        Le.is_result(left, right, not_greater),
    ensures
        equal.len() == left.len() && unequal.len() == left.len() && greater.len() == left.len()
            && not_less.len() == left.len() && less.len() == left.len() && not_greater.len()
            == left.len(),
        less[i] + equal[i] + greater[i] == 1,
        left[i] < right[i] ==> less[i] == 1,
        left[i] == right[i] ==> equal[i] == 1,
        left[i] > right[i] ==> greater[i] == 1,
        unequal[i] == 1 - equal[i],
        not_less[i] == 1 - less[i],
        not_greater[i] == 1 - greater[i],
{
}

/// Logic takes every number but zero for true, and gives one or zero.
pub proof fn logic_combines_what_is_not_zero(
    left: Seq<u8>,
    right: Seq<u8>,
    both: Seq<u8>,
    any: Seq<u8>,
    just_one: Seq<u8>,
    none: Seq<u8>,
    i: int,
)
    requires
        left.len() == right.len(),
        0 <= i < left.len(),
        And.is_result(left, right, both),
        Or.is_result(left, right, any),
        Xor.is_result(left, right, just_one),
        Not.is_result(left, none),
    ensures
        both.len() == left.len() && any.len() == left.len() && just_one.len() == left.len()
            && none.len() == left.len(),
        left[i] == 0 && right[i] == 0 ==> both[i] == 0 && any[i] == 0 && just_one[i] == 0,
        left[i] != 0 && right[i] == 0 ==> both[i] == 0 && any[i] == 1 && just_one[i] == 1,
        left[i] == 0 && right[i] != 0 ==> both[i] == 0 && any[i] == 1 && just_one[i] == 1,
        left[i] != 0 && right[i] != 0 ==> both[i] == 1 && any[i] == 1 && just_one[i] == 0,
        left[i] == 0 ==> none[i] == 1,
        left[i] != 0 ==> none[i] == 0,
{
}

/// A byte is its own absolute value.
pub proof fn bytes_are_not_negative(values: Seq<u8>, out: Seq<u8>)
    requires
        Abs.is_result(values, out),
    ensures
        out == values,
{
    assert(out =~= values);
}

/// The number, as often as there are elements.
pub open spec fn repeated(scalar: u8, len: nat) -> Seq<u8> {
    Seq::new(len, |i: int| scalar)
}

/// Arithmetic with a number is arithmetic with a tensor that has it everywhere.
pub proof fn arithmetic_with_a_number_is_that_with_a_tensor_of_it(
    scalar: u8,
    values: Seq<u8>,
    add: (AddScalar<u8>, Seq<u8>),
    sub: (SubScalar<u8>, Seq<u8>),
    mul: (MulScalar<u8>, Seq<u8>),
    div: (DivScalar<u8>, Seq<u8>),
    pow: (PowScalar<u8>, Seq<u8>),
    rem: (RemScalar<u8>, Seq<u8>),
)
    requires
        add.0.scalar() == scalar,
        add.0.is_result(values, add.1),
        sub.0.scalar() == scalar,
        sub.0.is_result(values, sub.1),
        mul.0.scalar() == scalar,
        mul.0.is_result(values, mul.1),
        div.0.scalar() == scalar,
        div.0.is_result(values, div.1),
        pow.0.scalar() == scalar,
        pow.0.is_result(values, pow.1),
        rem.0.scalar() == scalar,
        rem.0.is_result(values, rem.1),
    ensures
        Add.is_result(values, repeated(scalar, values.len()), add.1),
        Sub.is_result(values, repeated(scalar, values.len()), sub.1),
        Mul.is_result(values, repeated(scalar, values.len()), mul.1),
        Div.is_result(values, repeated(scalar, values.len()), div.1),
        Pow.is_result(values, repeated(scalar, values.len()), pow.1),
        Rem.is_result(values, repeated(scalar, values.len()), rem.1),
{
    let all = repeated(scalar, values.len());
    assert(add.1 =~= zipped(values, all, |a: u8, b: u8| wrapped(a + b)));
    assert(sub.1 =~= zipped(values, all, |a: u8, b: u8| wrapped(a - b)));
    assert(mul.1 =~= zipped(values, all, |a: u8, b: u8| wrapped(a * b)));
    assert(div.1 =~= zipped(values, all, |a: u8, b: u8| quotient(a, b)));
    assert(pow.1 =~= zipped(values, all, |a: u8, b: u8| wrapped(power(a, b))));
    assert(rem.1 =~= zipped(values, all, |a: u8, b: u8| remainder(a, b)));
}

/// Comparing with a number is comparing with a tensor that has it everywhere.
pub proof fn comparing_with_a_number_is_comparing_with_a_tensor_of_it(
    scalar: u8,
    values: Seq<u8>,
    eq: (EqScalar<u8>, Seq<u8>),
    ne: (NeScalar<u8>, Seq<u8>),
    gt: (GtScalar<u8>, Seq<u8>),
    ge: (GeScalar<u8>, Seq<u8>),
    lt: (LtScalar<u8>, Seq<u8>),
    le: (LeScalar<u8>, Seq<u8>),
)
    requires
        eq.0.scalar() == scalar,
        eq.0.is_result(values, eq.1),
        ne.0.scalar() == scalar,
        ne.0.is_result(values, ne.1),
        gt.0.scalar() == scalar,
        gt.0.is_result(values, gt.1),
        ge.0.scalar() == scalar,
        ge.0.is_result(values, ge.1),
        lt.0.scalar() == scalar,
        lt.0.is_result(values, lt.1),
        le.0.scalar() == scalar,
        le.0.is_result(values, le.1),
    ensures
        crate::binary::Eq.is_result(values, repeated(scalar, values.len()), eq.1),
        Ne.is_result(values, repeated(scalar, values.len()), ne.1),
        Gt.is_result(values, repeated(scalar, values.len()), gt.1),
        Ge.is_result(values, repeated(scalar, values.len()), ge.1),
        Lt.is_result(values, repeated(scalar, values.len()), lt.1),
        Le.is_result(values, repeated(scalar, values.len()), le.1),
{
    let all = repeated(scalar, values.len());
    assert(eq.1 =~= zipped(values, all, |a: u8, b: u8| flag(a == b)));
    assert(ne.1 =~= zipped(values, all, |a: u8, b: u8| flag(a != b)));
    assert(gt.1 =~= zipped(values, all, |a: u8, b: u8| flag(a > b)));
    assert(ge.1 =~= zipped(values, all, |a: u8, b: u8| flag(a >= b)));
    assert(lt.1 =~= zipped(values, all, |a: u8, b: u8| flag(a < b)));
    assert(le.1 =~= zipped(values, all, |a: u8, b: u8| flag(a <= b)));
}

/// Logic with a number is logic with a tensor that has it everywhere. With a number that is not
/// zero, the disjunction is one everywhere, and the conjunction is one where the element is not
/// zero. With zero, it is the other way round.
pub proof fn logic_with_a_number_is_that_with_a_tensor_of_it(
    scalar: u8,
    values: Seq<u8>,
    and: (AndScalar<u8>, Seq<u8>),
    or: (OrScalar<u8>, Seq<u8>),
    xor: (XorScalar<u8>, Seq<u8>),
)
    requires
        and.0.scalar() == scalar,
        and.0.is_result(values, and.1),
        or.0.scalar() == scalar,
        or.0.is_result(values, or.1),
        xor.0.scalar() == scalar,
        xor.0.is_result(values, xor.1),
    ensures
        And.is_result(values, repeated(scalar, values.len()), and.1),
        Or.is_result(values, repeated(scalar, values.len()), or.1),
        Xor.is_result(values, repeated(scalar, values.len()), xor.1),
        forall|i: int|
            #![trigger values[i]]
            0 <= i < values.len() ==> {
                &&& scalar != 0 ==> or.1[i] == 1
                &&& scalar == 0 ==> (or.1[i] == 1 <==> values[i] != 0) && or.1[i] <= 1
                &&& scalar == 0 ==> and.1[i] == 0
                &&& scalar != 0 ==> (and.1[i] == 1 <==> values[i] != 0) && and.1[i] <= 1
            },
{
    let all = repeated(scalar, values.len());
    assert(and.1 =~= zipped(values, all, |a: u8, b: u8| flag(a != 0 && b != 0)));
    assert(or.1 =~= zipped(values, all, |a: u8, b: u8| flag(a != 0 || b != 0)));
    assert(xor.1 =~= zipped(values, all, |a: u8, b: u8| flag((a != 0) != (b != 0))));
}

} // verus!
