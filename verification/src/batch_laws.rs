//! What evaluated batches hold: values, and the mask of what is supported.

use vstd::prelude::*;
use crate::binary::{BinaryOp, is_binary_batch, joint_layout};
use crate::element::TensorElement;
use crate::element_laws::is_congruent;
use crate::error::{Error, Result};
use crate::expression::{
    joined, masked_values, nonzero_elements, stored_mask, supported, supported_values,
    union_supports_what_either_side_supports,
};
use crate::groups::{group_pushed, reduced_to};
use crate::matrix::derived_layout;
use crate::reduce::{
    confirms, has_nonzero, has_zero, holds_reduction, is_finished, Max, Min, Product, ReduceOp,
    refutes, Sum,
};
use crate::schema::Layout;
use crate::selection::is_selected_batch;
use crate::unary::{is_unary_batch, UnaryOp};

verus! {

/// The mask has no zero at a place. Without a mask, every element counts.
pub open spec fn counts(mask: Option<Seq<u8>>, place: int) -> bool {
    match mask {
        Some(bytes) => bytes[place] != 0,
        None => true,
    }
}

/// A batch of values and its mask, with a byte for each value.
pub open spec fn is_batch<T>(batch: (Seq<T>, Option<Seq<u8>>)) -> bool {
    match batch.1 {
        Some(bytes) => bytes.len() == batch.0.len(),
        None => true,
    }
}

/// An elementwise operation gives support where its source has it, the result of the operation
/// there, and zero elsewhere.
pub proof fn operations_keep_the_support<T, O: UnaryOp<T>>(
    op: O,
    source: (Seq<T>, Option<Seq<u8>>),
    batch: (Seq<O::Output>, Option<Seq<u8>>),
) -> (out: Seq<O::Output>) where O::Output: TensorElement
    requires
        is_batch(source),
        is_unary_batch(op, source, batch),
    ensures
        is_batch(batch),
        op.is_result(source.0, out),
        out.len() == source.0.len(),
        batch.0.len() == source.0.len(),
        forall|i: int|
            #![trigger batch.0[i]]
            0 <= i < source.0.len() ==> {
                &&& counts(batch.1, i) <==> counts(source.1, i)
                &&& counts(batch.1, i) ==> batch.0[i] == out[i]
                &&& !counts(batch.1, i) ==> batch.0[i] == O::Output::spec_zero()
            },
{
    let out = choose|out: Seq<O::Output>| #[trigger]
        op.is_result(source.0, out) && out.len() == source.0.len() && batch.0 == masked_values(
            out,
            batch.1,
        );
    out
}

/// An operation on two sources gives support where either of them has it, the result of the
/// operation there, and zero elsewhere.
pub proof fn operations_join_the_support<T, O: BinaryOp<T>>(
    op: O,
    left: (Seq<T>, Option<Seq<u8>>),
    right: (Seq<T>, Option<Seq<u8>>),
    batch: (Seq<O::Output>, Option<Seq<u8>>),
) -> (out: Seq<O::Output>) where O::Output: TensorElement
    requires
        is_batch(left),
        is_batch(right),
        left.0.len() == right.0.len(),
        is_binary_batch(op, left, right, batch),
    ensures
        is_batch(batch),
        op.is_result(left.0, right.0, out),
        out.len() == left.0.len(),
        batch.0.len() == left.0.len(),
        forall|i: int|
            #![trigger counts(batch.1, i)]
            0 <= i < left.0.len() ==> {
                &&& counts(batch.1, i) <==> counts(left.1, i) || counts(right.1, i)
                &&& counts(batch.1, i) ==> batch.0[i] == out[i]
                &&& !counts(batch.1, i) ==> batch.0[i] == O::Output::spec_zero()
            },
{
    let n = left.0.len() as int;
    let out = choose|out: Seq<O::Output>| #[trigger]
        op.is_result(left.0, right.0, out) && out.len() == left.0.len() && batch.0 == masked_values(
            out,
            batch.1,
        );
    assert forall|i: int|
        #![trigger counts(batch.1, i)]
        0 <= i < n implies {
        &&& counts(batch.1, i) <==> counts(left.1, i) || counts(right.1, i)
        &&& counts(batch.1, i) ==> batch.0[i] == out[i]
        &&& !counts(batch.1, i) ==> batch.0[i] == O::Output::spec_zero()
    } by {
        union_supports_what_either_side_supports(left.1, right.1, n, i);
    }
    out
}

/// A selection gives support where any of its sources has it, there the element of the first branch
/// where the condition is not zero and that of the other branch where it is, and zero elsewhere.
pub proof fn selections_select<T: TensorElement>(
    condition: (Seq<u8>, Option<Seq<u8>>),
    taken: (Seq<T>, Option<Seq<u8>>),
    or_else: (Seq<T>, Option<Seq<u8>>),
    batch: (Seq<T>, Option<Seq<u8>>),
    i: int,
)
    requires
        is_batch(condition),
        is_batch(taken),
        is_batch(or_else),
        condition.0.len() == taken.0.len() == or_else.0.len(),
        is_selected_batch(condition, taken, or_else, batch),
        0 <= i < condition.0.len(),
    ensures
        is_batch(batch),
        batch.0.len() == condition.0.len(),
        counts(batch.1, i) <==> counts(condition.1, i) || counts(taken.1, i) || counts(
            or_else.1,
            i,
        ),
        !counts(batch.1, i) ==> batch.0[i] == T::spec_zero(),
        counts(batch.1, i) && condition.0[i] != 0 ==> batch.0[i] == taken.0[i],
        counts(batch.1, i) && condition.0[i] == 0 ==> batch.0[i] == or_else.0[i],
{
    let n = condition.0.len() as int;
    union_supports_what_either_side_supports(taken.1, or_else.1, n, i);
    union_supports_what_either_side_supports(
        condition.1,
        joined(taken.1, or_else.1),
        n,
        i,
    );
}

/// A group that is added to a reduction adds one value and, where there is a mask, one byte: the
/// outcome and a byte that is not zero, or zero for both.
pub proof fn groups_add_one_value_each<T: TensorElement>(
    state: Option<T>,
    before: (Seq<T>, Option<Seq<u8>>),
    after: (Seq<T>, Option<Seq<u8>>),
)
    requires
        is_batch(before),
        group_pushed(state, before, after),
    ensures
        is_batch(after),
        after.0.len() == before.0.len() + 1,
        forall|i: int|
            0 <= i < before.0.len() ==> #[trigger] after.0[i] == before.0[i] && counts(after.1, i)
                == counts(before.1, i),
        before.1 is Some ==> (counts(after.1, before.0.len() as int) <==> state is Some),
        state matches Some(value) ==> after.0[before.0.len() as int] == value,
        state is None ==> after.0[before.0.len() as int] == T::spec_zero(),
{
}

/// What was read from a dense tensor is supported, and of a sparse one what is not zero.
pub proof fn stored_elements_are_supported<T: TensorElement>(
    values: Seq<T>,
    layout: Layout,
    i: int,
)
    requires
        0 <= i < values.len(),
    ensures
        is_batch((values, stored_mask(values, layout))),
        layout is Dense ==> stored_mask(values, layout) is None,
        layout is Sparse ==> (counts(stored_mask(values, layout), i) <==> !values[i].spec_is_zero()),
{
}

/// Masking keeps what is supported and puts zero elsewhere.
pub proof fn masking_keeps_supported_values<T: TensorElement>(
    values: Seq<T>,
    mask: Option<Seq<u8>>,
    i: int,
)
    requires
        0 <= i < values.len(),
    ensures
        masked_values(values, mask).len() == values.len(),
        counts(mask, i) ==> masked_values(values, mask)[i] == values[i],
        !counts(mask, i) ==> masked_values(values, mask)[i] == T::spec_zero(),
{
}

/// Each value with whether it is supported.
pub open spec fn with_support<T>(values: Seq<T>, mask: Option<Seq<u8>>) -> Seq<(T, bool)> {
    Seq::new(values.len(), |i: int| (values[i], counts(mask, i)))
}

/// The supported values of a batch are those whose byte in the mask is not zero, in order.
pub proof fn supported_values_are_those_that_count<T>(values: Seq<T>, mask: Option<Seq<u8>>)
    requires
        is_batch((values, mask)),
    ensures
        supported_values(values, mask) == with_support(values, mask).filter(
            |item: (T, bool)| item.1,
        ).map_values(|item: (T, bool)| item.0),
    decreases values.len(),
{
    reveal(Seq::filter);
    let items = with_support(values, mask);
    let keep = |item: (T, bool)| item.1;
    let value = |item: (T, bool)| item.0;
    if values.len() == 0 {
        assert(items.filter(keep).map_values(value) =~= Seq::<T>::empty());
    } else {
        let less = match mask {
            Some(bytes) => Some(bytes.drop_last()),
            None => None,
        };
        supported_values_are_those_that_count(values.drop_last(), less);
        assert(with_support(values.drop_last(), less) =~= items.drop_last());
        let before = items.drop_last().filter(keep);
        assert(items.last() == (values.last(), supported(mask, values.len() - 1)));
        if items.last().1 {
            assert(before.push(items.last()).map_values(value) =~= before.map_values(value).push(
                values.last(),
            ));
        }
    }
}

/// The sparse elements of a batch are those that are not zero, each with its coordinate, in order.
pub proof fn sparse_elements_are_not_zero<T: TensorElement>(
    coords: Seq<Seq<u64>>,
    values: Seq<T>,
)
    requires
        coords.len() == values.len(),
    ensures
        nonzero_elements(coords, values) == Seq::new(
            values.len(),
            |i: int| (coords[i], values[i]),
        ).filter(|item: (Seq<u64>, T)| !item.1.spec_is_zero()),
    decreases values.len(),
{
    reveal(Seq::filter);
    let items = Seq::new(values.len(), |i: int| (coords[i], values[i]));
    if values.len() > 0 {
        let less = coords.drop_last();
        let fewer = values.drop_last();
        sparse_elements_are_not_zero(less, fewer);
        assert(Seq::new(fewer.len(), |i: int| (less[i], fewer[i])) =~= items.drop_last());
    } else {
        assert(items.filter(|item: (Seq<u64>, T)| !item.1.spec_is_zero()) =~= Seq::<
            (Seq<u64>, T),
        >::empty());
    }
}

/// Not all elements of a batch are nonzero if a supported one is zero, and some is nonzero if a
/// supported one is not zero.
pub proof fn tests_look_at_supported_values<T: TensorElement>(
    values: Seq<T>,
    mask: Option<Seq<u8>>,
)
    requires
        is_batch((values, mask)),
    ensures
        refutes(values, mask) <==> exists|i: int|
            #![trigger values[i]]
            0 <= i < values.len() && counts(mask, i) && values[i].spec_is_zero(),
        confirms(values, mask) <==> exists|i: int|
            #![trigger values[i]]
            0 <= i < values.len() && counts(mask, i) && !values[i].spec_is_zero(),
    decreases values.len(),
{
    let list = supported_values(values, mask);
    if values.len() > 0 {
        let n = values.len() - 1;
        let less = match mask {
            Some(bytes) => Some(bytes.drop_last()),
            None => None,
        };
        let init = values.drop_last();
        let before = supported_values(init, less);
        tests_look_at_supported_values(init, less);
        assert(forall|i: int| 0 <= i < n ==> counts(less, i) == counts(mask, i));
        assert(forall|i: int| 0 <= i < n ==> #[trigger] init[i] == values[i]);
        if has_zero(list) {
            let k = choose|k: int| 0 <= k < list.len() && (#[trigger] list[k]).spec_is_zero();
            if k < before.len() {
                assert(before[k].spec_is_zero());
                let i = choose|i: int|
                    #![trigger init[i]]
                    0 <= i < init.len() && counts(less, i) && init[i].spec_is_zero();
                assert(values[i].spec_is_zero());
            } else {
                assert(values[n].spec_is_zero());
            }
        }
        if has_nonzero(list) {
            let k = choose|k: int| 0 <= k < list.len() && !(#[trigger] list[k]).spec_is_zero();
            if k < before.len() {
                assert(!before[k].spec_is_zero());
                let i = choose|i: int|
                    #![trigger init[i]]
                    0 <= i < init.len() && counts(less, i) && !init[i].spec_is_zero();
                assert(!values[i].spec_is_zero());
            } else {
                assert(!values[n].spec_is_zero());
            }
        }
        if exists|i: int|
            #![trigger values[i]]
            0 <= i < values.len() && counts(mask, i) && values[i].spec_is_zero() {
            let i = choose|i: int|
                #![trigger values[i]]
                0 <= i < values.len() && counts(mask, i) && values[i].spec_is_zero();
            if i < n {
                assert(init[i].spec_is_zero());
                let k = choose|k: int|
                    0 <= k < before.len() && (#[trigger] before[k]).spec_is_zero();
                assert(list[k] == before[k]);
            } else {
                assert(list[before.len() as int] == values[n]);
            }
        }
        if exists|i: int|
            #![trigger values[i]]
            0 <= i < values.len() && counts(mask, i) && !values[i].spec_is_zero() {
            let i = choose|i: int|
                #![trigger values[i]]
                0 <= i < values.len() && counts(mask, i) && !values[i].spec_is_zero();
            if i < n {
                assert(!init[i].spec_is_zero());
                let k = choose|k: int|
                    0 <= k < before.len() && !(#[trigger] before[k]).spec_is_zero();
                assert(list[k] == before[k]);
            } else {
                assert(list[before.len() as int] == values[n]);
            }
        }
    }
}

/// An expression over two sources is sparse if both are, and has no hint of an axis; one over a
/// single source is sparse if that is.
pub proof fn expressions_are_sparse_where_all_sources_are(left: Layout, right: Layout)
    ensures
        joint_layout(left, right) is Sparse <==> left is Sparse && right is Sparse,
        joint_layout(left, right) matches Layout::Sparse { axis } ==> axis is None,
        derived_layout(left) is Sparse <==> left is Sparse,
        derived_layout(left) matches Layout::Sparse { axis } ==> axis is None,
{
}

/// A single value is its own reduction.
pub proof fn single_values_are_reduced_to_themselves(value: u8, to: u8)
    ensures
        Sum.reduces(seq![value], to) <==> to == value,
        Product.reduces(seq![value], to) <==> to == value,
        Min.reduces(seq![value], to) <==> to == value,
        Max.reduces(seq![value], to) <==> to == value,
{
    let one = seq![value];
    assert(one.drop_last() =~= Seq::<u8>::empty());
    assert(crate::backend::byte_sum(one.drop_last()) == 0);
    assert(crate::backend::byte_factor(one.drop_last()) == 1);
    assert(1 * value == value);
    assert(one[0] == value);
    assert(one.contains(value));
    if one.contains(to) {
        assert(to == value);
    }
}

/// One more value adds to a sum and multiplies a product, both but for a multiple of 256, and is
/// the least or the greatest if it is less or greater than those before.
pub proof fn more_values_are_reduced_with_the_rest(
    values: Seq<u8>,
    value: u8,
    sums: (u8, u8),
    products: (u8, u8),
    least: (u8, u8),
    greatest: (u8, u8),
)
    requires
        values.len() > 0,
        Sum.reduces(values, sums.0),
        Sum.reduces(values.push(value), sums.1),
        Product.reduces(values, products.0),
        Product.reduces(values.push(value), products.1),
        Min.reduces(values, least.0),
        Min.reduces(values.push(value), least.1),
        Max.reduces(values, greatest.0),
        Max.reduces(values.push(value), greatest.1),
    ensures
        is_congruent(sums.1 as int, sums.0 + value),
        is_congruent(products.1 as int, products.0 * value),
        value < least.0 ==> least.1 == value,
        value >= least.0 ==> least.1 == least.0,
        value > greatest.0 ==> greatest.1 == value,
        value <= greatest.0 ==> greatest.1 == greatest.0,
{
    let all = values.push(value);
    assert(all.drop_last() =~= values);
    let s = crate::backend::byte_sum(values);
    let p = crate::backend::byte_factor(values);
    let v = value as int;
    assert(sums.1 == ((s + v) % 256) as u8);
    let k = (s % 256 + v - (s + v) % 256) / 256;
    assert(sums.1 - (sums.0 + value) == (-k) * 256);
    vstd::arithmetic::div_mod::lemma_mul_mod_noop_left(p, v, 256);
    let q = products.0 * v;
    assert(products.1 == (q % 256) as u8);
    vstd::arithmetic::div_mod::lemma_fundamental_div_mod(q, 256);
    assert(products.1 - products.0 * value == (-(q / 256)) * 256);
    assert(all[values.len() as int] == value);
    assert(forall|i: int| 0 <= i < values.len() ==> all[i] == values[i]);
    let a = choose|a: int| 0 <= a < values.len() && values[a] == least.0;
    let b = choose|b: int| 0 <= b < all.len() && all[b] == least.1;
    assert(least.1 <= all[a]);
    assert(least.1 <= all[values.len() as int]);
    if b < values.len() {
        assert(least.0 <= values[b]);
    }
    let c = choose|c: int| 0 <= c < values.len() && values[c] == greatest.0;
    let d = choose|d: int| 0 <= d < all.len() && all[d] == greatest.1;
    assert(greatest.1 >= all[c]);
    assert(greatest.1 >= all[values.len() as int]);
    if d < values.len() {
        assert(greatest.0 >= values[d]);
    }
}

/// Partial results are combined as their values are: by adding, multiplying, or taking the lesser
/// or the greater. Without values a sum is zero and a product one, which change no result they are
/// combined with, and there is neither a least value nor a greatest one.
pub proof fn partial_results_are_combined(left: u8, right: u8)
    ensures
        is_congruent(Sum::spec_combine(left, right) as int, left + right),
        is_congruent(Product::spec_combine(left, right) as int, left * right),
        Min::spec_combine(left, right) <= left && Min::spec_combine(left, right) <= right,
        Min::spec_combine(left, right) == left || Min::spec_combine(left, right) == right,
        Max::spec_combine(left, right) >= left && Max::spec_combine(left, right) >= right,
        Max::spec_combine(left, right) == left || Max::spec_combine(left, right) == right,
        Sum::spec_empty() matches Some(none) && Sum::spec_combine(none, right) == right && none
            == 0,
        Product::spec_empty() matches Some(none) && Product::spec_combine(none, right) == right
            && none == 1,
        Min::spec_empty() is None,
        Max::spec_empty() is None,
{
    let s = left + right;
    let p = left * right;
    vstd::arithmetic::div_mod::lemma_fundamental_div_mod(s, 256);
    vstd::arithmetic::div_mod::lemma_fundamental_div_mod(p, 256);
    assert(Sum::spec_combine(left, right) - s == (-(s / 256)) * 256);
    assert(Product::spec_combine(left, right) - p == (-(p / 256)) * 256);
    assert(1 * right == right);
}

/// A reduction of everything is the reduction of its values. Without values a sum is zero, a
/// product is one, and a least or a greatest value is refused.
pub proof fn whole_reductions_reduce_their_values(
    values: Seq<u8>,
    states: (Option<u8>, Option<u8>, Option<u8>, Option<u8>),
    results: (Result<u8>, Result<u8>, Result<u8>, Result<u8>),
)
    requires
        holds_reduction(Sum, values, states.0),
        holds_reduction(Product, values, states.1),
        holds_reduction(Min, values, states.2),
        holds_reduction(Max, values, states.3),
        is_finished::<u8, Sum>(states.0, results.0),
        is_finished::<u8, Product>(states.1, results.1),
        is_finished::<u8, Min>(states.2, results.2),
        is_finished::<u8, Max>(states.3, results.3),
    ensures
        values.len() > 0 ==> {
            &&& results.0 matches Ok(value) && Sum.reduces(values, value)
            &&& results.1 matches Ok(value) && Product.reduces(values, value)
            &&& results.2 matches Ok(value) && Min.reduces(values, value)
            &&& results.3 matches Ok(value) && Max.reduces(values, value)
        },
        values.len() == 0 ==> {
            &&& results.0 matches Ok(value) && value == 0
            &&& results.1 matches Ok(value) && value == 1
            &&& results.2 matches Err(Error::Unsupported(_))
            &&& results.3 matches Err(Error::Unsupported(_))
        },
{
}

/// An element of a reduction whose group has no supported value is zero, and any other is reduced
/// from them.
pub proof fn groups_without_values_are_zero<T: TensorElement, O: ReduceOp<T>>(
    op: O,
    values: Seq<T>,
    value: T,
)
    requires
        reduced_to(op, values, value),
    ensures
        values.len() == 0 ==> value == T::spec_zero(),
        values.len() > 0 ==> op.reduces(values, value),
{
}

} // verus!
