//! Reductions over the supported elements of an expression.

use vstd::prelude::*;
use crate::backend::{
    byte_factor, byte_sum, greatest_byte, is_greatest, is_least, least_byte, number_greatest,
    number_least, number_product, number_sum, product_bytes, sum_bytes, wrapped,
};
use crate::element::TensorElement;
use crate::error::{Error, Result};
use crate::expression::{batch_fits, EvaluatedBatch, mask_of, MAX_BATCH_ELEMENTS, supported_values};
use crate::geometry::{
    all_positive, coordinate_at, in_box, lemma_coordinate_position, lemma_position_coordinate,
    position_of, volume,
};
use crate::inline::{Axes, Bound, Range, Shape, Strides};
use crate::mapping::{
    broadcasted, chosen_permutation, contiguous, CoordinateMap, flip_fits, flipped, identity_map,
    kept, lemma_identity_offset, lemma_unravel, Mapping, marks, offset_at, reshaped, resolves,
    slice_fits, sliced, squeeze_base_fits, squeezed, transposed, unsqueezed,
};
use crate::matrix::{derive_layout, derived_layout};
use crate::request::{
    axes_fit, axes_of, axes_volume, Axis, axis_fits, box_coords, lemma_unit_box, Selection, within,
};
use crate::room::{map_room, transforms_stay_in_range};
use crate::schema::{are_strides, contiguous_strides, Layout, valid_dims, validate_shape_dims};
use crate::slice::Slice;
use crate::traits::{TensorGeometry, TensorTransform, TensorViewSemantics};
use crate::transform::{
    lemma_broadcast_places, lemma_flip_places, lemma_reshape_places, lemma_slice_places,
    lemma_squeeze_places, lemma_transpose_places, lemma_unsqueeze_places,
};

verus! {

/// Reductions that this library knows.
pub trait Sealed {

}

/// A reduction. Its arithmetic is that of the array library.
pub trait ReduceOp<T>: Sealed {
    /// The value is one that reduces these values, of which there is at least one. Where a
    /// reduction does not say, it is left open.
    open spec fn reduces(&self, values: Seq<T>, to: T) -> bool {
        true
    }

    /// Two partial results as one.
    spec fn spec_combine(left: T, right: T) -> T;

    /// The result where there is no value, if there is one.
    spec fn spec_empty() -> Option<T>;

    fn partial(&self, values: Vec<T>) -> (result: Result<T>)
        requires
            0 < values@.len() <= MAX_BATCH_ELEMENTS,
        ensures
            result is Ok,
            result matches Ok(to) ==> self.reduces(values@, to),
    ;

    fn combine(left: T, right: T) -> (to: T)
        ensures
            to == Self::spec_combine(left, right),
    ;

    fn empty() -> (result: Result<T>)
        ensures
            match Self::spec_empty() {
                Some(value) => result == Ok::<T, Error>(value),
                None => result matches Err(Error::Unsupported(_)),
            },
    ;
}

/// The sum of the supported values.
#[derive(Clone, Copy, Debug)]
pub struct Sum;

impl Sealed for Sum {

}

impl ReduceOp<u8> for Sum {
    open spec fn reduces(&self, values: Seq<u8>, to: u8) -> bool {
        to == wrapped(byte_sum(values))
    }

    open spec fn spec_combine(left: u8, right: u8) -> u8 {
        wrapped(left + right)
    }

    open spec fn spec_empty() -> Option<u8> {
        Some(0)
    }

    fn partial(&self, values: Vec<u8>) -> (result: Result<u8>) {
        match sum_bytes(values) {
            Ok(to) => Ok(to),
            Err(error) => Err(Error::Nd(error)),
        }
    }

    fn combine(left: u8, right: u8) -> (to: u8) {
        number_sum(left, right)
    }

    fn empty() -> (result: Result<u8>) {
        Ok(0)
    }
}

/// The product of the supported values.
#[derive(Clone, Copy, Debug)]
pub struct Product;

impl Sealed for Product {

}

impl ReduceOp<u8> for Product {
    open spec fn reduces(&self, values: Seq<u8>, to: u8) -> bool {
        to == wrapped(byte_factor(values))
    }

    open spec fn spec_combine(left: u8, right: u8) -> u8 {
        wrapped(left * right)
    }

    open spec fn spec_empty() -> Option<u8> {
        Some(1)
    }

    fn partial(&self, values: Vec<u8>) -> (result: Result<u8>) {
        match product_bytes(values) {
            Ok(to) => Ok(to),
            Err(error) => Err(Error::Nd(error)),
        }
    }

    fn combine(left: u8, right: u8) -> (to: u8) {
        number_product(left, right)
    }

    fn empty() -> (result: Result<u8>) {
        Ok(1)
    }
}

/// The least of the supported values.
#[derive(Clone, Copy, Debug)]
pub struct Min;

impl Sealed for Min {

}

impl ReduceOp<u8> for Min {
    open spec fn reduces(&self, values: Seq<u8>, to: u8) -> bool {
        is_least(values, to)
    }

    open spec fn spec_combine(left: u8, right: u8) -> u8 {
        if left <= right {
            left
        } else {
            right
        }
    }

    open spec fn spec_empty() -> Option<u8> {
        None
    }

    fn partial(&self, values: Vec<u8>) -> (result: Result<u8>) {
        match least_byte(values) {
            Ok(to) => Ok(to),
            Err(error) => Err(Error::Nd(error)),
        }
    }

    fn combine(left: u8, right: u8) -> (to: u8) {
        number_least(left, right)
    }

    fn empty() -> (result: Result<u8>) {
        Err(Error::Unsupported("min_all has empty support".to_string()))
    }
}

/// The greatest of the supported values.
#[derive(Clone, Copy, Debug)]
pub struct Max;

impl Sealed for Max {

}

impl ReduceOp<u8> for Max {
    open spec fn reduces(&self, values: Seq<u8>, to: u8) -> bool {
        is_greatest(values, to)
    }

    open spec fn spec_combine(left: u8, right: u8) -> u8 {
        if left >= right {
            left
        } else {
            right
        }
    }

    open spec fn spec_empty() -> Option<u8> {
        None
    }

    fn partial(&self, values: Vec<u8>) -> (result: Result<u8>) {
        match greatest_byte(values) {
            Ok(to) => Ok(to),
            Err(error) => Err(Error::Nd(error)),
        }
    }

    fn combine(left: u8, right: u8) -> (to: u8) {
        number_greatest(left, right)
    }

    fn empty() -> (result: Result<u8>) {
        Err(Error::Unsupported("max_all has empty support".to_string()))
    }
}

/// What was accumulated before and what comes after some more values.
pub open spec fn accumulates<T, O: ReduceOp<T>>(
    op: O,
    before: Option<T>,
    values: Seq<T>,
    after: Option<T>,
) -> bool {
    if values.len() == 0 {
        after == before
    } else {
        exists|partial: T| #[trigger]
            op.reduces(values, partial) && after == Some(
                match before {
                    Some(previous) => O::spec_combine(previous, partial),
                    None => partial,
                },
            )
    }
}

/// Add the supported values of a batch to what was accumulated. One value is kept, never a list.
pub fn accumulate<T: Copy, O: ReduceOp<T>>(
    op: &O,
    state: &mut Option<T>,
    batch: EvaluatedBatch<T>,
) -> (result: Result<()>)
    ensures
        result is Ok <==> batch_fits(
            batch.values@,
            mask_of(batch.support),
            batch.values@.len() as int,
        ),
        result is Ok ==> accumulates(
            *op,
            *old(state),
            supported_values(batch.values@, mask_of(batch.support)),
            *final(state),
        ),
        result matches Err(error) ==> error is InvalidLayout && *final(state) == *old(state),
{
    let ghost most = batch.values@;
    let ghost mask = mask_of(batch.support);
    let values = batch.populated()?;
    proof {
        lemma_supported_len(most, mask);
    }
    if values.len() > 0 {
        let partial = op.partial(values)?;
        let next = match *state {
            Some(previous) => O::combine(previous, partial),
            None => partial,
        };
        *state = Some(next);
    }
    Ok(())
}

proof fn lemma_supported_len<T>(values: Seq<T>, support: Option<Seq<u8>>)
    ensures
        supported_values(values, support).len() <= values.len(),
    decreases values.len(),
{
    if values.len() > 0 {
        lemma_supported_len(
            values.drop_last(),
            match support {
                Some(mask) => Some(mask.drop_last()),
                None => None,
            },
        );
    }
}

/// The result of a reduction of everything: what was accumulated, or else the result where there is
/// no value.
pub open spec fn is_finished<T, O: ReduceOp<T>>(state: Option<T>, result: Result<T>) -> bool {
    match (state, O::spec_empty()) {
        (Some(value), _) => result == Ok::<T, Error>(value),
        (None, Some(value)) => result == Ok::<T, Error>(value),
        (None, None) => result matches Err(Error::Unsupported(_)),
    }
}

/// The result of a reduction of everything.
pub fn finish<T, O: ReduceOp<T>>(state: Option<T>) -> (result: Result<T>)
    ensures
        is_finished::<T, O>(state, result),
        state matches Some(value) ==> result == Ok::<T, Error>(value),
{
    match state {
        Some(value) => Ok(value),
        None => O::empty(),
    }
}

/// Some value is zero.
pub open spec fn has_zero<T: TensorElement>(values: Seq<T>) -> bool {
    exists|i: int| 0 <= i < values.len() && (#[trigger] values[i]).spec_is_zero()
}

/// Some value is not zero.
pub open spec fn has_nonzero<T: TensorElement>(values: Seq<T>) -> bool {
    exists|i: int| 0 <= i < values.len() && !(#[trigger] values[i]).spec_is_zero()
}

/// Some value is zero, or some value is not.
fn any_zero<T: TensorElement>(values: &[T], zero: bool) -> (found: bool)
    ensures
        zero ==> found == has_zero(values@),
        !zero ==> found == has_nonzero(values@),
{
    let mut i: usize = 0;
    while i < values.len()
        invariant
            i <= values.len(),
            forall|j: int| 0 <= j < i ==> (#[trigger] values@[j]).spec_is_zero() != zero,
        decreases values.len() - i,
    {
        if values[i].is_zero() == zero {
            assert(values@[i as int].spec_is_zero() == zero);
            return true;
        }
        i += 1;
    }
    false
}

/// Some supported value of a batch is zero, so not all are nonzero.
pub open spec fn refutes<T: TensorElement>(values: Seq<T>, support: Option<Seq<u8>>) -> bool {
    has_zero(supported_values(values, support))
}

/// Some supported value of a batch is not zero.
pub open spec fn confirms<T: TensorElement>(values: Seq<T>, support: Option<Seq<u8>>) -> bool {
    has_nonzero(supported_values(values, support))
}

/// A batch settles that not all supported values are nonzero.
pub fn refutes_all<T: TensorElement>(batch: EvaluatedBatch<T>) -> (result: Result<bool>)
    ensures
        result is Ok <==> batch_fits(
            batch.values@,
            mask_of(batch.support),
            batch.values@.len() as int,
        ),
        result matches Ok(found) ==> found == refutes(batch.values@, mask_of(batch.support)),
        result matches Err(error) ==> error is InvalidLayout,
{
    let values = batch.populated()?;
    Ok(any_zero(values.as_slice(), true))
}

/// A batch settles that some supported value is nonzero.
pub fn confirms_any<T: TensorElement>(batch: EvaluatedBatch<T>) -> (result: Result<bool>)
    ensures
        result is Ok <==> batch_fits(
            batch.values@,
            mask_of(batch.support),
            batch.values@.len() as int,
        ),
        result matches Ok(found) ==> found == confirms(batch.values@, mask_of(batch.support)),
        result matches Err(error) ==> error is InvalidLayout,
{
    let values = batch.populated()?;
    Ok(any_zero(values.as_slice(), false))
}

/// What is accumulated is the reduction of the values so far; nothing if there are none.
pub open spec fn holds_reduction<T, O: ReduceOp<T>>(op: O, values: Seq<T>, state: Option<T>) -> bool {
    match state {
        Some(value) => values.len() > 0 && op.reduces(values, value),
        None => values.len() == 0,
    }
}

proof fn lemma_byte_sum_concat(left: Seq<u8>, right: Seq<u8>)
    ensures
        byte_sum(left + right) == byte_sum(left) + byte_sum(right),
    decreases right.len(),
{
    if right.len() == 0 {
        assert(left + right =~= left);
    } else {
        lemma_byte_sum_concat(left, right.drop_last());
        assert((left + right).drop_last() =~= left + right.drop_last());
    }
}

proof fn lemma_byte_factor_concat(left: Seq<u8>, right: Seq<u8>)
    ensures
        byte_factor(left + right) == byte_factor(left) * byte_factor(right),
    decreases right.len(),
{
    if right.len() == 0 {
        assert(left + right =~= left);
        assert(byte_factor(left) * 1 == byte_factor(left));
    } else {
        lemma_byte_factor_concat(left, right.drop_last());
        assert((left + right).drop_last() =~= left + right.drop_last());
        let a = byte_factor(left);
        let b = byte_factor(right.drop_last());
        let c = right.last() as int;
        assert((a * b) * c == a * (b * c)) by (nonlinear_arith);
    }
}

/// However values are cut into batches, their sum is accumulated.
pub proof fn sums_accumulate(seen: Seq<u8>, more: Seq<u8>, before: Option<u8>, after: Option<u8>)
    requires
        holds_reduction(Sum, seen, before),
        accumulates(Sum, before, more, after),
    ensures
        holds_reduction(Sum, seen + more, after),
{
    lemma_byte_sum_concat(seen, more);
    if more.len() == 0 {
        assert(seen + more =~= seen);
    } else if seen.len() == 0 {
        assert(seen + more =~= more);
    } else {
        let a = byte_sum(seen);
        let b = byte_sum(more);
        assert((a % 256 + b % 256) % 256 == (a + b) % 256) by (nonlinear_arith);
    }
}

/// However values are cut into batches, their product is accumulated.
pub proof fn products_accumulate(
    seen: Seq<u8>,
    more: Seq<u8>,
    before: Option<u8>,
    after: Option<u8>,
)
    requires
        holds_reduction(Product, seen, before),
        accumulates(Product, before, more, after),
    ensures
        holds_reduction(Product, seen + more, after),
{
    lemma_byte_factor_concat(seen, more);
    if more.len() == 0 {
        assert(seen + more =~= seen);
    } else if seen.len() == 0 {
        assert(seen + more =~= more);
    } else {
        vstd::arithmetic::div_mod::lemma_mul_mod_noop_general(
            byte_factor(seen),
            byte_factor(more),
            256,
        );
    }
}

/// However values are cut into batches, their least one is accumulated.
pub proof fn least_values_accumulate(
    seen: Seq<u8>,
    more: Seq<u8>,
    before: Option<u8>,
    after: Option<u8>,
)
    requires
        holds_reduction(Min, seen, before),
        accumulates(Min, before, more, after),
    ensures
        holds_reduction(Min, seen + more, after),
{
    let all = seen + more;
    if more.len() == 0 {
        assert(all =~= seen);
    } else if seen.len() == 0 {
        assert(all =~= more);
    } else {
        let least = after->Some_0;
        let partial = choose|partial: u8| #[trigger]
            Min.reduces(more, partial) && after == Some(
                Min::spec_combine(before->Some_0, partial),
            );
        if before->Some_0 <= partial {
            let i = choose|i: int| 0 <= i < seen.len() && seen[i] == before->Some_0;
            assert(all[i] == least);
        } else {
            let i = choose|i: int| 0 <= i < more.len() && more[i] == partial;
            assert(all[seen.len() + i] == least);
        }
        assert forall|i: int| 0 <= i < all.len() implies least <= #[trigger] all[i] by {
            if i < seen.len() {
                assert(before->Some_0 <= seen[i]);
            } else {
                assert(partial <= more[i - seen.len()]);
            }
        }
    }
}

/// However values are cut into batches, their greatest one is accumulated.
pub proof fn greatest_values_accumulate(
    seen: Seq<u8>,
    more: Seq<u8>,
    before: Option<u8>,
    after: Option<u8>,
)
    requires
        holds_reduction(Max, seen, before),
        accumulates(Max, before, more, after),
    ensures
        holds_reduction(Max, seen + more, after),
{
    let all = seen + more;
    if more.len() == 0 {
        assert(all =~= seen);
    } else if seen.len() == 0 {
        assert(all =~= more);
    } else {
        let greatest = after->Some_0;
        let partial = choose|partial: u8| #[trigger]
            Max.reduces(more, partial) && after == Some(
                Max::spec_combine(before->Some_0, partial),
            );
        if before->Some_0 >= partial {
            let i = choose|i: int| 0 <= i < seen.len() && seen[i] == before->Some_0;
            assert(all[i] == greatest);
        } else {
            let i = choose|i: int| 0 <= i < more.len() && more[i] == partial;
            assert(all[seen.len() + i] == greatest);
        }
        assert forall|i: int| 0 <= i < all.len() implies greatest >= #[trigger] all[i] by {
            if i < seen.len() {
                assert(before->Some_0 >= seen[i]);
            } else {
                assert(partial >= more[i - seen.len()]);
            }
        }
    }
}

/// No reduction depends on which of two batches comes first.
pub proof fn order_of_batches_does_not_matter(left: Seq<u8>, right: Seq<u8>, to: u8)
    ensures
        Sum.reduces(left + right, to) <==> Sum.reduces(right + left, to),
        Product.reduces(left + right, to) <==> Product.reduces(right + left, to),
        Min.reduces(left + right, to) <==> Min.reduces(right + left, to),
        Max.reduces(left + right, to) <==> Max.reduces(right + left, to),
{
    lemma_byte_sum_concat(left, right);
    lemma_byte_sum_concat(right, left);
    lemma_byte_factor_concat(left, right);
    lemma_byte_factor_concat(right, left);
    vstd::arithmetic::mul::lemma_mul_is_commutative(byte_factor(left), byte_factor(right));
    lemma_extremes_swap(left, right, to);
    lemma_extremes_swap(right, left, to);
}

proof fn lemma_extremes_swap(left: Seq<u8>, right: Seq<u8>, to: u8)
    ensures
        is_least(left + right, to) ==> is_least(right + left, to),
        is_greatest(left + right, to) ==> is_greatest(right + left, to),
{
    let one = left + right;
    let other = right + left;
    if one.contains(to) {
        let i = choose|i: int| 0 <= i < one.len() && one[i] == to;
        if i < left.len() {
            assert(other[right.len() + i] == to);
        } else {
            assert(other[i - left.len()] == to);
        }
    }
    assert forall|i: int| 0 <= i < other.len() implies one.contains(#[trigger] other[i]) by {
        if i < right.len() {
            assert(one[left.len() + i] == other[i]);
        } else {
            assert(one[i - right.len()] == other[i]);
        }
    }
    if is_least(one, to) {
        assert forall|i: int| 0 <= i < other.len() implies to <= #[trigger] other[i] by {
            let j = choose|j: int| 0 <= j < one.len() && one[j] == other[i];
            assert(to <= one[j]);
        }
    }
    if is_greatest(one, to) {
        assert forall|i: int| 0 <= i < other.len() implies to >= #[trigger] other[i] by {
            let j = choose|j: int| 0 <= j < one.len() && one[j] == other[i];
            assert(to >= one[j]);
        }
    }
}

/// The shape that is left when some axes are reduced.
pub open spec fn reduced_shape(shape: Seq<u64>, reduced: Seq<bool>, keepdims: bool) -> Seq<u64> {
    if keepdims {
        Seq::new(
            shape.len(),
            |i: int|
                if reduced[i] {
                    1
                } else {
                    shape[i]
                },
        )
    } else if kept(shape, reduced).len() == 0 {
        seq![1]
    } else {
        kept(shape, reduced)
    }
}

/// How many of the first axes are not reduced.
pub open spec fn kept_before(reduced: Seq<bool>, n: int) -> int
    decreases n,
{
    if n <= 0 {
        0
    } else if reduced[n - 1] {
        kept_before(reduced, n - 1)
    } else {
        kept_before(reduced, n - 1) + 1
    }
}

/// Where an axis that is not reduced stands in the result.
pub open spec fn output_axis(reduced: Seq<bool>, keepdims: bool, axis: int) -> int {
    if keepdims {
        axis
    } else {
        kept_before(reduced, axis)
    }
}

/// The elements of the source that are reduced to one: all along the reduced axes, and one along
/// the others.
pub open spec fn group_axes(
    shape: Seq<u64>,
    reduced: Seq<bool>,
    keepdims: bool,
    out: Seq<u64>,
) -> Seq<Selection> {
    Seq::new(
        shape.len(),
        |i: int|
            if reduced[i] {
                Selection::Span { start: 0, step: 1, len: shape[i] }
            } else {
                Selection::Span { start: out[output_axis(reduced, keepdims, i)], step: 1, len: 1 }
            },
    )
}

/// The element of the result that an element of the source goes to.
pub open spec fn projected(coord: Seq<u64>, reduced: Seq<bool>, keepdims: bool) -> Seq<u64> {
    if keepdims {
        Seq::new(
            coord.len(),
            |i: int|
                if reduced[i] {
                    0
                } else {
                    coord[i]
                },
        )
    } else if kept(coord, reduced).len() == 0 {
        seq![0]
    } else {
        kept(coord, reduced)
    }
}

proof fn lemma_kept_at<A>(items: Seq<A>, dropped: Seq<bool>, i: int)
    requires
        items.len() == dropped.len(),
        0 <= i < dropped.len(),
        !dropped[i],
    ensures
        0 <= kept_before(dropped, i) < kept(items, dropped).len(),
        kept(items, dropped)[kept_before(dropped, i)] == items[i],
        kept(items, dropped).len() == kept_before(dropped, dropped.len() as int),
    decreases dropped.len(),
{
    let init = dropped.drop_last();
    lemma_kept_before_prefix(dropped, i);
    lemma_kept_total(items, dropped);
    lemma_kept_total(items.drop_last(), init);
    lemma_kept_before_prefix(dropped, init.len() as int);
    if i < init.len() {
        assert(!init[i]);
        lemma_kept_at(items.drop_last(), init, i);
    }
}

proof fn lemma_kept_before_prefix(dropped: Seq<bool>, n: int)
    requires
        0 <= n < dropped.len(),
    ensures
        kept_before(dropped.drop_last(), n) == kept_before(dropped, n),
        0 <= kept_before(dropped, n),
    decreases n,
{
    if n > 0 {
        lemma_kept_before_prefix(dropped, n - 1);
        assert(dropped.drop_last()[n - 1] == dropped[n - 1]);
    }
}

proof fn lemma_kept_total<A>(items: Seq<A>, dropped: Seq<bool>)
    requires
        items.len() == dropped.len(),
    ensures
        kept(items, dropped).len() == kept_before(dropped, dropped.len() as int),
    decreases dropped.len(),
{
    if dropped.len() > 0 {
        lemma_kept_total(items.drop_last(), dropped.drop_last());
        lemma_kept_before_prefix(dropped, dropped.len() - 1);
    }
}

/// Every place of a list that leaves items out is that of an item that stays.
proof fn lemma_kept_from<A>(items: Seq<A>, dropped: Seq<bool>, p: int) -> (i: int)
    requires
        items.len() == dropped.len(),
        0 <= p < kept(items, dropped).len(),
    ensures
        0 <= i < items.len(),
        !dropped[i],
        kept_before(dropped, i) == p,
        kept(items, dropped)[p] == items[i],
    decreases dropped.len(),
{
    let init = dropped.drop_last();
    let before = kept(items.drop_last(), init);
    lemma_kept_total(items.drop_last(), init);
    lemma_kept_before_prefix(dropped, init.len() as int);
    if p < before.len() {
        let i = lemma_kept_from(items.drop_last(), init, p);
        lemma_kept_before_prefix(dropped, i);
        assert(!dropped[i]);
        i
    } else {
        dropped.len() - 1
    }
}

/// The elements that are reduced to one are those that go to it.
pub proof fn groups_hold_what_is_projected_to_them(
    shape: Seq<u64>,
    reduced: Seq<bool>,
    keepdims: bool,
    out: Seq<u64>,
    coord: Seq<u64>,
)
    requires
        valid_dims(shape),
        reduced.len() == shape.len(),
        in_box(out, reduced_shape(shape, reduced, keepdims)),
    ensures
        axes_fit(group_axes(shape, reduced, keepdims, out), shape),
        box_coords(group_axes(shape, reduced, keepdims, out)).no_duplicates(),
        box_coords(group_axes(shape, reduced, keepdims, out)).contains(coord) <==> in_box(
            coord,
            shape,
        ) && projected(coord, reduced, keepdims) == out,
{
    let axes = group_axes(shape, reduced, keepdims, out);
    let to = reduced_shape(shape, reduced, keepdims);
    assert forall|i: int| 0 <= i < shape.len() implies axis_fits(#[trigger] axes[i], shape[i]) && (
    !reduced[i] ==> 0 <= output_axis(reduced, keepdims, i) < out.len()) by {
        if !reduced[i] {
            let p = output_axis(reduced, keepdims, i);
            if !keepdims {
                lemma_kept_at(shape, reduced, i);
            }
            assert(out[p] < to[p]);
        }
    }
    lemma_unit_box(axes, shape, coord);
    let inside = coord.len() == axes.len() && forall|i: int|
        0 <= i < axes.len() ==> within(#[trigger] axes[i], coord[i]);
    let image = projected(coord, reduced, keepdims);
    if inside {
        assert forall|i: int| 0 <= i < shape.len() implies #[trigger] coord[i] < shape[i] by {
            assert(within(axes[i], coord[i]));
            assert(axis_fits(axes[i], shape[i]));
        }
        if keepdims {
            assert forall|i: int| 0 <= i < shape.len() implies #[trigger] image[i] == out[i] by {
                assert(within(axes[i], coord[i]));
                assert(out[i] < to[i]);
            }
            assert(image =~= out);
        } else {
            lemma_kept_total(coord, reduced);
            lemma_kept_total(shape, reduced);
            if kept(coord, reduced).len() == 0 {
                assert(out[0] < to[0]);
                assert(image =~= out);
            } else {
                assert forall|p: int| 0 <= p < image.len() implies #[trigger] image[p]
                    == out[p] by {
                    let i = lemma_kept_from(coord, reduced, p);
                    assert(within(axes[i], coord[i]));
                }
                assert(image =~= out);
            }
        }
    }
    if in_box(coord, shape) && image == out {
        assert forall|i: int| 0 <= i < axes.len() implies within(#[trigger] axes[i], coord[i]) by {
            assert(coord[i] < shape[i]);
            if !reduced[i] {
                if keepdims {
                    assert(image[i] == coord[i]);
                } else {
                    lemma_kept_at(coord, reduced, i);
                }
            }
        }
    }
}

/// A lazy reduction of some axes of a source. Transforms address the result.
#[derive(Clone, Debug)]
pub struct ReduceView<Source, Op> {
    source: Source,
    reduced: Vec<bool>,
    keepdims: bool,
    output_shape: Shape,
    output_strides: Strides,
    mapping: CoordinateMap,
    op: Op,
}

impl<S, O> ReduceView<S, O> {
    pub closed spec fn spec_source(&self) -> S {
        self.source
    }

    pub closed spec fn spec_op(&self) -> O {
        self.op
    }

    pub closed spec fn spec_reduced(&self) -> Seq<bool> {
        self.reduced@
    }

    pub closed spec fn spec_keepdims(&self) -> bool {
        self.keepdims
    }

    pub closed spec fn spec_mapping(&self) -> Mapping {
        self.mapping@
    }

    /// The other view is one of the same reduction.
    pub open spec fn same_source(&self, other: &Self) -> bool {
        &&& self.spec_source() == other.spec_source()
        &&& self.spec_op() == other.spec_op()
        &&& self.spec_reduced() == other.spec_reduced()
        &&& self.spec_keepdims() == other.spec_keepdims()
        &&& self.spec_output_strides() == other.spec_output_strides()
    }

    pub closed spec fn spec_output_strides(&self) -> Seq<u64> {
        self.output_strides@
    }

    pub fn source(&self) -> (source: &S)
        ensures
            *source == self.spec_source(),
    {
        &self.source
    }

    pub fn op(&self) -> (op: &O)
        ensures
            *op == self.spec_op(),
    {
        &self.op
    }
}

impl<S: TensorGeometry, O> ReduceView<S, O> {
    pub closed spec fn wf(&self) -> bool {
        &&& valid_dims(self.source.spec_shape())
        &&& self.reduced@.len() == self.source.spec_shape().len()
        &&& self.output_shape@ == reduced_shape(
            self.source.spec_shape(),
            self.reduced@,
            self.keepdims,
        )
        &&& all_positive(self.output_shape@)
        &&& are_strides(self.output_strides@, self.output_shape@)
        &&& self.mapping.wf()
    }

    /// The shape of the result before any transform.
    pub open spec fn spec_output_shape(&self) -> Seq<u64> {
        reduced_shape(
            self.spec_source().spec_shape(),
            self.spec_reduced(),
            self.spec_keepdims(),
        )
    }

    /// Reduce the named axes of a source; an axis may be named more than once. With `keepdims`
    /// they stay, with a single index.
    pub fn new(source: S, axes: Axes, keepdims: bool, op: O) -> (result: Result<Self>)
        ensures
            result is Ok <==> {
                let shape = source.spec_shape();
                let reduced = marks(shape.len(), axes@);
                &&& valid_dims(shape)
                &&& axes_below(axes@, shape.len())
                &&& volume(reduced_shape(shape, reduced, keepdims).skip(1)) <= u64::MAX
            },
            result matches Ok(view) ==> {
                &&& view.wf()
                &&& view.spec_source() == source
                &&& view.spec_op() == op
                &&& view.spec_reduced() == marks(source.spec_shape().len(), axes@)
                &&& view.spec_keepdims() == keepdims
                &&& view.spec_shape() == view.spec_output_shape()
                &&& are_strides(view.spec_output_strides(), view.spec_output_shape())
                &&& view.spec_mapping() == identity_map(
                    view.spec_output_shape(),
                    view.spec_output_strides(),
                )
            },
            (result matches Err(Error::InvalidLayout(_))) <==> valid_dims(source.spec_shape())
                && !axes_below(axes@, source.spec_shape().len()),
            result matches Err(error) ==> error is InvalidLayout || error is InvalidSchema,
    {
        let dims = source.shape();
        validate_shape_dims(dims)?;
        let rank: usize = dims.len();
        let ghost shape = source.spec_shape();
        let reduced = mark_reduced(axes.as_slice(), rank)?;
        let ghost target = reduced_shape(shape, reduced@, keepdims);
        let mut out: Vec<u64> = Vec::new();
        let mut i: usize = 0;
        while i < rank
            invariant
                i <= rank,
                rank == dims@.len(),
                dims@ == shape,
                reduced@.len() == rank,
                all_positive(shape),
                all_positive(out@),
                keepdims ==> out@ == reduced_shape(shape, reduced@, true).take(i as int),
                !keepdims ==> out@ == kept(shape.take(i as int), reduced@.take(i as int)),
            decreases rank - i,
        {
            let ghost before = out@;
            proof {
                assert(shape[i as int] > 0);
                assert(shape.take(i + 1).drop_last() =~= shape.take(i as int));
                assert(reduced@.take(i + 1).drop_last() =~= reduced@.take(i as int));
                assert(shape.take(i + 1).last() == shape[i as int]);
                assert(reduced@.take(i + 1).last() == reduced@[i as int]);
            }
            if !reduced[i] {
                out.push(dims[i]);
            } else if keepdims {
                out.push(1);
            }
            i += 1;
            proof {
                if keepdims {
                    assert(out@ =~= reduced_shape(shape, reduced@, true).take(i as int));
                }
                assert forall|j: int| 0 <= j < out@.len() implies #[trigger] out@[j] > 0 by {
                    if j < before.len() {
                        assert(before[j] > 0);
                    }
                }
            }
        }
        if out.len() == 0 {
            out.push(1);
        }
        proof {
            assert(shape.take(rank as int) =~= shape);
            assert(reduced@.take(rank as int) =~= reduced@);
            assert(out@ =~= target);
        }
        let output_shape = Shape::from_vec(out);
        let output_strides = contiguous_strides(output_shape.as_slice())?;
        let mapping = CoordinateMap::identity(output_shape.clone(), output_strides.as_slice());
        Ok(ReduceView { source, reduced, keepdims, output_shape, output_strides, mapping, op })
    }

    /// The coordinate in the result, before any transform, of an element.
    pub open spec fn output_coord(&self, coord: Seq<u64>) -> Seq<u64> {
        coordinate_at(offset_at(self.spec_mapping(), coord), self.spec_output_shape())
    }

    /// The elements of the source that an element of the view is reduced from.
    pub open spec fn spec_group(&self, coord: Seq<u64>) -> Seq<Selection> {
        group_axes(
            self.spec_source().spec_shape(),
            self.spec_reduced(),
            self.spec_keepdims(),
            self.output_coord(coord),
        )
    }

    /// The element of the view stands in the result.
    pub open spec fn has_group(&self, coord: Seq<u64>) -> bool {
        resolves(
            self.spec_mapping(),
            coord,
            self.spec_output_shape(),
            self.spec_output_strides(),
        )
    }

    /// The elements of the source that an element of the view is reduced from, axis by axis.
    pub fn source_group_axes(&self, coord: &[u64]) -> (result: Result<Vec<Axis>>)
        requires
            self.wf(),
        ensures
            result is Ok <==> self.has_group(coord@),
            result matches Ok(axes) ==> axes_of(axes@) == self.spec_group(coord@) && axes_fit(
                axes_of(axes@),
                self.spec_source().spec_shape(),
            ),
            result matches Err(error) ==> error is InvalidCoord,
    {
        let out = self.mapping.resolve(
            coord,
            self.output_shape.as_slice(),
            self.output_strides.as_slice(),
        )?;
        let dims = self.source.shape();
        let ghost shape = self.source.spec_shape();
        let ghost target = self.spec_group(coord@);
        let ghost at = self.output_coord(coord@);
        proof {
            lemma_unravel(offset_at(self.mapping@, coord@), self.output_shape@, self.output_strides@);
            lemma_coordinate_position(offset_at(self.mapping@, coord@), self.output_shape@);
            groups_hold_what_is_projected_to_them(shape, self.reduced@, self.keepdims, at, at);
        }
        let mut axes: Vec<Axis> = Vec::new();
        let mut next: usize = 0;
        let mut i: usize = 0;
        while i < dims.len()
            invariant
                i <= dims.len(),
                self.wf(),
                dims@ == shape,
                shape == self.source.spec_shape(),
                target == group_axes(shape, self.reduced@, self.keepdims, at),
                out@ == at,
                in_box(at, self.output_shape@),
                next <= i,
                next == kept_before(self.reduced@, i as int),
                axes.len() == i,
                forall|j: int| 0 <= j < i ==> (#[trigger] axes@[j])@ == target[j],
            decreases dims.len() - i,
        {
            if self.reduced[i] {
                axes.push(Axis::range(0, dims[i]));
            } else {
                proof {
                    if !self.keepdims {
                        lemma_kept_at(shape, self.reduced@, i as int);
                    }
                    assert(at.len() == self.output_shape@.len());
                }
                let place: usize = if self.keepdims {
                    i
                } else {
                    next
                };
                next += 1;
                axes.push(Axis::range(out[place], 1));
            }
            i += 1;
        }
        proof {
            assert(axes_of(axes@) =~= target);
        }
        Ok(axes)
    }

    /// The elements of the source that an element of the view is reduced from.
    pub fn group(&self, coord: &[u64]) -> (result: Result<Slice>)
        requires
            self.wf(),
        ensures
            result is Ok <==> self.has_group(coord@) && axes_volume(self.spec_group(coord@))
                <= u64::MAX,
            result matches Ok(slice) ==> slice.wf() && slice@ == self.spec_group(coord@),
            (result matches Err(Error::InvalidCoord(_))) <==> !self.has_group(coord@),
            result matches Err(error) ==> error is InvalidCoord || error is InvalidLayout,
    {
        let axes = self.source_group_axes(coord)?;
        Slice::new(self.source.shape(), axes)
    }
}

/// All numbers are below the rank.
pub open spec fn axes_below(axes: Seq<usize>, rank: nat) -> bool {
    forall|i: int| 0 <= i < axes.len() ==> #[trigger] axes[i] < rank
}

/// Mark the axes that are named.
fn mark_reduced(axes: &[usize], rank: usize) -> (result: Result<Vec<bool>>)
    ensures
        result is Ok <==> axes_below(axes@, rank as nat),
        result matches Ok(reduced) ==> reduced@ == marks(rank as nat, axes@),
        result matches Err(error) ==> error is InvalidLayout,
{
    let mut reduced: Vec<bool> = vec![false; rank];
    let mut i: usize = 0;
    while i < axes.len()
        invariant
            i <= axes.len(),
            reduced@.len() == rank,
            forall|j: int| 0 <= j < i ==> #[trigger] axes@[j] < rank,
            forall|a: int|
                0 <= a < rank ==> #[trigger] reduced@[a] == axes@.take(i as int).contains(
                    a as usize,
                ),
        decreases axes.len() - i,
    {
        let axis: usize = axes[i];
        if axis >= rank {
            assert(!(axes@[i as int] < rank));
            return Err(Error::InvalidLayout("reduction axis out of bounds".to_string()));
        }
        let ghost before = reduced@;
        reduced.set(axis, true);
        proof {
            let old_axes = axes@.take(i as int);
            let new_axes = axes@.take(i + 1);
            assert forall|a: int| 0 <= a < rank implies #[trigger] reduced@[a]
                == new_axes.contains(a as usize) by {
                if a == axis {
                    assert(new_axes[i as int] == axis);
                } else {
                    assert(before[a] == old_axes.contains(a as usize));
                    if old_axes.contains(a as usize) {
                        let j = choose|j: int|
                            0 <= j < old_axes.len() && old_axes[j] == a as usize;
                        assert(new_axes[j] == a as usize);
                    }
                    if new_axes.contains(a as usize) {
                        let j = choose|j: int|
                            0 <= j < new_axes.len() && new_axes[j] == a as usize;
                        assert(j < i);
                        assert(old_axes[j] == a as usize);
                    }
                }
            }
        }
        i += 1;
    }
    proof {
        assert(axes@.take(i as int) =~= axes@);
        assert(reduced@ =~= marks(rank as nat, axes@));
    }
    Ok(reduced)
}

impl<S: TensorGeometry, O> TensorGeometry for ReduceView<S, O> {
    open spec fn spec_shape(&self) -> Seq<u64> {
        self.spec_mapping().shape
    }

    open spec fn spec_layout(&self) -> Layout {
        derived_layout(self.spec_source().spec_layout())
    }

    fn shape(&self) -> (shape: &[u64]) {
        self.mapping.shape.as_slice()
    }

    fn layout(&self) -> (layout: Layout) {
        derive_layout(self.source.layout())
    }
}

impl<S: TensorGeometry, O> TensorViewSemantics for ReduceView<S, O> {
    open spec fn spec_is_base(&self) -> bool {
        false
    }

    open spec fn spec_writes_through(&self) -> bool {
        false
    }

    fn is_base_tensor(&self) -> (base: bool) {
        false
    }

    fn supports_write_through(&self) -> (writes: bool) {
        false
    }
}

impl<S: TensorGeometry, O> TensorTransform for ReduceView<S, O> {
    closed spec fn inv(&self) -> bool {
        self.wf()
    }

    open spec fn places(&self, coord: Seq<u64>) -> Seq<int> {
        seq![offset_at(self.spec_mapping(), coord)]
    }

    open spec fn is_contiguous(&self) -> bool {
        contiguous(self.spec_mapping())
    }

    open spec fn room(&self, n: int) -> bool {
        map_room(self.spec_mapping(), n)
    }

    open spec fn flips_in_range(&self, axis: int) -> bool {
        flip_fits(self.spec_mapping(), axis)
    }

    open spec fn slices_in_range(&self, range: Seq<Bound>) -> bool {
        slice_fits(self.spec_mapping(), range)
    }

    open spec fn squeezes_in_range(&self, axes: Seq<usize>) -> bool {
        squeeze_base_fits(self.spec_mapping(), axes)
    }

    proof fn lemma_in_range(&self, n: int) {
        assert(self.mapping.axes.len() == self.mapping@.axes.len());
        transforms_stay_in_range(self.mapping@, n);
    }

    fn reshape(self, shape: Shape) -> (result: Result<Self>)
        ensures
            result matches Ok(view) ==> view.same_source(&self) && view.spec_mapping()
                == reshaped(self.spec_mapping(), shape@),
    {
        let ghost map = self.mapping@;
        let mapping = self.mapping.reshape(shape)?;
        proof {
            lemma_reshape_places(map, shape@);
        }
        Ok(
            Self {
                source: self.source,
                reduced: self.reduced,
                keepdims: self.keepdims,
                output_shape: self.output_shape,
                output_strides: self.output_strides,
                op: self.op,
                mapping,
            },
        )
    }

    fn broadcast(self, shape: Shape) -> (result: Result<Self>)
        ensures
            result matches Ok(view) ==> view.same_source(&self) && view.spec_mapping()
                == broadcasted(self.spec_mapping(), shape@),
    {
        let ghost map = self.mapping@;
        let mapping = self.mapping.broadcast(shape)?;
        proof {
            lemma_broadcast_places(map, shape@);
        }
        Ok(
            Self {
                source: self.source,
                reduced: self.reduced,
                keepdims: self.keepdims,
                output_shape: self.output_shape,
                output_strides: self.output_strides,
                op: self.op,
                mapping,
            },
        )
    }

    fn flip(self, axis: usize) -> (result: Result<Self>)
        ensures
            result matches Ok(view) ==> view.same_source(&self) && view.spec_mapping()
                == flipped(self.spec_mapping(), axis as int),
    {
        let ghost map = self.mapping@;
        let mapping = self.mapping.flip(axis)?;
        proof {
            lemma_flip_places(map, axis as int);
        }
        Ok(
            Self {
                source: self.source,
                reduced: self.reduced,
                keepdims: self.keepdims,
                output_shape: self.output_shape,
                output_strides: self.output_strides,
                op: self.op,
                mapping,
            },
        )
    }

    fn slice(self, range: Range) -> (result: Result<Self>)
        ensures
            result matches Ok(view) ==> view.same_source(&self) && view.spec_mapping()
                == sliced(self.spec_mapping(), range@),
    {
        let ghost map = self.mapping@;
        let mapping = self.mapping.slice(range)?;
        proof {
            lemma_slice_places(map, range@);
        }
        Ok(
            Self {
                source: self.source,
                reduced: self.reduced,
                keepdims: self.keepdims,
                output_shape: self.output_shape,
                output_strides: self.output_strides,
                op: self.op,
                mapping,
            },
        )
    }

    fn squeeze(self, axes: Axes) -> (result: Result<Self>)
        ensures
            result matches Ok(view) ==> view.same_source(&self) && view.spec_mapping()
                == squeezed(self.spec_mapping(), axes@),
    {
        let ghost map = self.mapping@;
        let rank: usize = self.mapping.shape.len();
        let mapping = self.mapping.squeeze(axes)?;
        proof {
            assert(rank == map.shape.len());
            lemma_squeeze_places(map, axes@);
        }
        Ok(
            Self {
                source: self.source,
                reduced: self.reduced,
                keepdims: self.keepdims,
                output_shape: self.output_shape,
                output_strides: self.output_strides,
                op: self.op,
                mapping,
            },
        )
    }

    fn transpose(self, permutation: Option<Axes>) -> (result: Result<Self>)
        ensures
            result matches Ok(view) ==> view.same_source(&self) && view.spec_mapping()
                == transposed(
                    self.spec_mapping(),
                    chosen_permutation(permutation, self.spec_shape().len()),
                ),
    {
        let ghost map = self.mapping@;
        let rank: usize = self.mapping.shape.len();
        let mapping = self.mapping.transpose(permutation)?;
        proof {
            assert(rank == map.shape.len());
            lemma_transpose_places(map, chosen_permutation(permutation, map.shape.len()));
        }
        Ok(
            Self {
                source: self.source,
                reduced: self.reduced,
                keepdims: self.keepdims,
                output_shape: self.output_shape,
                output_strides: self.output_strides,
                op: self.op,
                mapping,
            },
        )
    }

    fn unsqueeze(self, axes: Axes) -> (result: Result<Self>)
        ensures
            result matches Ok(view) ==> view.same_source(&self) && view.spec_mapping()
                == unsqueezed(self.spec_mapping(), axes@),
    {
        let ghost map = self.mapping@;
        let mapping = self.mapping.unsqueeze(axes)?;
        proof {
            lemma_unsqueeze_places(map, axes@);
        }
        Ok(
            Self {
                source: self.source,
                reduced: self.reduced,
                keepdims: self.keepdims,
                output_shape: self.output_shape,
                output_strides: self.output_strides,
                op: self.op,
                mapping,
            },
        )
    }
}

/// Where an axis that stays stands in the result: behind the axes before it that stay.
pub open spec fn place_of_axis(reduced: Seq<bool>, keepdims: bool, axis: int) -> int {
    if keepdims {
        axis
    } else {
        reduced.take(axis).filter(|gone: bool| !gone).len() as int
    }
}

proof fn lemma_place_of_axis(reduced: Seq<bool>, n: int)
    requires
        0 <= n <= reduced.len(),
    ensures
        kept_before(reduced, n) == reduced.take(n).filter(|gone: bool| !gone).len(),
    decreases n,
{
    reveal(Seq::filter);
    if n > 0 {
        lemma_place_of_axis(reduced, n - 1);
        assert(reduced.take(n).drop_last() =~= reduced.take(n - 1));
        assert(reduced.take(n).last() == reduced[n - 1]);
    }
}

/// Reduced axes have a single index in the result, or none, and the others keep their dimension and
/// their order. A result without axes has a single element.
pub proof fn reduced_shapes_keep_the_other_axes(
    shape: Seq<u64>,
    axes: Seq<usize>,
    keepdims: bool,
    i: int,
)
    requires
        0 <= i < shape.len() <= usize::MAX,
    ensures
        ({
            let reduced = marks(shape.len(), axes);
            let out = reduced_shape(shape, reduced, keepdims);
            let place = place_of_axis(reduced, keepdims, i);
            let left = reduced.filter(|gone: bool| !gone).len();
            &&& reduced.len() == shape.len()
            &&& reduced[i] <==> axes.contains(i as usize)
            &&& !reduced[i] ==> 0 <= place < out.len() && out[place] == shape[i]
            &&& keepdims ==> out.len() == shape.len() && (reduced[i] ==> out[i] == 1)
            &&& !keepdims && left > 0 ==> out.len() == left
            &&& !keepdims && left == 0 ==> out == seq![1u64]
        }),
{
    let reduced = marks(shape.len(), axes);
    let n = shape.len() as int;
    lemma_place_of_axis(reduced, i);
    lemma_place_of_axis(reduced, n);
    assert(reduced.take(n) =~= reduced);
    lemma_kept_total(shape, reduced);
    if !reduced[i] {
        lemma_kept_at(shape, reduced, i);
    }
}

impl<S: TensorGeometry, O> ReduceView<S, O> {
    pub proof fn lemma_wf(&self)
        requires
            self.wf(),
        ensures
            valid_dims(self.spec_source().spec_shape()),
            self.spec_reduced().len() == self.spec_source().spec_shape().len(),
            all_positive(self.spec_output_shape()),
            are_strides(self.spec_output_strides(), self.spec_output_shape()),
    {
    }
}

/// What an element of a reduction is reduced from: with `at` the coordinate in the result that the
/// view shows there, each element of the source that agrees with it on the axes that stay, whatever
/// it has on the reduced ones, and each once.
pub proof fn groups_hold_what_agrees_on_the_other_axes<S: TensorGeometry, O>(
    view: ReduceView<S, O>,
    coord: Seq<u64>,
    at: Seq<u64>,
    source: Seq<u64>,
)
    requires
        view.wf(),
        in_box(at, view.spec_output_shape()),
        position_of(at, view.spec_output_shape()) == view.places(coord)[0],
    ensures
        ({
            let group = box_coords(view.spec_group(coord));
            let reduced = view.spec_reduced();
            let keepdims = view.spec_keepdims();
            &&& group.no_duplicates()
            &&& group.contains(source) <==> {
                &&& in_box(source, view.spec_source().spec_shape())
                &&& forall|i: int|
                    0 <= i < source.len() && !#[trigger] reduced[i] ==> source[i]
                        == at[place_of_axis(reduced, keepdims, i)]
            }
        }),
{
    let shape = view.spec_source().spec_shape();
    let reduced = view.spec_reduced();
    let keepdims = view.spec_keepdims();
    view.lemma_wf();
    lemma_position_coordinate(at, view.spec_output_shape());
    assert(view.output_coord(coord) == at);
    groups_hold_what_is_projected_to_them(shape, reduced, keepdims, at, source);
    let axes = group_axes(shape, reduced, keepdims, at);
    assert(axes_fit(axes, shape));
    lemma_unit_box(axes, shape, source);
    assert forall|i: int| 0 <= i < shape.len() implies output_axis(reduced, keepdims, i)
        == #[trigger] place_of_axis(reduced, keepdims, i) by {
        lemma_place_of_axis(reduced, i);
    }
    let agrees = in_box(source, shape) && forall|i: int|
        0 <= i < source.len() && !#[trigger] reduced[i] ==> source[i] == at[place_of_axis(
            reduced,
            keepdims,
            i,
        )];
    if agrees {
        assert forall|i: int| 0 <= i < axes.len() implies within(#[trigger] axes[i], source[i]) by {
            assert(source[i] < shape[i]);
            if !reduced[i] {
                assert(source[i] == at[place_of_axis(reduced, keepdims, i)]);
            }
        }
    }
    if box_coords(axes).contains(source) {
        assert forall|i: int| 0 <= i < source.len() && !#[trigger] reduced[i] implies source[i]
            == at[place_of_axis(reduced, keepdims, i)] by {
            assert(within(axes[i], source[i]));
        }
    }
}

/// The elements of an untransformed result share out the source: each element of the source goes to
/// exactly one of them, and the one at a coordinate gets those that agree with the coordinate on
/// the axes that stay.
pub proof fn groups_share_out_the_source<S: TensorGeometry, O>(
    view: ReduceView<S, O>,
    source: Seq<u64>,
)
    requires
        view.wf(),
        view.spec_mapping() == identity_map(view.spec_output_shape(), view.spec_output_strides()),
        in_box(source, view.spec_source().spec_shape()),
    ensures
        exists|coord: Seq<u64>| #[trigger]
            in_box(coord, view.spec_output_shape()) && box_coords(
                view.spec_group(coord),
            ).contains(source),
        forall|left: Seq<u64>, right: Seq<u64>|
            #[trigger] in_box(left, view.spec_output_shape()) && #[trigger] in_box(
                right,
                view.spec_output_shape(),
            ) && box_coords(view.spec_group(left)).contains(source) && box_coords(
                view.spec_group(right),
            ).contains(source) ==> left == right,
        forall|coord: Seq<u64>, i: int|
            #![trigger in_box(coord, view.spec_output_shape()), view.spec_reduced()[i]]
            in_box(coord, view.spec_output_shape()) && box_coords(
                view.spec_group(coord),
            ).contains(source) && 0 <= i < source.len() && !view.spec_reduced()[i] ==> coord[
                place_of_axis(view.spec_reduced(), view.spec_keepdims(), i)
            ] == source[i],
{
    let shape = view.spec_source().spec_shape();
    let out = view.spec_output_shape();
    let reduced = view.spec_reduced();
    let keepdims = view.spec_keepdims();
    view.lemma_wf();
    assert forall|coord: Seq<u64>| #[trigger] in_box(coord, out) implies (box_coords(
        view.spec_group(coord),
    ).contains(source) <==> projected(source, reduced, keepdims) == coord) by {
        lemma_identity_offset(out, view.spec_output_strides(), coord);
        lemma_position_coordinate(coord, out);
        groups_hold_what_is_projected_to_them(shape, reduced, keepdims, coord, source);
    }
    assert forall|coord: Seq<u64>, i: int|
        #![trigger in_box(coord, out), reduced[i]]
        in_box(coord, out) && box_coords(view.spec_group(coord)).contains(source) && 0 <= i
            < source.len() && !reduced[i] implies coord[place_of_axis(reduced, keepdims, i)]
        == source[i] by {
        lemma_identity_offset(out, view.spec_output_strides(), coord);
        groups_hold_what_agrees_on_the_other_axes(view, coord, coord, source);
    }
    let image = projected(source, reduced, keepdims);
    lemma_kept_total(shape, reduced);
    lemma_kept_total(source, reduced);
    assert forall|p: int| 0 <= p < out.len() implies #[trigger] image[p] < out[p] by {
        if !keepdims && kept(shape, reduced).len() > 0 {
            let i = lemma_kept_from(shape, reduced, p);
            lemma_kept_at(source, reduced, i);
            assert(source[i] < shape[i]);
        } else if keepdims {
            assert(source[p] < shape[p]);
        }
    }
    assert(in_box(image, out));
}

} // verus!
