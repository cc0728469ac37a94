//! What a whole batch of a reduction holds: for every requested element the reduction of its group.

use vstd::prelude::*;
use crate::backend::{byte_factor, byte_sum, is_greatest, is_least};
use crate::element::TensorElement;
use crate::expression::{answers, Source, supported, supported_values};
use crate::geometry::lemma_volume_positive;
use crate::groups::{group_part, group_pushed, group_start, groups_pushed, packs, reduced_to};
use crate::reduce::{holds_reduction, Max, Min, Product, ReduceOp, Sum};
use crate::request::{
    axes_lens, axes_volume, box_coords, boxes_coords, request_coords, Requested, Selection,
};

verus! {

/// The supported values of a source at some coordinates, in order.
pub open spec fn supported_at<T>(source: Source<T>, coords: Seq<Seq<u64>>) -> Seq<T>
    decreases coords.len(),
{
    if coords.len() == 0 {
        Seq::empty()
    } else {
        let before = supported_at(source, coords.drop_last());
        if (source.supported)(coords.last()) {
            before.push((source.value)(coords.last()))
        } else {
            before
        }
    }
}

/// What counts of a source are its values at the supported coordinates, in order.
pub proof fn supported_coordinates_give_their_values<T>(source: Source<T>, coords: Seq<Seq<u64>>)
    ensures
        supported_at(source, coords) == coords.filter(source.supported).map_values(source.value),
    decreases coords.len(),
{
    reveal(Seq::filter);
    if coords.len() > 0 {
        let before = coords.drop_last().filter(source.supported);
        supported_coordinates_give_their_values(source, coords.drop_last());
        assert(before.push(coords.last()).map_values(source.value) =~= before.map_values(
            source.value,
        ).push((source.value)(coords.last())));
    } else {
        assert(coords.filter(source.supported).map_values(source.value) =~= Seq::<T>::empty());
    }
}

/// A batch gives the supported values at its coordinates.
pub proof fn batches_give_supported_values<T>(
    source: Source<T>,
    coords: Seq<Seq<u64>>,
    values: Seq<T>,
    mask: Option<Seq<u8>>,
)
    requires
        answers(source, coords, values, mask),
    ensures
        supported_values(values, mask) == supported_at(source, coords),
    decreases coords.len(),
{
    if coords.len() > 0 {
        let less = match mask {
            Some(mask) => Some(mask.drop_last()),
            None => None,
        };
        let init = coords.drop_last();
        assert forall|i: int| 0 <= i < init.len() implies values.drop_last()[i] == (source.value)(
            #[trigger] init[i],
        ) && (supported(less, i) <==> (source.supported)(init[i])) by {
            assert(init[i] == coords[i]);
        }
        batches_give_supported_values(source, init, values.drop_last(), less);
        assert(coords[coords.len() - 1] == coords.last());
    }
}

/// The supported values of two lists of coordinates follow each other.
pub proof fn lemma_supported_concat<T>(
    source: Source<T>,
    left: Seq<Seq<u64>>,
    right: Seq<Seq<u64>>,
)
    ensures
        supported_at(source, left + right) == supported_at(source, left) + supported_at(
            source,
            right,
        ),
    decreases right.len(),
{
    if right.len() == 0 {
        assert(left + right =~= left);
        assert(supported_at(source, left + right) =~= supported_at(source, left) + supported_at(
            source,
            right,
        ));
    } else {
        lemma_supported_concat(source, left, right.drop_last());
        assert((left + right).drop_last() =~= left + right.drop_last());
        assert(supported_at(source, left + right) =~= supported_at(source, left) + supported_at(
            source,
            right,
        ));
    }
}

/// The values and the support are those of the first groups.
pub open spec fn holds_groups<T: TensorElement, O: ReduceOp<T>>(
    op: O,
    source: Source<T>,
    groups: Seq<Seq<Selection>>,
    values: Seq<T>,
    mask: Option<Seq<u8>>,
) -> bool {
    &&& values.len() <= groups.len()
    &&& forall|k: int|
        0 <= k < values.len() ==> reduced_to(
            op,
            supported_at(source, box_coords(groups[k])),
            #[trigger] values[k],
        )
    &&& mask matches Some(mask) ==> mask.len() == values.len() && forall|k: int|
        0 <= k < mask.len() ==> #[trigger] mask[k] == if supported_at(
            source,
            box_coords(groups[k]),
        ).len() > 0 {
            1u8
        } else {
            0u8
        }
}

proof fn lemma_box_len(axes: Seq<Selection>)
    ensures
        box_coords(axes).len() == axes_volume(axes),
{
    lemma_volume_positive(axes_lens(axes));
}

/// Where the coordinates of a box stand among those of all boxes.
proof fn lemma_boxes_part(boxes: Seq<Seq<Selection>>, lengths: Seq<usize>, i: int)
    requires
        lengths.len() == boxes.len(),
        forall|k: int| 0 <= k < lengths.len() ==> #[trigger] lengths[k] == axes_volume(boxes[k]),
        0 <= i < boxes.len(),
    ensures
        0 <= group_start(lengths, i),
        group_start(lengths, i + 1) == group_start(lengths, i) + box_coords(boxes[i]).len(),
        group_start(lengths, i + 1) <= boxes_coords(boxes).len(),
        boxes_coords(boxes).subrange(group_start(lengths, i), group_start(lengths, i + 1))
            == box_coords(boxes[i]),
    decreases boxes.len(),
{
    let n = boxes.len() - 1;
    lemma_box_len(boxes[i]);
    lemma_box_len(boxes[n]);
    let init = boxes.drop_last();
    let less = lengths.drop_last();
    lemma_starts(lengths, i);
    lemma_starts(lengths, n);
    lemma_boxes_total(boxes, lengths);
    if i == n {
        lemma_boxes_total(init, less);
        lemma_starts_prefix(lengths, n);
        assert(boxes_coords(boxes).subrange(group_start(lengths, i), group_start(lengths, i + 1))
            =~= box_coords(boxes[i]));
    } else {
        lemma_boxes_part(init, less, i);
        lemma_starts_prefix(lengths, i);
        lemma_starts_prefix(lengths, i + 1);
        let whole = boxes_coords(boxes);
        let part = boxes_coords(init);
        assert(whole.subrange(group_start(lengths, i), group_start(lengths, i + 1))
            =~= part.subrange(group_start(lengths, i), group_start(lengths, i + 1)));
    }
}

proof fn lemma_starts(lengths: Seq<usize>, i: int)
    requires
        0 <= i <= lengths.len(),
    ensures
        0 <= group_start(lengths, i),
    decreases i,
{
    if i > 0 {
        lemma_starts(lengths, i - 1);
    }
}

proof fn lemma_starts_prefix(lengths: Seq<usize>, i: int)
    requires
        0 <= i < lengths.len(),
    ensures
        group_start(lengths.drop_last(), i) == group_start(lengths, i),
    decreases i,
{
    if i > 0 {
        lemma_starts_prefix(lengths, i - 1);
    }
}

proof fn lemma_boxes_total(boxes: Seq<Seq<Selection>>, lengths: Seq<usize>)
    requires
        lengths.len() == boxes.len(),
        forall|k: int| 0 <= k < lengths.len() ==> #[trigger] lengths[k] == axes_volume(boxes[k]),
    ensures
        boxes_coords(boxes).len() == group_start(lengths, lengths.len() as int),
    decreases boxes.len(),
{
    if boxes.len() > 0 {
        let n = boxes.len() - 1;
        lemma_box_len(boxes[n]);
        assert(lengths[n] == axes_volume(boxes[n]));
        lemma_boxes_total(boxes.drop_last(), lengths.drop_last());
        lemma_starts_prefix(lengths, n);
    }
}

/// Reducing groups that were packed into one batch gives each of them its reduction.
pub proof fn packed_groups_are_reduced<T: TensorElement, O: ReduceOp<T>>(
    op: O,
    source: Source<T>,
    groups: Seq<Seq<Selection>>,
    shape: Seq<u64>,
    request: Requested,
    lengths: Seq<usize>,
    end: int,
    batch: Seq<T>,
    batch_mask: Option<Seq<u8>>,
    before: Seq<T>,
    before_mask: Option<Seq<u8>>,
    after: Seq<T>,
    after_mask: Option<Seq<u8>>,
)
    requires
        packs(groups, request, lengths, before.len() as int, end),
        answers(source, request_coords(request, shape), batch, batch_mask),
        holds_groups(op, source, groups, before, before_mask),
        groups_pushed(
            op,
            (batch, batch_mask),
            lengths,
            (before, before_mask),
            (after, after_mask),
        ),
    ensures
        after.len() == end,
        holds_groups(op, source, groups, after, after_mask),
{
    let start = before.len() as int;
    let taken = groups.subrange(start, end);
    let coords = request_coords(request, shape);
    assert(coords == boxes_coords(taken));
    assert forall|i: int| 0 <= i < lengths.len() implies #[trigger] group_part(
        batch,
        batch_mask,
        lengths,
        i,
    ) == supported_at(source, box_coords(groups[start + i])) by {
        lemma_boxes_part(taken, lengths, i);
        let from = group_start(lengths, i);
        let to = group_start(lengths, i + 1);
        let part = coords.subrange(from, to);
        let mask = match batch_mask {
            Some(mask) => Some(mask.subrange(from, to)),
            None => None,
        };
        assert(part == box_coords(groups[start + i]));
        assert forall|k: int| 0 <= k < part.len() implies batch.subrange(from, to)[k] == (
        source.value)(#[trigger] part[k]) && (supported(mask, k) <==> (source.supported)(
            part[k],
        )) by {
            assert(part[k] == coords[from + k]);
            assert(supported(batch_mask, from + k) <==> (source.supported)(coords[from + k]));
        }
        batches_give_supported_values(source, part, batch.subrange(from, to), mask);
    }
    assert forall|k: int| 0 <= k < after.len() implies reduced_to(
        op,
        supported_at(source, box_coords(groups[k])),
        #[trigger] after[k],
    ) by {
        if k < start {
            assert(after[k] == after.take(start)[k]);
            assert(reduced_to(op, supported_at(source, box_coords(groups[k])), before[k]));
        } else {
            let i = k - start;
            assert(after[start + i] == after[k]);
            assert(group_part(batch, batch_mask, lengths, i) == supported_at(
                source,
                box_coords(groups[start + i]),
            ));
        }
    }
    if let Some(mask) = after_mask {
        let old_mask = before_mask->0;
        assert forall|k: int| 0 <= k < mask.len() implies #[trigger] mask[k] == if supported_at(
            source,
            box_coords(groups[k]),
        ).len() > 0 {
            1u8
        } else {
            0u8
        } by {
            if k < start {
                assert(mask[k] == mask.take(old_mask.len() as int)[k]);
                assert(old_mask[k] == mask[k]);
            } else {
                let i = k - start;
                assert(mask[old_mask.len() + i] == mask[k]);
                assert(group_part(batch, batch_mask, lengths, i) == supported_at(
                    source,
                    box_coords(groups[start + i]),
                ));
            }
        }
    }
}

/// The order of values does not change what they are reduced to.
pub open spec fn is_order_free<T, O: ReduceOp<T>>(op: O) -> bool {
    forall|left: Seq<T>, right: Seq<T>, to: T|
        #![trigger op.reduces(left, to), op.reduces(right, to)]
        left.to_multiset() == right.to_multiset() ==> (op.reduces(left, to) <==> op.reduces(
            right,
            to,
        ))
}

/// A group that was read batch by batch, in whatever order, has its reduction.
pub proof fn large_groups_are_reduced<T: TensorElement, O: ReduceOp<T>>(
    op: O,
    source: Source<T>,
    groups: Seq<Seq<Selection>>,
    seen: Seq<T>,
    state: Option<T>,
    before: Seq<T>,
    before_mask: Option<Seq<u8>>,
    after: Seq<T>,
    after_mask: Option<Seq<u8>>,
)
    requires
        is_order_free::<T, O>(op),
        before.len() < groups.len(),
        holds_groups(op, source, groups, before, before_mask),
        holds_reduction(op, seen, state),
        seen.to_multiset() == supported_at(
            source,
            box_coords(groups[before.len() as int]),
        ).to_multiset(),
        group_pushed(state, (before, before_mask), (after, after_mask)),
    ensures
        holds_groups(op, source, groups, after, after_mask),
{
    let n = before.len() as int;
    let wanted = supported_at(source, box_coords(groups[n]));
    seen.to_multiset_ensures();
    wanted.to_multiset_ensures();
    assert(seen.len() == wanted.len());
    assert(reduced_to(op, wanted, after[n])) by {
        if let Some(value) = state {
            assert(op.reduces(seen, value));
            assert(op.reduces(wanted, value));
        }
    }
    assert forall|k: int| 0 <= k < after.len() implies reduced_to(
        op,
        supported_at(source, box_coords(groups[k])),
        #[trigger] after[k],
    ) by {
        if k < n {
            assert(after[k] == before[k]);
        }
    }
    if let Some(mask) = after_mask {
        let old_mask = before_mask->0;
        assert forall|k: int| 0 <= k < mask.len() implies #[trigger] mask[k] == if supported_at(
            source,
            box_coords(groups[k]),
        ).len() > 0 {
            1u8
        } else {
            0u8
        } by {
            if k < n {
                assert(mask[k] == old_mask[k]);
            }
        }
    }
}

/// Elements without support do not count: lists of coordinates, each without repetition, that agree
/// on the supported ones have the same supported values.
pub proof fn only_supported_elements_count<T>(
    source: Source<T>,
    left: Seq<Seq<u64>>,
    right: Seq<Seq<u64>>,
)
    requires
        left.no_duplicates(),
        right.no_duplicates(),
        forall|coord: Seq<u64>|
            (source.supported)(coord) ==> (#[trigger] left.contains(coord) <==> right.contains(
                coord,
            )),
    ensures
        supported_at(source, left).to_multiset() == supported_at(source, right).to_multiset(),
    decreases left.len(),
{
    if left.len() == 0 {
        assert forall|j: int| 0 <= j < right.len() implies !(source.supported)(
            #[trigger] right[j],
        ) by {
            assert(right.contains(right[j]));
            assert(!left.contains(right[j]));
        }
        lemma_none_supported(source, right);
    } else {
        let init = left.drop_last();
        let coord = left.last();
        assert(left[left.len() - 1] == coord);
        assert(left.contains(coord));
        assert forall|i: int| 0 <= i < init.len() implies #[trigger] init[i] != coord by {
            assert(left[i] != left[left.len() - 1]);
        }
        assert(!init.contains(coord));
        assert(init.no_duplicates()) by {
            assert forall|i: int, j: int| 0 <= i < init.len() && 0 <= j < init.len() && i
                != j implies init[i] != init[j] by {
                assert(left[i] != left[j]);
            }
        }
        if (source.supported)(coord) {
            assert(right.contains(coord));
            let at = choose|at: int| 0 <= at < right.len() && right[at] == coord;
            let rest = right.remove(at);
            lemma_removed(source, right, at);
            assert(rest.no_duplicates()) by {
                assert forall|i: int, j: int| 0 <= i < rest.len() && 0 <= j < rest.len() && i
                    != j implies rest[i] != rest[j] by {
                    let a = if i < at {
                        i
                    } else {
                        i + 1
                    };
                    let b = if j < at {
                        j
                    } else {
                        j + 1
                    };
                    assert(right[a] != right[b]);
                }
            }
            assert forall|c: Seq<u64>| (source.supported)(c) implies (#[trigger] init.contains(c)
                <==> rest.contains(c)) by {
                lemma_removed_contains(right, at, c);
                lemma_last_contains(left, c);
                assert(left.contains(c) <==> right.contains(c));
            }
            only_supported_elements_count(source, init, rest);
            supported_at(source, init).to_multiset_ensures();
            supported_at(source, left).to_multiset_ensures();
        } else {
            assert forall|c: Seq<u64>| (source.supported)(c) implies (#[trigger] init.contains(c)
                <==> right.contains(c)) by {
                lemma_last_contains(left, c);
                assert(left.contains(c) <==> right.contains(c));
            }
            only_supported_elements_count(source, init, right);
        }
    }
}

proof fn lemma_last_contains(items: Seq<Seq<u64>>, item: Seq<u64>)
    requires
        items.len() > 0,
    ensures
        items.contains(item) <==> items.drop_last().contains(item) || items.last() == item,
{
    if items.contains(item) {
        let i = choose|i: int| 0 <= i < items.len() && items[i] == item;
        if i < items.len() - 1 {
            assert(items.drop_last()[i] == item);
        }
    }
    if items.drop_last().contains(item) {
        let i = choose|i: int| 0 <= i < items.len() - 1 && items.drop_last()[i] == item;
        assert(items[i] == item);
    }
    assert(items[items.len() - 1] == items.last());
}

proof fn lemma_removed_contains(items: Seq<Seq<u64>>, at: int, item: Seq<u64>)
    requires
        items.no_duplicates(),
        0 <= at < items.len(),
    ensures
        items.remove(at).contains(item) <==> items.contains(item) && item != items[at],
{
    let rest = items.remove(at);
    if rest.contains(item) {
        let i = choose|i: int| 0 <= i < rest.len() && rest[i] == item;
        let from = if i < at {
            i
        } else {
            i + 1
        };
        assert(items[from] == item);
    }
    if items.contains(item) && item != items[at] {
        let i = choose|i: int| 0 <= i < items.len() && items[i] == item;
        let to = if i < at {
            i
        } else {
            i - 1
        };
        assert(rest[to] == item);
    }
}

proof fn lemma_none_supported<T>(source: Source<T>, coords: Seq<Seq<u64>>)
    requires
        forall|j: int| 0 <= j < coords.len() ==> !(source.supported)(#[trigger] coords[j]),
    ensures
        supported_at(source, coords) == Seq::<T>::empty(),
    decreases coords.len(),
{
    if coords.len() > 0 {
        let init = coords.drop_last();
        assert forall|j: int| 0 <= j < init.len() implies !(source.supported)(
            #[trigger] init[j],
        ) by {
            assert(init[j] == coords[j]);
        }
        lemma_none_supported(source, init);
        assert(!(source.supported)(coords[coords.len() - 1]));
    }
}

/// A supported coordinate that is taken out takes its value out.
proof fn lemma_removed<T>(source: Source<T>, coords: Seq<Seq<u64>>, at: int)
    requires
        0 <= at < coords.len(),
        (source.supported)(coords[at]),
    ensures
        supported_at(source, coords).to_multiset() == supported_at(
            source,
            coords.remove(at),
        ).to_multiset().insert((source.value)(coords[at])),
    decreases coords.len(),
{
    let n = coords.len() - 1;
    let init = coords.drop_last();
    let value = (source.value)(coords[at]);
    let before = supported_at(source, init);
    before.to_multiset_ensures();
    if at == n {
        assert(coords.remove(at) =~= init);
    } else {
        lemma_removed(source, init, at);
        let less = init.remove(at);
        let rest = coords.remove(at);
        assert(rest.drop_last() =~= less);
        assert(rest.last() == coords.last());
        let fewer = supported_at(source, less);
        fewer.to_multiset_ensures();
        if (source.supported)(coords.last()) {
            let last = (source.value)(coords.last());
            assert(fewer.to_multiset().insert(value).insert(last)
                =~= fewer.to_multiset().insert(last).insert(value));
        }
    }
}

proof fn lemma_sum_removed(values: Seq<u8>, at: int)
    requires
        0 <= at < values.len(),
    ensures
        byte_sum(values) == byte_sum(values.remove(at)) + values[at],
        byte_factor(values) == byte_factor(values.remove(at)) * values[at],
    decreases values.len(),
{
    let n = values.len() - 1;
    if at == n {
        assert(values.remove(at) =~= values.drop_last());
    } else {
        lemma_sum_removed(values.drop_last(), at);
        let rest = values.remove(at);
        assert(rest.drop_last() =~= values.drop_last().remove(at));
        assert(rest.last() == values.last());
        let a = byte_factor(rest.drop_last());
        let b = values[at] as int;
        let c = values.last() as int;
        assert((a * b) * c == (a * c) * b) by (nonlinear_arith);
    }
}

proof fn lemma_sum_order(left: Seq<u8>, right: Seq<u8>)
    requires
        left.to_multiset() == right.to_multiset(),
    ensures
        byte_sum(left) == byte_sum(right),
        byte_factor(left) == byte_factor(right),
    decreases left.len(),
{
    left.to_multiset_ensures();
    right.to_multiset_ensures();
    assert(left.len() == right.len());
    if left.len() > 0 {
        let value = left.last();
        assert(left.contains(left[left.len() - 1]));
        assert(right.to_multiset().count(value) > 0);
        assert(right.contains(value));
        let at = choose|at: int| 0 <= at < right.len() && right[at] == value;
        let rest = right.remove(at);
        lemma_sum_removed(right, at);
        assert(left.drop_last().to_multiset() =~= left.to_multiset().remove(value)) by {
            assert(left =~= left.drop_last().push(value));
            left.drop_last().to_multiset_ensures();
        }
        assert(rest.to_multiset() =~= right.to_multiset().remove(value));
        lemma_sum_order(left.drop_last(), rest);
    }
}

/// The reductions of bytes do not depend on the order of the values.
pub proof fn byte_reductions_are_order_free()
    ensures
        is_order_free::<u8, Sum>(Sum),
        is_order_free::<u8, Product>(Product),
        is_order_free::<u8, Min>(Min),
        is_order_free::<u8, Max>(Max),
{
    assert forall|left: Seq<u8>, right: Seq<u8>, to: u8|
        #![trigger Sum.reduces(left, to), Sum.reduces(right, to)]
        left.to_multiset() == right.to_multiset() implies (Sum.reduces(left, to) <==> Sum.reduces(
        right,
        to,
    )) by {
        lemma_sum_order(left, right);
    }
    assert forall|left: Seq<u8>, right: Seq<u8>, to: u8|
        #![trigger Product.reduces(left, to), Product.reduces(right, to)]
        left.to_multiset() == right.to_multiset() implies (Product.reduces(left, to)
        <==> Product.reduces(right, to)) by {
        lemma_sum_order(left, right);
    }
    assert forall|left: Seq<u8>, right: Seq<u8>, to: u8|
        #![trigger Min.reduces(left, to), Min.reduces(right, to)]
        left.to_multiset() == right.to_multiset() implies (Min.reduces(left, to) <==> Min.reduces(
        right,
        to,
    )) by {
        lemma_extremes_order(left, right, to);
        lemma_extremes_order(right, left, to);
    }
    assert forall|left: Seq<u8>, right: Seq<u8>, to: u8|
        #![trigger Max.reduces(left, to), Max.reduces(right, to)]
        left.to_multiset() == right.to_multiset() implies (Max.reduces(left, to) <==> Max.reduces(
        right,
        to,
    )) by {
        lemma_extremes_order(left, right, to);
        lemma_extremes_order(right, left, to);
    }
}

proof fn lemma_extremes_order(left: Seq<u8>, right: Seq<u8>, to: u8)
    requires
        left.to_multiset() == right.to_multiset(),
    ensures
        is_least(left, to) ==> is_least(right, to),
        is_greatest(left, to) ==> is_greatest(right, to),
{
    left.to_multiset_ensures();
    right.to_multiset_ensures();
    assert forall|i: int| 0 <= i < right.len() implies left.contains(#[trigger] right[i]) by {
        assert(right.contains(right[i]));
        assert(right.to_multiset().count(right[i]) > 0);
    }
    if left.contains(to) {
        assert(left.to_multiset().count(to) > 0);
        assert(right.contains(to));
    }
}

} // verus!
