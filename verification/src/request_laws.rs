//! In which order coordinates are named, and which ones.

use vstd::prelude::*;
use crate::batches::{as_sets, is_sorted_set, sorted_set};
use crate::geometry::{
    all_positive, coordinate_at, in_box, lemma_coordinate_position, lemma_position_bound,
    lemma_position_coordinate, lemma_volume_positive, position_of, volume,
};
use crate::inline::Bound;
use crate::mapping::{is_permutation, lens_known};
use crate::request::{
    axes_fit, axes_lens, axis_at, axis_fits, axis_len, box_coords, boxes_coords, lemma_axis_at,
    lemma_box_coord, request_coords, request_fits, Requested, Selection,
};
use crate::schema::{
    ceil_div, greedy_blocks, greedy_blocks_fill_the_capacity, lemma_ceil_div, lemma_product_fits,
};
use crate::slice::{axis_values, clip, full_axes};
use crate::sorted::{increasing, lex_below};
use crate::storage_read::{
    block_coord, block_of, key_below, lemma_block_coord, local_coord, place_of,
};
use crate::transform_laws::lemma_fewer;
use crate::validate::{
    bound_at, bound_fits, bound_len, lemma_bound_at, lemma_bound_len, range_coords, range_fits,
    range_lens, range_select,
};

verus! {

/// The coordinates agree up to some axis, and the first one has the lesser index there.
pub open spec fn comes_before(left: Seq<u64>, right: Seq<u64>) -> bool {
    exists|d: int| #[trigger] first_differs(left, right, d)
}

/// The coordinates agree up to this axis, and the first one has the lesser index there.
pub open spec fn first_differs(left: Seq<u64>, right: Seq<u64>, d: int) -> bool {
    &&& 0 <= d < left.len()
    &&& d < right.len()
    &&& left[d] < right[d]
    &&& forall|i: int| 0 <= i < d ==> #[trigger] left[i] == right[i]
}

proof fn lemma_before(left: Seq<u64>, right: Seq<u64>, shape: Seq<u64>, d: int)
    requires
        in_box(left, shape),
        in_box(right, shape),
        first_differs(left, right, d),
    ensures
        position_of(left, shape) < position_of(right, shape),
    decreases shape.len(),
{
    let rest = shape.skip(1);
    let l = left.skip(1);
    let r = right.skip(1);
    assert(in_box(l, rest)) by {
        assert forall|i: int| 0 <= i < rest.len() implies #[trigger] l[i] < rest[i] by {
            assert(left[i + 1] < shape[i + 1]);
        }
    }
    assert(in_box(r, rest)) by {
        assert forall|i: int| 0 <= i < rest.len() implies #[trigger] r[i] < rest[i] by {
            assert(right[i + 1] < shape[i + 1]);
        }
    }
    lemma_position_bound(l, rest);
    lemma_position_bound(r, rest);
    let inner = volume(rest);
    let a = left[0] as int;
    let b = right[0] as int;
    if d == 0 {
        assert(a * inner + inner <= b * inner) by (nonlinear_arith)
            requires
                a + 1 <= b,
                inner >= 0,
        ;
    } else {
        assert(left[0] == right[0]);
        assert(first_differs(l, r, d - 1)) by {
            assert forall|i: int| 0 <= i < d - 1 implies #[trigger] l[i] == r[i] by {
                assert(left[i + 1] == right[i + 1]);
            }
        }
        lemma_before(l, r, rest, d - 1);
    }
}

proof fn lemma_first_difference(left: Seq<u64>, right: Seq<u64>) -> (d: int)
    requires
        left.len() == right.len(),
        left != right,
    ensures
        first_differs(left, right, d) || first_differs(right, left, d),
    decreases left.len(),
{
    if left.len() == 0 {
        assert(left =~= right);
        0
    } else if left[0] != right[0] {
        0
    } else {
        let l = left.skip(1);
        let r = right.skip(1);
        if l == r {
            assert forall|i: int| 0 <= i < left.len() implies left[i] == right[i] by {
                if i > 0 {
                    assert(l[i - 1] == r[i - 1]);
                }
            }
            assert(left =~= right);
        }
        let d = lemma_first_difference(l, r) + 1;
        assert forall|i: int| 0 <= i < d implies #[trigger] left[i] == right[i] by {
            if i > 0 {
                assert(l[i - 1] == r[i - 1]);
            }
        }
        assert(l[d - 1] == left[d] && r[d - 1] == right[d]);
        d
    }
}

/// Row-major positions number the coordinates of a box from zero on, in the order in which the last
/// index changes first: a coordinate stands before another if it comes before it.
pub proof fn positions_follow_the_order_of_coordinates(
    left: Seq<u64>,
    right: Seq<u64>,
    shape: Seq<u64>,
)
    requires
        in_box(left, shape),
        in_box(right, shape),
    ensures
        0 <= position_of(left, shape) < volume(shape),
        position_of(left, shape) < position_of(right, shape) <==> comes_before(left, right),
        position_of(left, shape) == position_of(right, shape) <==> left == right,
{
    lemma_position_bound(left, shape);
    lemma_position_coordinate(left, shape);
    lemma_position_coordinate(right, shape);
    if comes_before(left, right) {
        let d = choose|d: int| #[trigger] first_differs(left, right, d);
        lemma_before(left, right, shape, d);
    }
    if position_of(left, shape) < position_of(right, shape) {
        let d = lemma_first_difference(left, right);
        if first_differs(right, left, d) {
            lemma_before(right, left, shape, d);
        }
        assert(first_differs(left, right, d));
    }
}

/// The coordinate at a position is the one that has the position.
pub proof fn coordinates_stand_at_their_positions(k: int, shape: Seq<u64>)
    requires
        all_positive(shape),
        0 <= k < volume(shape),
    ensures
        in_box(coordinate_at(k, shape), shape),
        position_of(coordinate_at(k, shape), shape) == k,
{
    lemma_coordinate_position(k, shape);
}

/// The index that an axis of a box has at a place: so many steps from the start, or the listed one.
pub open spec fn takes_index(axis: Selection, place: u64, index: u64) -> bool {
    match axis {
        Selection::Span { start, step, .. } => index == start + step * place,
        Selection::Selected(values) => index == values[place as int],
    }
}

/// The axis has so many indices.
pub open spec fn has_indices(axis: Selection, count: u64) -> bool {
    match axis {
        Selection::Span { len, .. } => count == len,
        Selection::Selected(values) => count == values.len(),
    }
}

/// A box names every choice of one index for each axis, in row-major order of the places.
pub proof fn boxes_name_every_choice_of_indices(
    axes: Seq<Selection>,
    shape: Seq<u64>,
    counts: Seq<u64>,
    places: Seq<u64>,
    i: int,
)
    requires
        axes_fit(axes, shape),
        counts.len() == axes.len(),
        forall|j: int|
            #![trigger counts[j]]
            0 <= j < axes.len() ==> has_indices(axes[j], counts[j]),
        in_box(places, counts),
        0 <= i < axes.len(),
    ensures
        box_coords(axes).len() == volume(counts),
        0 <= position_of(places, counts) < box_coords(axes).len(),
        box_coords(axes)[position_of(places, counts)].len() == axes.len(),
        takes_index(axes[i], places[i], box_coords(axes)[position_of(places, counts)][i]),
{
    let lens = axes_lens(axes);
    assert(lens =~= counts) by {
        assert forall|j: int| 0 <= j < axes.len() implies lens[j] == counts[j] by {
            assert(has_indices(axes[j], counts[j]));
        }
    }
    assert forall|j: int| 0 <= j < axes.len() implies axis_len(#[trigger] axes[j]) <= u64::MAX by {
        assert(has_indices(axes[j], counts[j]));
    }
    lemma_position_bound(places, counts);
    lemma_position_coordinate(places, counts);
    lemma_box_coord(axes, shape, position_of(places, counts));
    assert(axis_at(axes[i], places[i] as int) == box_coords(axes)[position_of(places, counts)][i]);
}

/// Boxes are named one after the other.
pub proof fn boxes_follow_each_other(left: Seq<Seq<Selection>>, right: Seq<Seq<Selection>>)
    ensures
        boxes_coords(left + right) == boxes_coords(left) + boxes_coords(right),
    decreases right.len(),
{
    if right.len() == 0 {
        assert(left + right =~= left);
        assert(boxes_coords(left) + boxes_coords(right) =~= boxes_coords(left));
    } else {
        let init = right.drop_last();
        boxes_follow_each_other(left, init);
        assert((left + right).drop_last() =~= left + init);
        assert((left + right).last() == right.last());
        assert(boxes_coords(left + right) =~= boxes_coords(left) + boxes_coords(right));
    }
}

/// A request names what it says: consecutive positions, its boxes one after the other, or its list.
pub proof fn requests_name_what_they_say(
    shape: Seq<u64>,
    start: u64,
    len: nat,
    k: int,
    only: Seq<Selection>,
    coords: Seq<Seq<u64>>,
)
    requires
        request_fits(Requested::Linear { start, len }, shape),
        0 <= k < len,
    ensures
        request_coords(Requested::Linear { start, len }, shape).len() == len,
        in_box(request_coords(Requested::Linear { start, len }, shape)[k], shape),
        position_of(request_coords(Requested::Linear { start, len }, shape)[k], shape) == start + k,
        request_coords(Requested::Rectangles(seq![only]), shape) == box_coords(only),
        request_coords(Requested::Explicit(coords), shape) == coords,
{
    lemma_volume_positive(shape);
    lemma_coordinate_position(start + k, shape);
    let one = seq![only];
    assert(one.drop_last() =~= Seq::<Seq<Selection>>::empty());
    assert(boxes_coords(one.drop_last()) =~= Seq::<Seq<u64>>::empty());
    assert(boxes_coords(one) =~= box_coords(only));
}

/// An axis lies within a dimension if each of its indices does. A span has to step on, and to start
/// within the dimension though it has no index.
pub proof fn axes_fit_where_their_indices_do(axis: Selection, dim: u64)
    requires
        axis_len(axis) <= u64::MAX,
    ensures
        axis_fits(axis, dim) <==> {
            &&& axis matches Selection::Span { start, step, .. } ==> step > 0 && start <= dim
            &&& forall|place: u64, index: u64|
                place < axis_len(axis) && takes_index(axis, place, index) ==> index < dim
            &&& axis matches Selection::Span { start, step, len } ==> len > 0 ==> start + step * (len
                - 1) <= u64::MAX
        },
{
    match axis {
        Selection::Span { start, step, len } => {
            if axis_fits(axis, dim) {
                assert forall|place: u64, index: u64|
                    place < len && takes_index(axis, place, index) implies index < dim by {
                    lemma_axis_at(axis, dim, place as int);
                }
            } else if step > 0 && start <= dim && len > 0 && start + step * (len - 1)
                <= u64::MAX {
                let last = (len - 1) as u64;
                let index = (start + step * (len - 1)) as u64;
                assert(start + step * (len - 1) >= 0) by (nonlinear_arith)
                    requires
                        start >= 0,
                        step >= 0,
                        len >= 1,
                ;
                assert(takes_index(axis, last, index));
            }
        },
        Selection::Selected(values) => {
            if !axis_fits(axis, dim) {
                let j = choose|j: int| 0 <= j < values.len() && !(#[trigger] values[j] < dim);
                assert(takes_index(axis, j as u64, values[j]));
            }
        },
    }
}

/// Cutting an axis to bounds keeps the indices between them, in order.
pub proof fn cuts_keep_what_lies_between_the_bounds(values: Seq<int>, low: int, high: int)
    ensures
        clip(values, low, high) == values.filter(|value: int| low <= value < high),
    decreases values.len(),
{
    reveal(Seq::filter);
    if values.len() > 0 {
        cuts_keep_what_lies_between_the_bounds(values.drop_last(), low, high);
    } else {
        assert(values.filter(|value: int| low <= value < high) =~= Seq::<int>::empty());
    }
}

/// The indices of an axis are those that it takes at its places.
pub proof fn axes_have_the_indices_they_take(axis: Selection, dim: u64, place: u64)
    requires
        axis_fits(axis, dim),
        place < axis_len(axis) <= u64::MAX,
    ensures
        axis_values(axis).len() == axis_len(axis),
        0 <= axis_values(axis)[place as int] < dim,
        takes_index(axis, place, axis_values(axis)[place as int] as u64),
{
    lemma_axis_at(axis, dim, place as int);
}

/// Blocks are filled from the last axis on: an axis that is not taken whole could not take one
/// index more without more elements than the capacity, with what the axes behind it take.
pub proof fn blocks_take_what_the_capacity_leaves(shape: Seq<u64>, capacity: int, i: int)
    requires
        all_positive(shape),
        0 < capacity <= u64::MAX,
        0 <= i < shape.len(),
    ensures
        ({
            let blocks = greedy_blocks(shape, capacity);
            &&& blocks.len() == shape.len()
            &&& 0 < blocks[i] <= shape[i]
            &&& volume(blocks) <= capacity
            &&& blocks[i] < shape[i] ==> (blocks[i] + 1) * volume(blocks.skip(i + 1)) > capacity
        }),
    decreases shape.len(),
{
    let blocks = greedy_blocks(shape, capacity);
    let n = shape.len() - 1;
    let d = shape[n] as int;
    let init = shape.drop_last();
    let take = if d <= capacity {
        d
    } else {
        capacity
    };
    let left = capacity / take;
    greedy_blocks_fill_the_capacity(shape, capacity);
    assert(blocks[i] > 0);
    assert(shape[n] > 0);
    assert forall|j: int| 0 <= j < init.len() implies #[trigger] init[j] > 0 by {
        assert(shape[j] > 0);
    }
    assert(0 < left <= capacity && left * take <= capacity < (left + 1) * take)
        by (nonlinear_arith)
        requires
            left == capacity / take,
            0 < take <= capacity,
    ;
    if i == n {
        assert(blocks.skip(n + 1) =~= Seq::<u64>::empty());
        assert(volume(blocks.skip(n + 1)) == 1);
        assert((blocks[n] + 1) * 1 == blocks[n] + 1);
    } else {
        blocks_take_what_the_capacity_leaves(init, left, i);
        let before = greedy_blocks(init, left);
        assert(blocks =~= before.push(take as u64));
        assert(blocks.skip(i + 1) =~= before.skip(i + 1).push(take as u64));
        crate::geometry::lemma_volume_push(before.skip(i + 1), take as u64);
        let b = blocks[i] as int;
        let v = volume(before.skip(i + 1));
        if blocks[i] < shape[i] {
            assert((b + 1) * (v * take) > capacity) by (nonlinear_arith)
                requires
                    (b + 1) * v >= left + 1,
                    capacity < (left + 1) * take,
                    take > 0,
            ;
        }
    }
}

/// Two elements stand in one block if on every axis no multiple of the block's side lies between
/// them, and in a block elements stand in the order of their coordinates, each at its own place.
pub proof fn blocks_are_boxes_in_order(
    left: Seq<u64>,
    right: Seq<u64>,
    shape: Seq<u64>,
    blocks: Seq<u64>,
)
    requires
        in_box(left, shape),
        in_box(right, shape),
        blocks.len() == shape.len(),
        all_positive(shape),
        all_positive(blocks),
    ensures
        block_of(left, shape, blocks) == block_of(right, shape, blocks) <==> forall|i: int|
            #![trigger blocks[i]]
            0 <= i < shape.len() ==> left[i] as int / blocks[i] as int == right[i] as int
                / blocks[i] as int,
        0 <= place_of(left, blocks) < volume(blocks),
        block_of(left, shape, blocks) == block_of(right, shape, blocks) ==> (place_of(left, blocks)
            < place_of(right, blocks) <==> comes_before(left, right)),
{
    lemma_block_coord(left, shape, blocks);
    lemma_block_coord(right, shape, blocks);
    let a = block_coord(left, blocks);
    let b = block_coord(right, blocks);
    let grid = crate::schema::grid_of(shape, blocks);
    lemma_position_coordinate(a, grid);
    lemma_position_coordinate(b, grid);
    let l = local_coord(left, blocks);
    let r = local_coord(right, blocks);
    lemma_position_bound(l, blocks);
    assert forall|i: int| 0 <= i < shape.len() implies #[trigger] a[i] == left[i] as int
        / blocks[i] as int && b[i] == right[i] as int / blocks[i] as int by {
        assert(left[i] < shape[i] && right[i] < shape[i]);
        assert(blocks[i] > 0);
        lemma_quotient(left[i] as int, blocks[i] as int);
        lemma_quotient(right[i] as int, blocks[i] as int);
    }
    if forall|i: int|
        #![trigger blocks[i]]
        0 <= i < shape.len() ==> left[i] as int / blocks[i] as int == right[i] as int
            / blocks[i] as int {
        assert forall|i: int| 0 <= i < a.len() implies a[i] == b[i] by {
            assert(blocks[i] > 0);
        }
        assert(a =~= b);
    }
    if block_of(left, shape, blocks) == block_of(right, shape, blocks) {
        assert(a == b);
        positions_follow_the_order_of_coordinates(l, r, blocks);
        assert forall|i: int| 0 <= i < shape.len() implies (#[trigger] l[i] < r[i] <==> left[i]
            < right[i]) && (l[i] == r[i] <==> left[i] == right[i]) by {
            assert(a[i] == b[i]);
            assert(left[i] == a[i] * blocks[i] + l[i]);
            assert(right[i] == b[i] * blocks[i] + r[i]);
        }
        if comes_before(left, right) {
            let d = choose|d: int| #[trigger] first_differs(left, right, d);
            assert(l[d] < r[d]);
            assert forall|i: int| 0 <= i < d implies #[trigger] l[i] == r[i] by {
                assert(left[i] == right[i]);
            }
            assert(first_differs(l, r, d));
        }
        if comes_before(l, r) {
            let d = choose|d: int| #[trigger] first_differs(l, r, d);
            assert(l[d] < r[d]);
            assert forall|i: int| 0 <= i < d implies #[trigger] left[i] == right[i] by {
                assert(l[i] == r[i]);
            }
            assert(first_differs(left, right, d));
        }
    }
}

proof fn lemma_quotient(a: int, b: int)
    requires
        0 <= a,
        0 < b,
    ensures
        0 <= a / b <= a,
{
    assert(0 <= a / b <= a) by (nonlinear_arith)
        requires
            0 <= a,
            0 < b,
    ;
}

/// The bound selects an index.
pub open spec fn selects(bound: Bound, index: u64) -> bool {
    match bound {
        Bound::At(only) => index == only,
        Bound::In(start, stop, step) => index < stop && exists|k: u64| index == start + #[trigger] (
        k * step),
        Bound::Of(indices) => indices.contains(index),
    }
}

/// A bound whose list is sorted selects its indices in increasing order.
proof fn lemma_set_bound(bound: Bound, dim: u64, set: Bound)
    requires
        bound_fits(set, dim),
        bound_len(set) <= u64::MAX,
        match bound {
            Bound::Of(indices) => set matches Bound::Of(sorted) && is_sorted_set(indices, sorted),
            _ => set == bound,
        },
    ensures
        forall|p: int, q: int|
            0 <= p < q < bound_len(set) ==> #[trigger] bound_at(set, p) < #[trigger] bound_at(
                set,
                q,
            ),
        forall|index: u64| #[trigger]
            selects(bound, index) <==> exists|p: int|
                0 <= p < bound_len(set) && #[trigger] bound_at(set, p) == index,
{
    match set {
        Bound::At(only) => {
            assert(bound_at(set, 0) == only);
        },
        Bound::In(start, stop, step) => {
            let n = stop - start;
            let len = ceil_div(n, step as int);
            lemma_ceil_div(n, step as int);
            assert forall|p: int, q: int| 0 <= p < q < bound_len(set) implies #[trigger] bound_at(
                set,
                p,
            ) < #[trigger] bound_at(set, q) by {
                assert(p * step < q * step) by (nonlinear_arith)
                    requires
                        p < q,
                        step > 0,
                ;
            }
            assert forall|index: u64| #[trigger] selects(bound, index) <==> exists|p: int|
                0 <= p < bound_len(set) && #[trigger] bound_at(set, p) == index by {
                if selects(bound, index) {
                    let k = choose|k: u64| index == start + #[trigger] (k * step);
                    assert(0 <= k < len) by (nonlinear_arith)
                        requires
                            start + k * step < stop,
                            n == stop - start,
                            n <= len * step,
                            step > 0,
                            k >= 0,
                            n >= 0,
                    ;
                    assert(bound_at(set, k as int) == index);
                }
                if exists|p: int|
                    0 <= p < bound_len(set) && #[trigger] bound_at(set, p) == index {
                    let p = choose|p: int|
                        0 <= p < bound_len(set) && #[trigger] bound_at(set, p) == index;
                    lemma_bound_at(set, dim, p);
                    let k = p as u64;
                    assert(index == start + k * step);
                }
            }
        },
        Bound::Of(sorted) => {
            let indices = bound->Of_0;
            assert forall|p: int, q: int| 0 <= p < q < bound_len(set) implies #[trigger] bound_at(
                set,
                p,
            ) < #[trigger] bound_at(set, q) by {
                assert(sorted[p] < sorted[q]);
            }
            assert forall|index: u64| #[trigger] selects(bound, index) <==> exists|p: int|
                0 <= p < bound_len(set) && #[trigger] bound_at(set, p) == index by {
                assert(sorted.contains(index) <==> indices.contains(index));
                if sorted.contains(index) {
                    let p = choose|p: int| 0 <= p < sorted.len() && sorted[p] == index;
                    assert(bound_at(set, p) == index);
                }
                if exists|p: int|
                    0 <= p < bound_len(set) && #[trigger] bound_at(set, p) == index {
                    let p = choose|p: int|
                        0 <= p < bound_len(set) && #[trigger] bound_at(set, p) == index;
                    assert(sorted[p] == index);
                }
            }
        },
    }
}

spec fn inserted(sorted: Seq<u64>, value: u64) -> Seq<u64>
    decreases sorted.len(),
{
    if sorted.len() == 0 || sorted.last() < value {
        sorted.push(value)
    } else if sorted.last() == value {
        sorted
    } else {
        inserted(sorted.drop_last(), value).push(sorted.last())
    }
}

proof fn lemma_inserted(sorted: Seq<u64>, value: u64)
    requires
        increasing(sorted),
    ensures
        increasing(inserted(sorted, value)),
        forall|v: u64| #[trigger]
            inserted(sorted, value).contains(v) <==> sorted.contains(v) || v == value,
    decreases sorted.len(),
{
    let out = inserted(sorted, value);
    let n = sorted.len() as int;
    if n == 0 || sorted.last() < value {
        assert forall|i: int, j: int| 0 <= i < j < out.len() implies #[trigger] out[i]
            < #[trigger] out[j] by {
            if j == n && i < n - 1 {
                assert(sorted[i] < sorted[n - 1]);
            }
        }
        assert forall|v: u64| #[trigger] out.contains(v) <==> sorted.contains(v) || v == value by {
            if sorted.contains(v) {
                let i = choose|i: int| 0 <= i < n && sorted[i] == v;
                assert(out[i] == v);
            }
            if v == value {
                assert(out[n] == v);
            }
        }
    } else if sorted.last() == value {
        assert(sorted[n - 1] == value);
    } else {
        let init = sorted.drop_last();
        let before = inserted(init, value);
        let last = sorted.last();
        assert forall|i: int, j: int| 0 <= i < j < init.len() implies #[trigger] init[i]
            < #[trigger] init[j] by {
            assert(sorted[i] < sorted[j]);
        }
        lemma_inserted(init, value);
        assert forall|i: int, j: int| 0 <= i < j < out.len() implies #[trigger] out[i]
            < #[trigger] out[j] by {
            if j == before.len() {
                assert(before.contains(before[i]));
                if init.contains(before[i]) {
                    let k = choose|k: int| 0 <= k < init.len() && init[k] == before[i];
                    assert(sorted[k] < sorted[n - 1]);
                }
            } else {
                assert(before[i] < before[j]);
            }
        }
        assert forall|v: u64| #[trigger] out.contains(v) <==> sorted.contains(v) || v == value by {
            if out.contains(v) {
                let k = choose|k: int| 0 <= k < out.len() && out[k] == v;
                if k < before.len() {
                    assert(before.contains(v)) by {
                        assert(before[k] == v);
                    }
                    if init.contains(v) {
                        let i = choose|i: int| 0 <= i < init.len() && init[i] == v;
                        assert(sorted[i] == v);
                    }
                } else {
                    assert(sorted[n - 1] == v);
                }
            }
            if sorted.contains(v) || v == value {
                if v == last {
                    assert(out[before.len() as int] == v);
                } else {
                    if sorted.contains(v) {
                        let i = choose|i: int| 0 <= i < n && sorted[i] == v;
                        assert(init[i] == v);
                    }
                    assert(before.contains(v));
                    let k = choose|k: int| 0 <= k < before.len() && before[k] == v;
                    assert(out[k] == v);
                }
            }
        }
    }
}

/// Numbers can be listed in order, each once.
proof fn lemma_sorted_set(values: Seq<u64>)
    ensures
        is_sorted_set(values, sorted_set(values)),
    decreases values.len(),
{
    if values.len() == 0 {
        assert(is_sorted_set(values, Seq::<u64>::empty()));
    } else {
        let init = values.drop_last();
        lemma_sorted_set(init);
        let sorted = inserted(sorted_set(init), values.last());
        lemma_inserted(sorted_set(init), values.last());
        assert forall|v: u64| #[trigger] sorted.contains(v) <==> values.contains(v) by {
            assert(sorted_set(init).contains(v) <==> init.contains(v));
            if init.contains(v) {
                let i = choose|i: int| 0 <= i < init.len() && init[i] == v;
                assert(values[i] == v);
            }
            if values.contains(v) && v != values.last() {
                let i = choose|i: int| 0 <= i < values.len() && values[i] == v;
                assert(init[i] == v);
            }
            if v == values.last() {
                assert(values[values.len() - 1] == v);
            }
        }
        assert(is_sorted_set(values, sorted));
    }
}

/// The walk over the sparse elements of a range visits the coordinates whose index every bound
/// selects, each once and in their order, whatever the order of a list of indices and however often
/// it has one.
pub proof fn sparse_walks_visit_what_is_selected_in_order(
    range: Seq<Bound>,
    shape: Seq<u64>,
    coord: Seq<u64>,
)
    requires
        range_fits(as_sets(range), shape),
        lens_known(as_sets(range)),
    ensures
        forall|j: int, k: int|
            0 <= j < k < range_coords(as_sets(range)).len() ==> comes_before(
                #[trigger] range_coords(as_sets(range))[j],
                #[trigger] range_coords(as_sets(range))[k],
            ),
        range_coords(as_sets(range)).contains(coord) <==> coord.len() == range.len() && forall|
            i: int,
        |
            #![trigger range[i]]
            0 <= i < range.len() ==> selects(range[i], coord[i]),
{
    let sets = as_sets(range);
    let lens = range_lens(sets);
    let coords = range_coords(sets);
    assert forall|i: int| 0 <= i < range.len() implies {
        &&& #[trigger] lens[i] == bound_len(sets[i])
        &&& forall|p: int, q: int|
            0 <= p < q < bound_len(sets[i]) ==> #[trigger] bound_at(sets[i], p) < #[trigger]
            bound_at(sets[i], q)
        &&& forall|index: u64| #[trigger]
            selects(range[i], index) <==> exists|p: int|
                0 <= p < bound_len(sets[i]) && #[trigger] bound_at(sets[i], p) == index
    } by {
        assert(bound_fits(sets[i], shape[i]));
        assert(bound_len(sets[i]) <= u64::MAX);
        lemma_bound_len(sets[i], shape[i]);
        if let Bound::Of(indices) = range[i] {
            lemma_sorted_set(indices);
        }
        lemma_set_bound(range[i], shape[i], sets[i]);
    }
    lemma_volume_positive(lens);
    assert forall|j: int, k: int| 0 <= j < k < coords.len() implies comes_before(
        #[trigger] coords[j],
        #[trigger] coords[k],
    ) by {
        let p = coordinate_at(j, lens);
        let q = coordinate_at(k, lens);
        lemma_coordinate_position(j, lens);
        lemma_coordinate_position(k, lens);
        positions_follow_the_order_of_coordinates(p, q, lens);
        let d = choose|d: int| #[trigger] first_differs(p, q, d);
        assert(coords[j] == range_select(sets, p));
        assert(coords[k] == range_select(sets, q));
        assert(p[d] < lens[d] && q[d] < lens[d]);
        assert(bound_at(sets[d], p[d] as int) < bound_at(sets[d], q[d] as int));
        assert(bound_fits(sets[d], shape[d]));
        lemma_bound_at(sets[d], shape[d], p[d] as int);
        lemma_bound_at(sets[d], shape[d], q[d] as int);
        assert forall|i: int| 0 <= i < d implies #[trigger] coords[j][i] == coords[k][i] by {
            assert(p[i] == q[i]);
        }
        assert(first_differs(coords[j], coords[k], d));
    }
    if coords.contains(coord) {
        let k = choose|k: int| 0 <= k < coords.len() && coords[k] == coord;
        let p = coordinate_at(k, lens);
        lemma_coordinate_position(k, lens);
        assert forall|i: int|
            #![trigger range[i]]
            0 <= i < range.len() implies selects(range[i], coord[i]) by {
            assert(p[i] < lens[i]);
            assert(bound_fits(sets[i], shape[i]));
            lemma_bound_at(sets[i], shape[i], p[i] as int);
            assert(bound_at(sets[i], p[i] as int) == coord[i]);
        }
    }
    if coord.len() == range.len() && forall|i: int|
        #![trigger range[i]]
        0 <= i < range.len() ==> selects(range[i], coord[i]) {
        let places = Seq::new(
            range.len(),
            |i: int|
                (choose|p: int|
                    0 <= p < bound_len(sets[i]) && #[trigger] bound_at(sets[i], p)
                        == coord[i]) as u64,
        );
        assert forall|i: int| 0 <= i < range.len() implies #[trigger] places[i] < lens[i]
            && bound_at(sets[i], places[i] as int) == coord[i] by {
            assert(selects(range[i], coord[i]));
            assert(lens[i] == bound_len(sets[i]));
        }
        assert(in_box(places, lens));
        let k = position_of(places, lens);
        lemma_position_bound(places, lens);
        lemma_position_coordinate(places, lens);
        assert(coords[k] == range_select(sets, places));
        assert(coords[k] =~= coord);
    }
}

/// The keys of an index, and those that updates and tiles are sorted by, are ordered as coordinates
/// are.
pub proof fn keys_are_ordered_as_coordinates(left: Seq<u64>, right: Seq<u64>)
    requires
        left.len() == right.len(),
    ensures
        left.len() == 2 ==> (key_below(left, right) <==> comes_before(left, right)),
        lex_below(left, right) <==> comes_before(left, right),
{
    if left.len() == 2 && key_below(left, right) {
        let d = if left[0] < right[0] {
            0int
        } else {
            1
        };
        assert(first_differs(left, right, d));
    }
    if comes_before(left, right) {
        let d = choose|d: int| #[trigger] first_differs(left, right, d);
        if left.len() == 2 && d == 1 {
            assert(left[0] == right[0]);
        }
        lemma_lex_at(left, right, d);
    }
    lemma_lex_before(left, right);
}

proof fn lemma_lex_at(left: Seq<u64>, right: Seq<u64>, d: int)
    requires
        left.len() == right.len(),
        first_differs(left, right, d),
    ensures
        lex_below(left, right),
{
    assert(left.take(d) =~= right.take(d));
    assert(left.take(d) == right.take(d));
}

proof fn lemma_lex_before(left: Seq<u64>, right: Seq<u64>)
    requires
        left.len() == right.len(),
    ensures
        lex_below(left, right) ==> comes_before(left, right),
{
    if lex_below(left, right) {
        let k = choose|k: int|
            0 <= k <= left.len() && k <= right.len() && #[trigger] left.take(k) == right.take(k)
                && (if k < left.len() && k < right.len() {
                left[k] < right[k]
            } else {
                k == left.len() && k < right.len()
            });
        assert forall|i: int| 0 <= i < k implies #[trigger] left[i] == right[i] by {
            assert(left.take(k)[i] == right.take(k)[i]);
        }
        assert(first_differs(left, right, k));
    }
}

/// The slice of all of a tensor names every coordinate of it, in row-major order.
pub proof fn full_slices_name_every_coordinate(shape: Seq<u64>, coord: Seq<u64>)
    requires
        all_positive(shape),
        in_box(coord, shape),
    ensures
        axes_fit(full_axes(shape), shape),
        box_coords(full_axes(shape)).len() == volume(shape),
        box_coords(full_axes(shape))[position_of(coord, shape)] == coord,
{
    let axes = full_axes(shape);
    assert forall|i: int| 0 <= i < shape.len() implies axis_fits(#[trigger] axes[i], shape[i]) by {
        assert(shape[i] > 0);
        assert(1 * (shape[i] - 1) == shape[i] - 1);
    }
    assert(axes_lens(axes) =~= shape);
    lemma_volume_positive(shape);
    lemma_position_bound(coord, shape);
    lemma_position_coordinate(coord, shape);
    let named = box_coords(axes)[position_of(coord, shape)];
    assert forall|i: int| 0 <= i < shape.len() implies named[i] == coord[i] by {
        assert(axes[i] is Span);
        assert(coord[i] * 1 == coord[i] && 1 * coord[i] == coord[i]);
    }
    assert(named =~= coord);
}

/// A request is one of a tensor if the positions it names are there, if each axis of its boxes lies
/// within its dimension, or if each listed coordinate lies in the shape.
pub proof fn requests_are_accepted_within_the_shape(
    shape: Seq<u64>,
    start: u64,
    len: nat,
    boxes: Seq<Seq<Selection>>,
    coords: Seq<Seq<u64>>,
)
    ensures
        all_positive(shape) ==> (request_fits(Requested::Linear { start, len }, shape) <==> volume(
            shape,
        ) <= u64::MAX && start + len <= volume(shape)),
        request_fits(Requested::Rectangles(boxes), shape) <==> forall|r: int|
            0 <= r < boxes.len() ==> (#[trigger] boxes[r]).len() == shape.len() && forall|i: int|
                0 <= i < shape.len() ==> axis_fits(#[trigger] boxes[r][i], shape[i]),
        request_fits(Requested::Explicit(coords), shape) <==> forall|k: int|
            0 <= k < coords.len() ==> in_box(#[trigger] coords[k], shape),
{
    if all_positive(shape) {
        lemma_product_fits(shape);
    }
    if forall|r: int|
        0 <= r < boxes.len() ==> (#[trigger] boxes[r]).len() == shape.len() && forall|i: int|
            0 <= i < shape.len() ==> axis_fits(#[trigger] boxes[r][i], shape[i]) {
        assert forall|r: int| 0 <= r < boxes.len() implies axes_fit(#[trigger] boxes[r], shape) by {
            assert(boxes[r].len() == shape.len());
        }
    }
    if request_fits(Requested::Rectangles(boxes), shape) {
        assert forall|r: int| 0 <= r < boxes.len() implies (#[trigger] boxes[r]).len()
            == shape.len() && forall|i: int|
            0 <= i < shape.len() ==> axis_fits(#[trigger] boxes[r][i], shape[i]) by {
            assert(axes_fit(boxes[r], shape));
        }
    }
}

/// A permutation names each axis once.
pub proof fn permutations_name_each_axis_once(order: Seq<usize>, rank: nat, axis: int)
    requires
        is_permutation(order, rank),
        0 <= axis < rank,
    ensures
        order.len() == rank,
        exists|i: int| 0 <= i < order.len() && #[trigger] order[i] == axis,
        forall|i: int, j: int|
            0 <= i < order.len() && 0 <= j < order.len() && #[trigger] order[i] == axis
                && #[trigger] order[j] == axis ==> i == j,
{
    if forall|i: int| 0 <= i < order.len() ==> #[trigger] order[i] != axis {
        lemma_fewer(order, rank, axis);
    }
    assert forall|i: int, j: int|
        0 <= i < order.len() && 0 <= j < order.len() && #[trigger] order[i] == axis
            && #[trigger] order[j] == axis implies i == j by {
        if i != j {
            assert(order[i] != order[j]);
        }
    }
}

} // verus!
