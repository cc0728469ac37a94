//! Which views accept writes, and that those show each element of the tensor once.

use vstd::prelude::*;
use crate::geometry::{
    in_box, lemma_position_coordinate, lemma_position_weighted, row_major_strides, volume,
};
use crate::inline::Bound;
use crate::mapping::{
    axis_has_extent, bound_axis, broadcast_fits, broadcasted, contiguous, contiguous_axes,
    Contribution, flipped, identity_map, is_permutation, kept, lemma_total_weighted, lemma_unravel,
    lens_known, Mapping, mapping_wf, marks, offset_at, reshaped, resolves, slice_axes, slice_fits,
    slice_nonempty, slice_shape, sliced, spread, squeeze_fits, squeezed, transposed, unravel,
    unsqueezed,
};
use crate::schema::{are_strides, valid_dims};
use crate::traits::{TensorGeometry, TensorTransform, TensorViewSemantics};
use crate::transform::{
    lemma_broadcast_places, lemma_slice_places, lemma_squeeze_places, lemma_transpose_places,
    lemma_unsqueeze_places, unpermuted,
};
use crate::transform_laws::{
    expand, flipping_mirrors_an_axis, lemma_spread, narrow, unspread, widen,
};
use crate::validate::{bound_fits, bound_len, lemma_bound_len, range_fits};
use crate::view::TensorView;
use crate::view_laws::{
    fixed, lemma_unset_before, set_before, slices_show_what_their_range_selects,
    squeezes_drop_the_named_axes, transposes_move_axes, unset_before,
    unsqueezes_add_axes_before_the_named_ones,
};

verus! {

/// A transform of a view.
pub ghost enum Transform {
    Reshape(Seq<u64>),
    Broadcast(Seq<u64>),
    Flip(int),
    Slice(Seq<Bound>),
    Squeeze(Seq<usize>),
    Transpose(Seq<usize>),
    Unsqueeze(Seq<usize>),
}

/// The transform can be applied to the view.
pub open spec fn applies(map: Mapping, step: Transform) -> bool {
    match step {
        Transform::Reshape(shape) => contiguous(map) && valid_dims(shape) && volume(shape)
            == volume(map.shape),
        Transform::Broadcast(shape) => broadcast_fits(map.shape, shape),
        Transform::Flip(axis) => 0 <= axis < map.shape.len(),
        Transform::Slice(range) => range_fits(range, map.shape) && slice_fits(map, range)
            && lens_known(range) && slice_nonempty(range),
        Transform::Squeeze(axes) => squeeze_fits(map.shape, axes),
        Transform::Transpose(order) => is_permutation(order, map.shape.len()),
        Transform::Unsqueeze(axes) => true,
    }
}

/// The view after the transform.
pub open spec fn applied(map: Mapping, step: Transform) -> Mapping {
    match step {
        Transform::Reshape(shape) => reshaped(map, shape),
        Transform::Broadcast(shape) => broadcasted(map, shape),
        Transform::Flip(axis) => flipped(map, axis),
        Transform::Slice(range) => sliced(map, range),
        Transform::Squeeze(axes) => squeezed(map, axes),
        Transform::Transpose(order) => transposed(map, order),
        Transform::Unsqueeze(axes) => unsqueezed(map, axes),
    }
}

/// The view after some transforms, one after the other.
pub open spec fn all_applied(map: Mapping, steps: Seq<Transform>) -> Mapping
    decreases steps.len(),
{
    if steps.len() == 0 {
        map
    } else {
        applied(all_applied(map, steps.drop_last()), steps.last())
    }
}

/// Each transform can be applied to what the ones before it give, and no view has more axes than a
/// machine can number.
pub open spec fn all_apply(map: Mapping, steps: Seq<Transform>) -> bool
    decreases steps.len(),
{
    &&& all_applied(map, steps).shape.len() <= usize::MAX
    &&& steps.len() > 0 ==> all_apply(map, steps.drop_last()) && applies(
        all_applied(map, steps.drop_last()),
        steps.last(),
    )
}

/// The coordinates agree on the axes that repeat elements or take them from a table.
spec fn agree(map: Mapping, left: Seq<u64>, right: Seq<u64>) -> bool {
    forall|i: int|
        0 <= i < map.axes.len() && !((#[trigger] map.axes[i]) is Stride) ==> left[i] == right[i]
}

/// Along its other axes the view shows each element once.
spec fn shows_once(map: Mapping) -> bool {
    &&& mapping_wf(map)
    &&& forall|left: Seq<u64>, right: Seq<u64>|
        #![trigger offset_at(map, left), offset_at(map, right)]
        in_box(left, map.shape) && in_box(right, map.shape) && agree(map, left, right)
            && offset_at(map, left) == offset_at(map, right) ==> left == right
}

proof fn lemma_strides_show_once(map: Mapping)
    requires
        map.axes == contiguous_axes(map.shape),
    ensures
        shows_once(map),
{
    assert forall|left: Seq<u64>, right: Seq<u64>|
        #![trigger offset_at(map, left), offset_at(map, right)]
        in_box(left, map.shape) && in_box(right, map.shape) && agree(map, left, right)
            && offset_at(map, left) == offset_at(map, right) implies left == right by {
        let weights = row_major_strides(map.shape);
        lemma_total_weighted(map.axes, left, weights);
        lemma_total_weighted(map.axes, right, weights);
        lemma_position_weighted(left, map.shape);
        lemma_position_weighted(right, map.shape);
        lemma_position_coordinate(left, map.shape);
        lemma_position_coordinate(right, map.shape);
    }
}

proof fn lemma_identity_shows_once(shape: Seq<u64>, strides: Seq<u64>)
    requires
        are_strides(strides, shape),
    ensures
        shows_once(identity_map(shape, strides)),
{
    let map = identity_map(shape, strides);
    assert(map.axes =~= contiguous_axes(shape)) by {
        assert forall|i: int| 0 <= i < shape.len() implies map.axes[i] == contiguous_axes(
            shape,
        )[i] by {
            assert(strides[i] == volume(shape.skip(i + 1)));
        }
    }
    lemma_strides_show_once(map);
}

proof fn lemma_flip_shows_once(map: Mapping, axis: int)
    requires
        shows_once(map),
        0 <= axis < map.shape.len(),
    ensures
        shows_once(flipped(map, axis)),
{
    let out = flipped(map, axis);
    let dim = map.shape[axis];
    assert forall|i: int| 0 <= i < out.axes.len() implies axis_has_extent(
        #[trigger] out.axes[i],
        out.shape[i],
    ) && (out.axes[i] is Stride <==> map.axes[i] is Stride) by {
        assert(axis_has_extent(map.axes[i], map.shape[i]));
    }
    assert forall|left: Seq<u64>, right: Seq<u64>|
        #![trigger offset_at(out, left), offset_at(out, right)]
        in_box(left, out.shape) && in_box(right, out.shape) && agree(out, left, right)
            && offset_at(out, left) == offset_at(out, right) implies left == right by {
        let l = left.update(axis, (dim - 1 - left[axis]) as u64);
        let r = right.update(axis, (dim - 1 - right[axis]) as u64);
        assert(left[axis] < dim && right[axis] < dim);
        flipping_mirrors_an_axis(map, axis, left);
        flipping_mirrors_an_axis(map, axis, right);
        assert forall|i: int| 0 <= i < map.shape.len() implies #[trigger] l[i] < map.shape[i] by {
            assert(left[i] < map.shape[i]);
        }
        assert forall|i: int| 0 <= i < map.shape.len() implies #[trigger] r[i] < map.shape[i] by {
            assert(right[i] < map.shape[i]);
        }
        assert forall|i: int|
            0 <= i < map.axes.len() && !((#[trigger] map.axes[i]) is Stride) implies l[i]
            == r[i] by {
            assert(!(out.axes[i] is Stride));
        }
        assert(l == r);
        assert forall|i: int| 0 <= i < left.len() implies left[i] == right[i] by {
            assert(l[i] == r[i]);
        }
        assert(left =~= right);
    }
}

proof fn lemma_transpose_shows_once(map: Mapping, order: Seq<usize>)
    requires
        shows_once(map),
        map.shape.len() <= usize::MAX,
        is_permutation(order, map.shape.len()),
    ensures
        shows_once(transposed(map, order)),
{
    let out = transposed(map, order);
    assert forall|i: int| 0 <= i < out.axes.len() implies axis_has_extent(
        #[trigger] out.axes[i],
        out.shape[i],
    ) by {
        assert(order[i] < map.shape.len());
        assert(axis_has_extent(map.axes[order[i] as int], map.shape[order[i] as int]));
    }
    lemma_transpose_places(map, order);
    assert forall|left: Seq<u64>, right: Seq<u64>|
        #![trigger offset_at(out, left), offset_at(out, right)]
        in_box(left, out.shape) && in_box(right, out.shape) && agree(out, left, right)
            && offset_at(out, left) == offset_at(out, right) implies left == right by {
        let l = unpermuted(order, left);
        let r = unpermuted(order, right);
        assert(in_box(l, map.shape) && in_box(r, map.shape));
        assert forall|i: int| 0 <= i < order.len() implies l[#[trigger] order[i] as int] == left[i]
            && r[order[i] as int] == right[i] by {
            transposes_move_axes(order, map.shape, left, i);
            transposes_move_axes(order, map.shape, right, i);
        }
        assert(agree(map, l, r)) by {
            assert forall|j: int|
                0 <= j < map.axes.len() && !((#[trigger] map.axes[j]) is Stride) implies l[j]
                == r[j] by {
                let p = crate::transform::place_in(order, j);
                lemma_place_in(order, map.shape.len(), j);
                assert(out.axes[p] == map.axes[j]);
                assert(l[order[p] as int] == left[p]);
            }
        }
        assert(l == r);
        assert forall|i: int| 0 <= i < left.len() implies left[i] == right[i] by {
            assert(l[order[i] as int] == left[i]);
        }
        assert(left =~= right);
    }
}

/// A permutation has every axis.
proof fn lemma_place_in(order: Seq<usize>, rank: nat, axis: int)
    requires
        is_permutation(order, rank),
        0 <= axis < rank,
    ensures
        ({
            let p = crate::transform::place_in(order, axis);
            0 <= p < order.len() && order[p] == axis
        }),
{
    if forall|i: int| 0 <= i < order.len() ==> #[trigger] order[i] != axis {
        crate::transform_laws::lemma_fewer(order, rank, axis);
    }
    let i = choose|i: int| 0 <= i < order.len() && #[trigger] order[i] == axis;
    assert(order[i] == axis);
}

proof fn lemma_broadcast_shows_once(map: Mapping, shape: Seq<u64>)
    requires
        shows_once(map),
        broadcast_fits(map.shape, shape),
    ensures
        shows_once(broadcasted(map, shape)),
{
    let out = broadcasted(map, shape);
    let fresh = shape.len() - map.shape.len();
    assert forall|p: int| 0 <= p < out.axes.len() implies axis_has_extent(
        #[trigger] out.axes[p],
        out.shape[p],
    ) by {
        if p >= fresh {
            let i = p - fresh;
            assert(axis_has_extent(map.axes[i], map.shape[i]));
            assert(map.shape[i] == 1 || map.shape[i] == shape[i + fresh]);
        }
    }
    lemma_broadcast_places(map, shape);
    assert forall|left: Seq<u64>, right: Seq<u64>|
        #![trigger offset_at(out, left), offset_at(out, right)]
        in_box(left, out.shape) && in_box(right, out.shape) && agree(out, left, right)
            && offset_at(out, left) == offset_at(out, right) implies left == right by {
        let l = unspread(map.shape, left);
        let r = unspread(map.shape, right);
        assert(in_box(l, map.shape) && in_box(r, map.shape));
        assert forall|i: int|
            0 <= i < map.axes.len() && !((#[trigger] map.axes[i]) is Stride) implies l[i]
            == r[i] by {
            assert(map.shape[i] == 1 || out.axes[i + fresh] == map.axes[i]);
            assert(!(out.axes[i + fresh] is Stride));
        }
        assert(l == r);
        assert forall|p: int| 0 <= p < left.len() implies left[p] == right[p] by {
            if !(out.axes[p] is Stride) {
                assert(left[p] == right[p]);
            } else {
                let i = p - fresh;
                assert(p >= fresh && map.shape[i] != 1);
                assert(l[i] == left[p] && r[i] == right[p]);
            }
        }
        assert(left =~= right);
    }
}

/// The axis of a slice that a bound gives.
proof fn lemma_slice_axis(axes: Seq<Contribution>, range: Seq<Bound>, i: int)
    requires
        axes.len() == range.len(),
        0 <= i < range.len(),
    ensures
        slice_axes(axes, range).len() == unset_before(fixed(range), range.len() as int),
        slice_shape(range).len() == unset_before(fixed(range), range.len() as int),
        !(range[i] is At) ==> ({
            let place = unset_before(fixed(range), i);
            &&& 0 <= place < slice_axes(axes, range).len()
            &&& slice_axes(axes, range)[place] == bound_axis(axes[i], range[i])
            &&& slice_shape(range)[place] == bound_len(range[i]) as u64
        }),
    decreases range.len(),
{
    let n = range.len() - 1;
    let flags = fixed(range);
    let head = range.drop_last();
    assert(fixed(head) =~= flags.drop_last());
    lemma_unset_before(flags, n);
    lemma_unset_before(flags, i);
    if n > 0 {
        let k = if i < n {
            i
        } else {
            0
        };
        lemma_unset_before(flags, k);
        lemma_slice_axis(axes.drop_last(), head, k);
        assert(fixed(head).take(n) =~= flags.take(n));
    } else {
        reveal(Seq::filter);
        assert(flags.take(0) =~= Seq::<bool>::empty());
        assert(slice_axes(axes.drop_last(), head) =~= Seq::<Contribution>::empty());
        assert(slice_shape(head) =~= Seq::<u64>::empty());
    }
}

/// Every place of what is left is that of a flag that is not set.
proof fn lemma_place_back(flags: Seq<bool>, n: int, place: int) -> (i: int)
    requires
        0 <= n <= flags.len(),
        0 <= place < unset_before(flags, n),
    ensures
        0 <= i < n,
        !flags[i],
        unset_before(flags, i) == place,
    decreases n,
{
    reveal(Seq::filter);
    if n == 0 {
        assert(flags.take(0) =~= Seq::<bool>::empty());
        0
    } else {
        lemma_unset_before(flags, n - 1);
        if place < unset_before(flags, n - 1) {
            lemma_place_back(flags, n - 1, place)
        } else {
            n - 1
        }
    }
}

proof fn lemma_slice_shows_once(map: Mapping, range: Seq<Bound>)
    requires
        shows_once(map),
        range_fits(range, map.shape),
        slice_fits(map, range),
        lens_known(range),
    ensures
        shows_once(sliced(map, range)),
{
    let out = sliced(map, range);
    let flags = fixed(range);
    let n = range.len() as int;
    if n > 0 {
        lemma_slice_axis(map.axes, range, 0);
    } else {
        assert(out.axes =~= Seq::<Contribution>::empty());
        assert(out.shape =~= Seq::<u64>::empty());
    }
    assert forall|q: int| 0 <= q < out.axes.len() implies axis_has_extent(
        #[trigger] out.axes[q],
        out.shape[q],
    ) by {
        let i = lemma_place_back(flags, n, q);
        lemma_slice_axis(map.axes, range, i);
        assert(bound_fits(range[i], map.shape[i]));
        assert(bound_len(range[i]) <= u64::MAX);
        lemma_bound_len(range[i], map.shape[i]);
    }
    lemma_slice_places(map, range);
    assert forall|left: Seq<u64>, right: Seq<u64>|
        #![trigger offset_at(out, left), offset_at(out, right)]
        in_box(left, out.shape) && in_box(right, out.shape) && agree(out, left, right)
            && offset_at(out, left) == offset_at(out, right) implies left == right by {
        let l = expand(range, left);
        let r = expand(range, right);
        assert(in_box(l, map.shape) && in_box(r, map.shape));
        assert forall|i: int|
            0 <= i < map.axes.len() && !((#[trigger] map.axes[i]) is Stride) implies l[i]
            == r[i] by {
            slices_show_what_their_range_selects(range, map.shape, left, i);
            slices_show_what_their_range_selects(range, map.shape, right, i);
            if !(range[i] is At) {
                lemma_slice_axis(map.axes, range, i);
                let place = unset_before(flags, i);
                assert(!(out.axes[place] is Stride));
            }
        }
        assert(l == r);
        assert forall|q: int| 0 <= q < left.len() implies left[q] == right[q] by {
            let i = lemma_place_back(flags, n, q);
            lemma_slice_axis(map.axes, range, i);
            slices_show_what_their_range_selects(range, map.shape, left, i);
            slices_show_what_their_range_selects(range, map.shape, right, i);
            assert(bound_fits(range[i], map.shape[i]));
            if !(out.axes[q] is Stride) {
                assert(left[q] == right[q]);
            } else if let Bound::In(start, _, step) = range[i] {
                assert(l[i] == r[i]);
                assert(left[q] == right[q]) by (nonlinear_arith)
                    requires
                        start + left[q] * step == start + right[q] * step,
                        step > 0,
                ;
            }
        }
        assert(left =~= right);
    }
}

proof fn lemma_kept_axis<A>(items: Seq<A>, dropped: Seq<bool>, i: int)
    requires
        items.len() == dropped.len(),
        0 <= i < items.len(),
    ensures
        kept(items, dropped).len() == unset_before(dropped, items.len() as int),
        !dropped[i] ==> ({
            let place = unset_before(dropped, i);
            0 <= place < kept(items, dropped).len() && kept(items, dropped)[place] == items[i]
        }),
    decreases items.len(),
{
    let n = items.len() - 1;
    let flags = dropped.drop_last();
    lemma_unset_before(dropped, n);
    lemma_unset_before(dropped, i);
    if n > 0 {
        let k = if i < n {
            i
        } else {
            0
        };
        lemma_unset_before(dropped, k);
        lemma_kept_axis(items.drop_last(), flags, k);
        assert(flags.take(n) =~= dropped.take(n));
    } else {
        reveal(Seq::filter);
        assert(dropped.take(0) =~= Seq::<bool>::empty());
        assert(kept(items.drop_last(), flags) =~= Seq::<A>::empty());
    }
}

proof fn lemma_squeeze_shows_once(map: Mapping, axes: Seq<usize>)
    requires
        shows_once(map),
        map.shape.len() <= usize::MAX,
        squeeze_fits(map.shape, axes),
    ensures
        shows_once(squeezed(map, axes)),
{
    let out = squeezed(map, axes);
    let dropped = marks(map.shape.len(), axes);
    let n = map.shape.len() as int;
    assert(axes[0] < n);
    lemma_kept_axis(map.axes, dropped, 0);
    lemma_kept_axis(map.shape, dropped, 0);
    assert forall|q: int| 0 <= q < out.axes.len() implies axis_has_extent(
        #[trigger] out.axes[q],
        out.shape[q],
    ) by {
        let i = lemma_place_back(dropped, n, q);
        lemma_kept_axis(map.axes, dropped, i);
        lemma_kept_axis(map.shape, dropped, i);
        assert(axis_has_extent(map.axes[i], map.shape[i]));
    }
    lemma_squeeze_places(map, axes);
    assert forall|left: Seq<u64>, right: Seq<u64>|
        #![trigger offset_at(out, left), offset_at(out, right)]
        in_box(left, out.shape) && in_box(right, out.shape) && agree(out, left, right)
            && offset_at(out, left) == offset_at(out, right) implies left == right by {
        let l = widen(dropped, left);
        let r = widen(dropped, right);
        assert(in_box(l, map.shape) && in_box(r, map.shape));
        assert forall|i: int|
            0 <= i < map.axes.len() && !((#[trigger] map.axes[i]) is Stride) implies l[i]
            == r[i] by {
            squeezes_drop_the_named_axes(map.shape, axes, left, i);
            squeezes_drop_the_named_axes(map.shape, axes, right, i);
            lemma_kept_axis(map.axes, dropped, i);
            if !dropped[i] {
                assert(!(out.axes[unset_before(dropped, i)] is Stride));
            }
        }
        assert(l == r);
        assert forall|q: int| 0 <= q < left.len() implies left[q] == right[q] by {
            let i = lemma_place_back(dropped, n, q);
            squeezes_drop_the_named_axes(map.shape, axes, left, i);
            squeezes_drop_the_named_axes(map.shape, axes, right, i);
        }
        assert(left =~= right);
    }
}

/// Every axis of an unsqueezed view is a new one or the place of an old one.
proof fn lemma_spread_place(inserted: Seq<bool>, p: int)
    requires
        0 <= p < spread(inserted).len(),
    ensures
        spread(inserted)[p] matches Some(i) ==> 0 <= i < inserted.len() && p == i + set_before(
            inserted,
            i + 1,
        ),
    decreases inserted.len(),
{
    let n = inserted.len() - 1;
    let init = inserted.drop_last();
    let before = spread(init);
    lemma_unset_before(inserted, n);
    if p < before.len() {
        lemma_spread_place(init, p);
        assert(spread(inserted)[p] == before[p]);
        if let Some(i) = before[p] {
            assert(init.take(i + 1) =~= inserted.take(i + 1));
        }
    } else {
        lemma_spread_len(init);
        if n > 0 {
            lemma_unset_before(inserted, n - 1);
        }
        assert(init.take(n) =~= inserted.take(n));
    }
}

proof fn lemma_spread_len(inserted: Seq<bool>)
    ensures
        spread(inserted).len() == inserted.len() + set_before(inserted, inserted.len() as int),
    decreases inserted.len(),
{
    if inserted.len() > 0 {
        let n = inserted.len() - 1;
        let init = inserted.drop_last();
        lemma_spread_len(init);
        lemma_unset_before(inserted, n);
        assert(init.take(n) =~= inserted.take(n));
    } else {
        reveal(Seq::filter);
        assert(inserted.take(0) =~= Seq::<bool>::empty());
    }
}

proof fn lemma_unsqueeze_shows_once(map: Mapping, axes: Seq<usize>)
    requires
        shows_once(map),
        map.shape.len() <= usize::MAX,
    ensures
        shows_once(unsqueezed(map, axes)),
{
    let out = unsqueezed(map, axes);
    let inserted = marks(map.shape.len(), axes);
    let layout = spread(inserted);
    lemma_spread(inserted);
    assert forall|p: int| 0 <= p < out.axes.len() implies axis_has_extent(
        #[trigger] out.axes[p],
        out.shape[p],
    ) by {
        if let Some(i) = layout[p] {
            assert(axis_has_extent(map.axes[i], map.shape[i]));
        }
    }
    lemma_unsqueeze_places(map, axes);
    assert forall|left: Seq<u64>, right: Seq<u64>|
        #![trigger offset_at(out, left), offset_at(out, right)]
        in_box(left, out.shape) && in_box(right, out.shape) && agree(out, left, right)
            && offset_at(out, left) == offset_at(out, right) implies left == right by {
        let l = narrow(inserted, left);
        let r = narrow(inserted, right);
        assert(in_box(l, map.shape) && in_box(r, map.shape));
        assert forall|i: int|
            0 <= i < map.axes.len() && !((#[trigger] map.axes[i]) is Stride) implies l[i]
            == r[i] by {
            unsqueezes_add_axes_before_the_named_ones(map.shape, axes, left, i);
            unsqueezes_add_axes_before_the_named_ones(map.shape, axes, right, i);
            lemma_layout_at(inserted, i);
            assert(out.axes[i + set_before(inserted, i + 1)] == map.axes[i]);
        }
        assert(l == r);
        assert forall|p: int| 0 <= p < left.len() implies left[p] == right[p] by {
            lemma_spread_place(inserted, p);
            match layout[p] {
                Some(i) => {
                    unsqueezes_add_axes_before_the_named_ones(map.shape, axes, left, i);
                    unsqueezes_add_axes_before_the_named_ones(map.shape, axes, right, i);
                },
                None => {
                    assert(out.shape[p] == 1);
                    assert(left[p] < out.shape[p] && right[p] < out.shape[p]);
                },
            }
        }
        assert(left =~= right);
    }
}

/// Where an old axis stands in an unsqueezed view.
proof fn lemma_layout_at(inserted: Seq<bool>, i: int)
    requires
        0 <= i < inserted.len(),
    ensures
        ({
            let p = i + set_before(inserted, i + 1);
            0 <= p < spread(inserted).len() && spread(inserted)[p] == Some(i)
        }),
    decreases inserted.len(),
{
    let n = inserted.len() - 1;
    let init = inserted.drop_last();
    lemma_unset_before(inserted, n);
    lemma_spread_len(init);
    assert(init.take(n) =~= inserted.take(n));
    if i < n {
        lemma_layout_at(init, i);
        assert(init.take(i + 1) =~= inserted.take(i + 1));
        let p = i + set_before(init, i + 1);
        assert(spread(inserted)[p] == spread(init)[p]);
    }
}

proof fn lemma_step_shows_once(map: Mapping, step: Transform)
    requires
        shows_once(map),
        map.shape.len() <= usize::MAX,
        applies(map, step),
    ensures
        shows_once(applied(map, step)),
{
    match step {
        Transform::Reshape(shape) => lemma_strides_show_once(reshaped(map, shape)),
        Transform::Broadcast(shape) => lemma_broadcast_shows_once(map, shape),
        Transform::Flip(axis) => lemma_flip_shows_once(map, axis),
        Transform::Slice(range) => lemma_slice_shows_once(map, range),
        Transform::Squeeze(axes) => lemma_squeeze_shows_once(map, axes),
        Transform::Transpose(order) => lemma_transpose_shows_once(map, order),
        Transform::Unsqueeze(axes) => lemma_unsqueeze_shows_once(map, axes),
    }
}

proof fn lemma_steps_show_once(map: Mapping, steps: Seq<Transform>)
    requires
        shows_once(map),
        all_apply(map, steps),
    ensures
        shows_once(all_applied(map, steps)),
    decreases steps.len(),
{
    if steps.len() > 0 {
        lemma_steps_show_once(map, steps.drop_last());
        lemma_step_shows_once(all_applied(map, steps.drop_last()), steps.last());
    }
}

/// The view is reached from the whole of a tensor by transforms.
pub open spec fn is_reached<B>(view: TensorView<B>, steps: Seq<Transform>) -> bool {
    let whole = identity_map(view.spec_base_shape(), view.spec_base_strides());
    &&& are_strides(view.spec_base_strides(), view.spec_base_shape())
    &&& all_apply(whole, steps)
    &&& view.spec_mapping() == all_applied(whole, steps)
}

/// A view that accepts writes shows each element of the tensor at most once, whatever transforms it
/// was reached by: two coordinates of it are two places, and two coordinates to write to. So a
/// write through a view changes what the view shows at the written coordinate, and nowhere else.
pub proof fn written_views_show_each_element_once<B>(
    view: TensorView<B>,
    steps: Seq<Transform>,
    left: Seq<u64>,
    right: Seq<u64>,
)
    requires
        is_reached(view, steps),
        view.spec_writes_through(),
        in_box(left, view.spec_shape()),
        in_box(right, view.spec_shape()),
        left != right,
    ensures
        view.places(left) != view.places(right),
        ({
            let map = view.spec_mapping();
            let shape = view.spec_base_shape();
            let strides = view.spec_base_strides();
            resolves(map, left, shape, strides) && resolves(map, right, shape, strides) ==> unravel(
                offset_at(map, left),
                shape,
                strides,
            ) != unravel(offset_at(map, right), shape, strides)
        }),
{
    let shape = view.spec_base_shape();
    let strides = view.spec_base_strides();
    let map = view.spec_mapping();
    lemma_identity_shows_once(shape, strides);
    lemma_steps_show_once(identity_map(shape, strides), steps);
    assert(agree(map, left, right));
    assert(offset_at(map, left) != offset_at(map, right));
    assert(view.places(left)[0] == offset_at(map, left));
    assert(view.places(right)[0] == offset_at(map, right));
    if resolves(map, left, shape, strides) && resolves(map, right, shape, strides) {
        crate::geometry::lemma_volume_positive(shape);
        lemma_unravel(offset_at(map, left), shape, strides);
        lemma_unravel(offset_at(map, right), shape, strides);
        crate::geometry::lemma_coordinate_position(offset_at(map, left), shape);
        crate::geometry::lemma_coordinate_position(offset_at(map, right), shape);
    }
}

/// The transform neither repeats elements nor takes them from a list.
pub open spec fn is_plain(step: Transform) -> bool {
    match step {
        Transform::Broadcast(_) => false,
        Transform::Slice(range) => forall|i: int|
            0 <= i < range.len() ==> !((#[trigger] range[i]) is Of),
        _ => true,
    }
}

/// A view that was neither spread nor sliced by a list accepts writes.
pub proof fn plain_views_accept_writes<B>(view: TensorView<B>, steps: Seq<Transform>)
    requires
        is_reached(view, steps),
        forall|k: int| 0 <= k < steps.len() ==> is_plain(#[trigger] steps[k]),
    ensures
        view.spec_writes_through(),
{
    let whole = identity_map(view.spec_base_shape(), view.spec_base_strides());
    lemma_plain(whole, steps);
}

spec fn all_strides(map: Mapping) -> bool {
    map.axes.len() == map.shape.len() && forall|i: int|
        0 <= i < map.axes.len() ==> (#[trigger] map.axes[i]) is Stride
}

proof fn lemma_plain(map: Mapping, steps: Seq<Transform>)
    requires
        all_strides(map),
        all_apply(map, steps),
        forall|k: int| 0 <= k < steps.len() ==> is_plain(#[trigger] steps[k]),
    ensures
        all_strides(all_applied(map, steps)),
    decreases steps.len(),
{
    if steps.len() > 0 {
        let init = steps.drop_last();
        let before = all_applied(map, init);
        let step = steps.last();
        assert(is_plain(steps[steps.len() - 1]));
        assert forall|k: int| 0 <= k < init.len() implies is_plain(#[trigger] init[k]) by {
            assert(is_plain(steps[k]));
        }
        lemma_plain(map, init);
        let out = applied(before, step);
        match step {
            Transform::Slice(range) => {
                if range.len() > 0 {
                    lemma_slice_axis(before.axes, range, 0);
                }
                assert forall|q: int| 0 <= q < out.axes.len() implies (
                #[trigger] out.axes[q]) is Stride by {
                    let i = lemma_place_back(fixed(range), range.len() as int, q);
                    lemma_slice_axis(before.axes, range, i);
                    assert(before.axes[i] is Stride);
                    assert(!(range[i] is Of));
                }
            },
            Transform::Squeeze(axes) => {
                let dropped = marks(before.shape.len(), axes);
                assert(axes[0] < before.shape.len());
                lemma_kept_axis(before.axes, dropped, 0);
                lemma_kept_axis(before.shape, dropped, 0);
                assert forall|q: int| 0 <= q < out.axes.len() implies (
                #[trigger] out.axes[q]) is Stride by {
                    let i = lemma_place_back(dropped, before.axes.len() as int, q);
                    lemma_kept_axis(before.axes, dropped, i);
                    assert(before.axes[i] is Stride);
                }
            },
            Transform::Unsqueeze(axes) => {
                let inserted = marks(before.shape.len(), axes);
                lemma_spread(inserted);
                assert forall|p: int| 0 <= p < out.axes.len() implies (
                #[trigger] out.axes[p]) is Stride by {
                    if let Some(i) = spread(inserted)[p] {
                        assert(before.axes[i] is Stride);
                    }
                }
            },
            Transform::Transpose(order) => {
                assert forall|i: int| 0 <= i < out.axes.len() implies (
                #[trigger] out.axes[i]) is Stride by {
                    assert(order[i] < before.shape.len());
                    assert(before.axes[order[i] as int] is Stride);
                }
            },
            _ => {},
        }
    }
}

/// A view that was just spread along some axis, or sliced by a list, refuses writes.
pub proof fn spread_and_listed_views_refuse_writes<B>(
    view: TensorView<B>,
    under: Mapping,
    step: Transform,
)
    requires
        mapping_wf(under),
        applies(under, step),
        view.spec_mapping() == applied(under, step),
        match step {
            Transform::Broadcast(shape) => shape.len() > under.shape.len() || exists|i: int|
                0 <= i < under.shape.len() && #[trigger] under.shape[i] == 1,
            Transform::Slice(range) => exists|i: int|
                0 <= i < range.len() && (#[trigger] range[i]) is Of,
            _ => false,
        },
    ensures
        !view.spec_writes_through(),
{
    let out = applied(under, step);
    match step {
        Transform::Broadcast(shape) => {
            let fresh = shape.len() - under.shape.len();
            if fresh > 0 {
                assert(!(out.axes[0] is Stride));
            } else {
                let i = choose|i: int|
                    0 <= i < under.shape.len() && #[trigger] under.shape[i] == 1;
                assert(!(out.axes[i + fresh] is Stride));
            }
        },
        Transform::Slice(range) => {
            let i = choose|i: int| 0 <= i < range.len() && (#[trigger] range[i]) is Of;
            lemma_slice_axis(under.axes, range, i);
            assert(!(out.axes[unset_before(fixed(range), i)] is Stride));
        },
        _ => {},
    }
}

} // verus!
