//! How far the offsets of a view can lie from zero.
//!
//! The arithmetic of a transform is exact as long as its results are machine numbers. The room of a
//! view bounds them: a view that starts as a whole tensor has as much room as the tensor has
//! elements, and each transform says how much the room grows.

use vstd::prelude::*;
use crate::geometry::{
    all_positive, in_box, lemma_volume_positive, lemma_volume_suffix_bound, volume, weighted_sum,
};
use crate::inline::Bound;
use crate::mapping::{
    affine_strides, affine_up_to, bound_arith_fits, bound_axis, bound_delta, broadcast_fits,
    broadcasted, constants, Contribution, contribution, fits, flip_delta, flip_fits, flipped,
    has_table, identity_map, index_known, is_affine, is_permutation, kept, Mapping, mapping_wf,
    marks, offset_at, reshaped, resolves, slice_axes, slice_base, slice_fits, slice_shape, sliced,
    spread, squeeze_base, squeeze_base_fits, squeeze_fits, squeezed, total, transposed, unsqueezed,
    unsqueezed_shape,
};
use crate::request::{
    axes_fit, axes_volume, lemma_request_len, lens_fit, request_coords, request_fits,
    requested_coordinates_lie_in_the_shape, Requested, Selection,
};
use crate::schema::{are_strides, lemma_ceil_div, lemma_product_fits};
use crate::storage_read::{affine_at, plannable, StorageShape, sum_fits};
use crate::transform_laws::lemma_spread;
use crate::validate::{bound_fits, bound_len, range_fits};

verus! {

/// A number lies within `n` of zero.
pub open spec fn near(value: int, n: int) -> bool {
    -n <= value <= n
}

/// What an axis adds lies within `n` of zero.
pub open spec fn axis_room(axis: Contribution, dim: u64, n: int) -> bool {
    match axis {
        Contribution::Stride(stride) => near(stride, n) && near(stride * dim, n),
        Contribution::Gather(entries) => forall|k: int|
            0 <= k < entries.len() ==> near(#[trigger] entries[k] as int, n),
        Contribution::Broadcast(constant) => near(constant, n),
    }
}

/// The base offset of a map, and what each axis adds, lie within `n` of zero.
pub open spec fn map_room(map: Mapping, n: int) -> bool {
    &&& near(map.base, n)
    &&& forall|i: int|
        0 <= i < map.axes.len() ==> axis_room(#[trigger] map.axes[i], map.shape[i], n)
}

/// No bound steps by more than `m`.
pub open spec fn steps_at_most(range: Seq<Bound>, m: int) -> bool {
    forall|i: int|
        0 <= i < range.len() ==> ((#[trigger] range[i]) matches Bound::In(_, _, step) ==> step
            <= m)
}

/// The room of a slice, by the rank and the room of the view and its largest step.
pub open spec fn sliced_room(n: int, rank: nat, m: int) -> int {
    n * (m + rank + 1)
}

/// The room of a view without some axes, by its rank and room.
pub open spec fn squeezed_room(n: int, rank: nat) -> int {
    n * (rank + 1)
}

proof fn lemma_index_near(stride: int, dim: u64, index: int, n: int)
    requires
        near(stride, n),
        near(stride * dim, n),
        0 <= index <= dim,
    ensures
        near(stride * index, n),
{
    if stride >= 0 {
        assert(0 <= stride * index <= stride * dim) by (nonlinear_arith)
            requires
                stride >= 0,
                0 <= index <= dim,
        ;
    } else {
        assert(0 >= stride * index >= stride * dim) by (nonlinear_arith)
            requires
                stride < 0,
                0 <= index <= dim,
        ;
    }
}

/// A larger bound holds too.
pub proof fn lemma_room_grows(map: Mapping, n: int, larger: int)
    requires
        map_room(map, n),
        n <= larger,
    ensures
        map_room(map, larger),
{
    assert forall|i: int| 0 <= i < map.axes.len() implies axis_room(
        #[trigger] map.axes[i],
        map.shape[i],
        larger,
    ) by {
        assert(axis_room(map.axes[i], map.shape[i], n));
    }
}

proof fn lemma_row_major_room(shape: Seq<u64>, axes: Seq<Contribution>, n: int)
    requires
        all_positive(shape),
        volume(shape) <= n,
        axes.len() == shape.len(),
        forall|i: int|
            0 <= i < axes.len() ==> #[trigger] axes[i] == Contribution::Stride(
                volume(shape.skip(i + 1)),
            ),
    ensures
        forall|i: int| 0 <= i < axes.len() ==> axis_room(#[trigger] axes[i], shape[i], n),
{
    assert forall|i: int| 0 <= i < axes.len() implies axis_room(#[trigger] axes[i], shape[i], n) by {
        lemma_volume_suffix_bound(shape, i);
        lemma_volume_suffix_bound(shape, i + 1);
        assert(shape.skip(i).skip(1) =~= shape.skip(i + 1));
        assert(volume(shape.skip(i)) == shape[i] * volume(shape.skip(i + 1)));
        let stride = volume(shape.skip(i + 1));
        assert(stride * shape[i] == shape[i] * stride) by (nonlinear_arith);
    }
}

/// A whole tensor has as much room as it has elements.
pub proof fn whole_tensors_have_room(shape: Seq<u64>, strides: Seq<u64>, n: int)
    requires
        all_positive(shape),
        are_strides(strides, shape),
        volume(shape) <= n,
    ensures
        map_room(identity_map(shape, strides), n),
{
    lemma_volume_positive(shape);
    let map = identity_map(shape, strides);
    assert forall|i: int| 0 <= i < map.axes.len() implies #[trigger] map.axes[i]
        == Contribution::Stride(volume(shape.skip(i + 1))) by {
        assert(strides[i] == volume(shape.skip(i + 1)));
    }
    lemma_row_major_room(shape, map.axes, n);
}

/// A view in another shape has the same room, if it can count its elements.
pub proof fn lemma_reshaped_room(map: Mapping, shape: Seq<u64>, n: int)
    requires
        map_room(map, n),
        all_positive(shape),
        volume(shape) <= n,
    ensures
        map_room(reshaped(map, shape), n),
{
    lemma_row_major_room(shape, reshaped(map, shape).axes, n);
}

/// The order of the axes does not change the room.
pub proof fn lemma_transposed_room(map: Mapping, permutation: Seq<usize>, n: int)
    requires
        mapping_wf(map),
        map_room(map, n),
        is_permutation(permutation, map.shape.len()),
    ensures
        map_room(transposed(map, permutation), n),
{
    let out = transposed(map, permutation);
    assert forall|i: int| 0 <= i < out.axes.len() implies axis_room(
        #[trigger] out.axes[i],
        out.shape[i],
        n,
    ) by {
        assert(axis_room(map.axes[permutation[i] as int], map.shape[permutation[i] as int], n));
    }
}

/// Repeating elements does not change the room.
pub proof fn lemma_broadcasted_room(map: Mapping, shape: Seq<u64>, n: int)
    requires
        mapping_wf(map),
        map_room(map, n),
        broadcast_fits(map.shape, shape),
    ensures
        map_room(broadcasted(map, shape), n),
{
    let out = broadcasted(map, shape);
    let fresh = shape.len() - map.shape.len();
    assert forall|p: int| 0 <= p < out.axes.len() implies axis_room(
        #[trigger] out.axes[p],
        out.shape[p],
        n,
    ) by {
        if p >= fresh {
            let i = p - fresh;
            assert(axis_room(map.axes[i], map.shape[i], n));
            assert(map.shape[i] == 1 || map.shape[i] == shape[i + fresh]);
            if map.shape[i] == 1 {
                if let Contribution::Gather(entries) = map.axes[i] {
                    assert(entries.len() == 1);
                    assert(near(entries[0] as int, n));
                }
            }
        }
    }
}

/// An axis run backwards: the arithmetic stays in range if twice the room does, and the room at
/// most doubles.
pub proof fn flips_stay_in_range(map: Mapping, axis: int, n: int)
    requires
        mapping_wf(map),
        map_room(map, n),
        0 <= axis < map.shape.len(),
    ensures
        2 * n <= i128::MAX ==> flip_fits(map, axis),
        map_room(flipped(map, axis), 2 * n),
{
    let dim = map.shape[axis];
    assert(axis_room(map.axes[axis], dim, n));
    if let Contribution::Stride(stride) = map.axes[axis] {
        if dim >= 1 {
            lemma_index_near(stride, dim, dim - 1, n);
            assert((dim - 1) * stride == stride * (dim - 1)) by (nonlinear_arith);
        } else {
            assert((dim - 1) * stride == -stride) by (nonlinear_arith)
                requires
                    dim == 0,
            ;
        }
        assert((-stride) * dim == -(stride * dim)) by (nonlinear_arith);
    }
    assert(near(flip_delta(map.axes[axis], dim), n));
    let out = flipped(map, axis);
    assert forall|i: int| 0 <= i < out.axes.len() implies axis_room(
        #[trigger] out.axes[i],
        out.shape[i],
        2 * n,
    ) by {
        assert(axis_room(map.axes[i], map.shape[i], n));
        if i == axis {
            if let Contribution::Gather(entries) = map.axes[axis] {
                let turned = entries.reverse();
                assert forall|k: int| 0 <= k < turned.len() implies near(
                    #[trigger] turned[k] as int,
                    2 * n,
                ) by {
                    assert(near(entries[entries.len() - 1 - k] as int, n));
                }
            }
        }
    }
}

proof fn lemma_steps_near(stride: int, step: int, len: int, dim: u64, n: int, m: int)
    requires
        near(stride, n),
        near(stride * dim, n),
        0 < step <= m,
        0 <= len,
        len > 0 ==> (len - 1) * step < dim,
    ensures
        near((stride * step) * len, n * (m + 1)),
{
    assert(near(stride * step, n * m)) by (nonlinear_arith)
        requires
            near(stride, n),
            0 < step <= m,
    ;
    assert(n * (m + 1) == n * m + n) by (nonlinear_arith);
    if len > 0 {
        let reached = (len - 1) * step;
        assert(reached >= 0) by (nonlinear_arith)
            requires
                reached == (len - 1) * step,
                len >= 1,
                step > 0,
        ;
        lemma_index_near(stride, dim, reached, n);
        assert((stride * step) * len == stride * reached + stride * step) by (nonlinear_arith)
            requires
                reached == (len - 1) * step,
        ;
    } else {
        assert((stride * step) * len == 0) by (nonlinear_arith)
            requires
                len == 0,
        ;
        assert(n * m >= 0) by (nonlinear_arith)
            requires
                n >= 0,
                m >= 0,
        ;
    }
}

proof fn lemma_bound_room(axis: Contribution, bound: Bound, dim: u64, n: int, m: int)
    requires
        axis_room(axis, dim, n),
        axis matches Contribution::Gather(entries) ==> entries.len() == dim,
        bound_fits(bound, dim),
        bound matches Bound::In(_, _, step) ==> step <= m,
        m >= 0,
        n >= 0,
        n * (m + 1) <= i128::MAX,
    ensures
        bound_arith_fits(axis, bound),
        near(bound_delta(axis, bound), n),
        axis_room(bound_axis(axis, bound), bound_len(bound) as u64, n * (m + 1)) || bound is At,
{
    assert(n <= n * (m + 1) && n * m <= n * (m + 1)) by (nonlinear_arith)
        requires
            n >= 0,
            m >= 0,
    ;
    match bound {
        Bound::At(index) => {
            match axis {
                Contribution::Stride(stride) => {
                    lemma_index_near(stride, dim, index as int, n);
                },
                Contribution::Gather(entries) => {
                    assert(near(entries[index as int] as int, n));
                },
                Contribution::Broadcast(_) => {},
            }
        },
        Bound::In(start, stop, step) => {
            let len = bound_len(bound);
            lemma_ceil_div(stop - start, step as int);
            match axis {
                Contribution::Stride(stride) => {
                    lemma_index_near(stride, dim, start as int, n);
                    assert(near(stride * step, n * m)) by (nonlinear_arith)
                        requires
                            near(stride, n),
                            0 <= step <= m,
                    ;
                    lemma_steps_near(stride, step as int, len, dim, n, m);
                },
                Contribution::Gather(entries) => {
                    let out = Seq::new(len as nat, |i: int| entries[start + i * step]);
                    assert forall|k: int| 0 <= k < out.len() implies near(
                        #[trigger] out[k] as int,
                        n * (m + 1),
                    ) by {
                        assert(0 <= k * step <= (len - 1) * step) by (nonlinear_arith)
                            requires
                                0 <= k <= len - 1,
                                step > 0,
                        ;
                        assert(near(entries[start + k * step] as int, n));
                    }
                },
                Contribution::Broadcast(_) => {},
            }
        },
        Bound::Of(indices) => {
            match axis {
                Contribution::Stride(stride) => {
                    assert forall|i: int| 0 <= i < indices.len() implies near(
                        stride * #[trigger] indices[i],
                        n,
                    ) by {
                        lemma_index_near(stride, dim, indices[i] as int, n);
                    }
                    let out = Seq::new(indices.len(), |i: int| (stride * indices[i]) as i128);
                    assert forall|k: int| 0 <= k < out.len() implies near(
                        #[trigger] out[k] as int,
                        n * (m + 1),
                    ) by {
                        assert(near(stride * indices[k], n));
                    }
                },
                Contribution::Gather(entries) => {
                    let out = Seq::new(indices.len(), |i: int| entries[indices[i] as int]);
                    assert forall|k: int| 0 <= k < out.len() implies near(
                        #[trigger] out[k] as int,
                        n * (m + 1),
                    ) by {
                        assert(indices[k] < dim);
                        assert(near(entries[indices[k] as int] as int, n));
                    }
                },
                Contribution::Broadcast(_) => {},
            }
        },
    }
}

proof fn lemma_prefix_room(map: Mapping, range: Seq<Bound>, n: int, m: int, i: int)
    requires
        mapping_wf(map),
        map_room(map, n),
        0 <= i <= range.len(),
        i <= map.shape.len(),
        forall|j: int| 0 <= j < i ==> bound_fits(#[trigger] range[j], map.shape[j]),
        steps_at_most(range, m),
        m >= 0,
        n >= 0,
        n * (m + 1) <= i128::MAX,
    ensures
        near(slice_base(map.base, map.axes.take(i), range.take(i)), n * (i + 1)),
        ({
            let axes = slice_axes(map.axes.take(i), range.take(i));
            let shape = slice_shape(range.take(i));
            &&& axes.len() == shape.len()
            &&& forall|k: int|
                0 <= k < axes.len() ==> axis_room(#[trigger] axes[k], shape[k], n * (m + 1))
        }),
    decreases i,
{
    if i == 0 {
        assert(n * (0 + 1) == n);
    } else {
        let axes = map.axes.take(i);
        let bounds = range.take(i);
        lemma_prefix_room(map, range, n, m, i - 1);
        assert(axes.drop_last() =~= map.axes.take(i - 1));
        assert(bounds.drop_last() =~= range.take(i - 1));
        assert(axes.last() == map.axes[i - 1]);
        assert(bounds.last() == range[i - 1]);
        assert(axis_room(map.axes[i - 1], map.shape[i - 1], n));
        assert(bound_fits(range[i - 1], map.shape[i - 1]));
        lemma_bound_room(map.axes[i - 1], range[i - 1], map.shape[i - 1], n, m);
        assert(n * (i + 1) == n * i + n) by (nonlinear_arith);
    }
}

/// A slice: the arithmetic stays in range if the room of the slice does.
pub proof fn slices_stay_in_range(map: Mapping, range: Seq<Bound>, n: int, m: int)
    requires
        mapping_wf(map),
        map_room(map, n),
        steps_at_most(range, m),
        m >= 0,
        sliced_room(n, map.shape.len(), m) <= i128::MAX,
    ensures
        slice_fits(map, range),
        range_fits(range, map.shape) ==> map_room(
            sliced(map, range),
            sliced_room(n, map.shape.len(), m),
        ),
{
    let rank = map.shape.len() as int;
    assert(n * (m + 1) <= n * (m + rank + 1) && n * (rank + 1) <= n * (m + rank + 1)) by (
    nonlinear_arith)
        requires
            n >= 0,
            m >= 0,
            rank >= 0,
    ;
    assert forall|i: int|
        #![trigger range[i]]
        0 <= i < range.len() && range.len() == map.shape.len() && range_fits(
            range.take(i + 1),
            map.shape.take(i + 1),
        ) implies {
        &&& bound_arith_fits(map.axes[i], range[i])
        &&& fits(slice_base(map.base, map.axes.take(i + 1), range.take(i + 1)))
    } by {
        let bounds = range.take(i + 1);
        let dims = map.shape.take(i + 1);
        assert forall|j: int| 0 <= j < i + 1 implies bound_fits(
            #[trigger] range[j],
            map.shape[j],
        ) by {
            assert(bound_fits(bounds[j], dims[j]));
        }
        assert(axis_room(map.axes[i], map.shape[i], n));
        lemma_bound_room(map.axes[i], range[i], map.shape[i], n, m);
        lemma_prefix_room(map, range, n, m, i + 1);
        assert(n * (i + 2) <= n * (rank + 1)) by (nonlinear_arith)
            requires
                n >= 0,
                i + 2 <= rank + 1,
        ;
    }
    if range_fits(range, map.shape) {
        lemma_prefix_room(map, range, n, m, rank);
        assert(map.axes.take(rank) =~= map.axes);
        assert(range.take(rank) =~= range);
        let out = sliced(map, range);
        assert forall|k: int| 0 <= k < out.axes.len() implies axis_room(
            #[trigger] out.axes[k],
            out.shape[k],
            n * (m + rank + 1),
        ) by {
            assert(axis_room(out.axes[k], out.shape[k], n * (m + 1)));
        }
    }
}

proof fn lemma_kept_room(map: Mapping, dropped: Seq<bool>, n: int, i: int)
    requires
        mapping_wf(map),
        map_room(map, n),
        0 <= i <= dropped.len(),
        dropped.len() == map.shape.len(),
        forall|j: int| 0 <= j < dropped.len() && #[trigger] dropped[j] ==> map.shape[j] == 1,
    ensures
        near(squeeze_base(map.base, map.axes.take(i), dropped.take(i)), n * (i + 1)),
        ({
            let axes = kept(map.axes.take(i), dropped.take(i));
            let shape = kept(map.shape.take(i), dropped.take(i));
            &&& axes.len() == shape.len()
            &&& forall|k: int| 0 <= k < axes.len() ==> axis_room(#[trigger] axes[k], shape[k], n)
        }),
    decreases i,
{
    if i == 0 {
        assert(n * (0 + 1) == n);
    } else {
        lemma_kept_room(map, dropped, n, i - 1);
        let marked = dropped.take(i);
        assert(map.axes.take(i).drop_last() =~= map.axes.take(i - 1));
        assert(map.shape.take(i).drop_last() =~= map.shape.take(i - 1));
        assert(marked.drop_last() =~= dropped.take(i - 1));
        assert(marked.last() == dropped[i - 1]);
        assert(map.axes.take(i).last() == map.axes[i - 1]);
        assert(axis_room(map.axes[i - 1], map.shape[i - 1], n));
        if dropped[i - 1] {
            if let Contribution::Gather(entries) = map.axes[i - 1] {
                assert(near(entries[0] as int, n));
            }
            assert(near(contribution(map.axes[i - 1], 0), n));
        }
        assert(n * (i + 1) == n * i + n) by (nonlinear_arith);
    }
}

/// Axes of a single index removed: the arithmetic stays in range if the room that is left does.
pub proof fn squeezes_stay_in_range(map: Mapping, axes: Seq<usize>, n: int)
    requires
        mapping_wf(map),
        map_room(map, n),
        squeeze_fits(map.shape, axes),
        map.shape.len() <= usize::MAX,
    ensures
        squeezed_room(n, map.shape.len()) <= i128::MAX ==> squeeze_base_fits(map, axes),
        map_room(squeezed(map, axes), squeezed_room(n, map.shape.len())),
{
    let rank = map.shape.len() as int;
    let dropped = marks(map.shape.len(), axes);
    assert forall|j: int| 0 <= j < dropped.len() && #[trigger] dropped[j] implies map.shape[j]
        == 1 by {
        let at = axes.index_of(j as usize);
        assert(axes[at] == j as usize);
        assert(map.shape[axes[at] as int] == 1);
    }
    assert forall|i: int| 0 <= i < dropped.len() implies near(
        squeeze_base(map.base, map.axes.take(i + 1), #[trigger] dropped.take(i + 1)),
        n * (rank + 1),
    ) by {
        lemma_kept_room(map, dropped, n, i + 1);
        assert(n * (i + 2) <= n * (rank + 1)) by (nonlinear_arith)
            requires
                n >= 0,
                i + 2 <= rank + 1,
        ;
    }
    lemma_kept_room(map, dropped, n, rank);
    assert(map.axes.take(rank) =~= map.axes);
    assert(map.shape.take(rank) =~= map.shape);
    assert(dropped.take(rank) =~= dropped);
    assert(n <= n * (rank + 1)) by (nonlinear_arith)
        requires
            n >= 0,
            rank >= 0,
    ;
    lemma_room_grows(
        Mapping { base: 0, axes: squeezed(map, axes).axes, shape: squeezed(map, axes).shape },
        n,
        n * (rank + 1),
    );
}

/// New axes of a single index do not change the room, if it can count the elements.
pub proof fn lemma_unsqueezed_room(map: Mapping, axes: Seq<usize>, n: int)
    requires
        mapping_wf(map),
        map_room(map, n),
        all_positive(unsqueezed_shape(map.shape, axes)),
        volume(unsqueezed_shape(map.shape, axes)) <= n,
    ensures
        map_room(unsqueezed(map, axes), n),
{
    let shape = unsqueezed_shape(map.shape, axes);
    let out = unsqueezed(map, axes);
    let layout = spread(marks(map.shape.len(), axes));
    lemma_spread(marks(map.shape.len(), axes));
    assert forall|p: int| 0 <= p < out.axes.len() implies axis_room(
        #[trigger] out.axes[p],
        out.shape[p],
        n,
    ) by {
        match layout[p] {
            None => {
                lemma_volume_suffix_bound(shape, p + 1);
                let stride = volume(shape.skip(p + 1));
                assert(stride * 1u64 == stride);
            },
            Some(i) => {
                assert(axis_room(map.axes[i], map.shape[i], n));
            },
        }
    }
}

/// The arithmetic of every transform stays in range as long as the room of its result does.
pub proof fn transforms_stay_in_range(map: Mapping, n: int)
    requires
        mapping_wf(map),
        map_room(map, n),
        map.shape.len() <= usize::MAX,
    ensures
        2 * n <= i128::MAX ==> forall|axis: int|
            0 <= axis < map.shape.len() ==> #[trigger] flip_fits(map, axis),
        forall|range: Seq<Bound>, m: int|
            #![trigger slice_fits(map, range), steps_at_most(range, m)]
            m >= 0 && steps_at_most(range, m) && sliced_room(n, map.shape.len(), m) <= i128::MAX
                ==> slice_fits(map, range),
        squeezed_room(n, map.shape.len()) <= i128::MAX ==> forall|axes: Seq<usize>|
            squeeze_fits(map.shape, axes) ==> #[trigger] squeeze_base_fits(map, axes),
{
    assert forall|axis: int| 2 * n <= i128::MAX && 0 <= axis < map.shape.len() implies
        #[trigger] flip_fits(map, axis) by {
        flips_stay_in_range(map, axis, n);
    }
    assert forall|range: Seq<Bound>, m: int|
        #![trigger slice_fits(map, range), steps_at_most(range, m)]
        m >= 0 && steps_at_most(range, m) && sliced_room(n, map.shape.len(), m)
            <= i128::MAX implies slice_fits(map, range) by {
        slices_stay_in_range(map, range, n, m);
    }
    assert forall|axes: Seq<usize>|
        squeezed_room(n, map.shape.len()) <= i128::MAX && squeeze_fits(
            map.shape,
            axes,
        ) implies #[trigger] squeeze_base_fits(map, axes) by {
        squeezes_stay_in_range(map, axes, n);
    }
}

/// What some axes add together lies within their number times the room.
proof fn lemma_totals_near(map: Mapping, coord: Seq<u64>, n: int, k: int)
    requires
        mapping_wf(map),
        map_room(map, n),
        in_box(coord, map.shape),
        0 <= k <= map.axes.len(),
    ensures
        near(map.base + total(map.axes.take(k), coord.take(k)), n * (k + 1)),
        near(constants(map.base, map.axes.take(k)), n * (k + 1)),
        near(
            weighted_sum(coord.take(k), affine_strides(map.axes).take(k)),
            n * k,
        ),
        k > 0 ==> near(contribution(map.axes[k - 1], coord[k - 1] as int), n),
        k > 0 ==> near(coord[k - 1] * affine_strides(map.axes)[k - 1], n),
    decreases k,
{
    if k == 0 {
        assert(n * (0 + 1) == n);
        assert(n * 0 == 0);
    } else {
        lemma_totals_near(map, coord, n, k - 1);
        let axes = map.axes.take(k);
        let weights = affine_strides(map.axes).take(k);
        assert(axes.drop_last() =~= map.axes.take(k - 1));
        assert(coord.take(k).drop_last() =~= coord.take(k - 1));
        assert(weights.drop_last() =~= affine_strides(map.axes).take(k - 1));
        assert(axis_room(map.axes[k - 1], map.shape[k - 1], n));
        assert(coord[k - 1] < map.shape[k - 1]);
        let c = coord[k - 1] as int;
        let w = affine_strides(map.axes)[k - 1];
        match map.axes[k - 1] {
            Contribution::Stride(stride) => {
                lemma_index_near(stride, map.shape[k - 1], c, n);
                assert(c * stride == stride * c) by (nonlinear_arith);
            },
            Contribution::Gather(entries) => {
                assert(near(entries[c] as int, n));
                assert(c * 0 == 0);
            },
            Contribution::Broadcast(_) => {
                assert(c * 0 == 0);
            },
        }
        assert(n * (k + 1) == n * k + n && n * k == n * (k - 1) + n) by (nonlinear_arith);
    }
}

/// No box steps by more than `m` along its first axis.
pub open spec fn boxes_step_at_most(request: Requested, m: int) -> bool {
    request matches Requested::Rectangles(boxes) ==> forall|r: int|
        0 <= r < boxes.len() && (#[trigger] boxes[r]).len() > 0 ==> (
        boxes[r][0] matches Selection::Span { step, .. } ==> step <= m)
}

/// A request of a view whose coordinates all lie in the tensor can be planned, as long as the room
/// of the view leaves room for its sums.
pub proof fn mapped_requests_are_planned(
    storage: StorageShape<'_>,
    request: Requested,
    map: Mapping,
    n: int,
    m: int,
)
    requires
        storage.wf(),
        volume(storage.shape@) <= u64::MAX,
        mapping_wf(map),
        map_room(map, n),
        n * (2 * map.shape.len() + 2) <= i128::MAX,
        request_fits(request, map.shape),
        request is Linear ==> all_positive(map.shape),
        request matches Requested::Rectangles(boxes) ==> forall|r: int|
            0 <= r < boxes.len() ==> lens_fit(#[trigger] boxes[r]),
        m >= 0,
        boxes_step_at_most(request, m),
        n * m <= i128::MAX,
        forall|o: int|
            0 <= o < request_coords(request, map.shape).len() ==> 0 <= offset_at(
                map,
                #[trigger] request_coords(request, map.shape)[o],
            ) < volume(storage.shape@),
    ensures
        plannable(storage, request, map),
{
    let rank = map.axes.len() as int;
    let coords = request_coords(request, map.shape);
    let weights = affine_strides(map.axes);
    let base = constants(map.base, map.axes);
    lemma_volume_positive(storage.shape@);
    lemma_product_fits(storage.shape@);
    lemma_request_len(request, map.shape);
    assert forall|o: int| 0 <= o < coords.len() implies in_box(
        #[trigger] coords[o],
        map.shape,
    ) by {
        requested_coordinates_lie_in_the_shape(request, map.shape, o);
    }
    assert(n * (2 * rank + 2) == n * (rank + 1) + n * (rank + 1)) by (nonlinear_arith);
    if request is Explicit || has_table(map) {
        assert forall|i: int| 0 <= i < storage.strides@.len() implies #[trigger] storage.strides@[i]
            > 0 by {
            lemma_volume_suffix_bound(storage.shape@, i + 1);
            assert(storage.strides@[i] == volume(storage.shape@.skip(i + 1)));
        }
        assert forall|o: int| 0 <= o < coords.len() implies resolves(
            map,
            #[trigger] coords[o],
            storage.shape@,
            storage.strides@,
        ) by {
            let coord = coords[o];
            assert forall|i: int| 0 <= i < rank implies {
                &&& index_known(#[trigger] map.axes[i], coord[i])
                &&& fits(contribution(map.axes[i], coord[i] as int))
                &&& fits(map.base + total(map.axes.take(i + 1), coord.take(i + 1)))
            } by {
                lemma_totals_near(map, coord, n, i + 1);
                assert(n * (i + 2) <= n * (2 * rank + 2)) by (nonlinear_arith)
                    requires
                        0 <= i < rank,
                        n >= 0,
                ;
                assert(n <= n * (i + 2)) by (nonlinear_arith)
                    requires
                        n >= 0,
                        i >= 0,
                ;
                assert(coord[i] < map.shape[i]);
            }
        }
    } else {
        lemma_constants_near(map, n);
        assert(map.axes.take(rank) =~= map.axes);
        assert forall|o: int| 0 <= o < coords.len() implies sum_fits(
            base,
            weights,
            #[trigger] coords[o],
        ) by {
            let coord = coords[o];
            assert forall|i: int| 0 <= i < coord.len() implies fits(
                (#[trigger] coord[i]) * weights[i],
            ) && fits(affine_at(base, weights.take(i + 1), coord.take(i + 1))) by {
                lemma_totals_near(map, coord, n, i + 1);
                lemma_totals_near(map, coord, n, rank);
                assert(n * (i + 1) <= n * (rank + 1)) by (nonlinear_arith)
                    requires
                        0 <= i < rank,
                        n >= 0,
                ;
                assert(n <= n * (2 * rank + 2)) by (nonlinear_arith)
                    requires
                        n >= 0,
                        rank >= 0,
                ;
            }
        }
        if let Requested::Rectangles(boxes) = request {
            assert forall|r: int|
                0 <= r < boxes.len() && axes_volume(#[trigger] boxes[r]) == 1 implies (
            boxes[r].len() > 0 ==> (boxes[r][0] matches Selection::Span { step, .. } ==> fits(
                step * weights[0],
            ))) by {
                if boxes[r].len() > 0 {
                    if let Selection::Span { step, .. } = boxes[r][0] {
                        assert(axes_fit(boxes[r], map.shape));
                        assert(axis_room(map.axes[0], map.shape[0], n));
                        let w = weights[0];
                        assert(near(step * w, n * m)) by (nonlinear_arith)
                            requires
                                -n <= w <= n,
                                0 <= step <= m,
                        ;
                    }
                }
            }
        }
    }
}

/// The constants of a map lie within its axes times the room.
proof fn lemma_constants_near(map: Mapping, n: int)
    requires
        mapping_wf(map),
        map_room(map, n),
        !has_table(map),
        n * (2 * map.shape.len() + 2) <= i128::MAX,
    ensures
        is_affine(map),
{
    let rank = map.axes.len() as int;
    assert forall|k: int| 0 <= k <= rank implies fits(
        constants(map.base, #[trigger] map.axes.take(k)),
    ) by {
        lemma_constants_within(map, n, k);
        assert(n * (k + 1) <= n * (2 * rank + 2)) by (nonlinear_arith)
            requires
                0 <= k <= rank,
                n >= 0,
        ;
    }
    assert forall|i: int| 0 <= i < rank implies !((#[trigger] map.axes[i]) is Gather) by {
        if map.axes[i] is Gather {
            lemma_first_table(map, i);
        }
    }
}

proof fn lemma_constants_within(map: Mapping, n: int, k: int)
    requires
        map_room(map, n),
        0 <= k <= map.axes.len(),
    ensures
        near(constants(map.base, map.axes.take(k)), n * (k + 1)),
    decreases k,
{
    if k == 0 {
        assert(n * (0 + 1) == n);
    } else {
        lemma_constants_within(map, n, k - 1);
        assert(map.axes.take(k).drop_last() =~= map.axes.take(k - 1));
        assert(axis_room(map.axes[k - 1], map.shape[k - 1], n));
        assert(n * (k + 1) == n * k + n) by (nonlinear_arith);
    }
}

/// Where there is a table there is a first one.
proof fn lemma_first_table(map: Mapping, i: int)
    requires
        map.axes.len() == map.shape.len(),
        0 <= i < map.axes.len(),
        map.axes[i] is Gather,
        forall|k: int|
            0 <= k <= map.axes.len() ==> fits(constants(map.base, #[trigger] map.axes.take(k))),
    ensures
        has_table(map),
    decreases i,
{
    if exists|j: int| 0 <= j < i && (#[trigger] map.axes[j]) is Gather {
        let j = choose|j: int| 0 <= j < i && (#[trigger] map.axes[j]) is Gather;
        lemma_first_table(map, j);
    } else {
        assert(affine_up_to(map, i));
    }
}

} // verus!
