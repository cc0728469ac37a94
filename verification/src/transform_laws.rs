//! What the transforms of a view do to the elements it shows.

use vstd::prelude::*;
use vstd::set_lib::{lemma_int_range, lemma_len_subset, set_int_range};
use crate::geometry::{
    all_positive, in_box, lemma_position_update, lemma_volume_push, lemma_volume_suffix_bound,
    position_of, volume,
};
use crate::inline::Bound;
use crate::mapping::{
    axis_has_extent, base_fits, bound_arith_fits, broadcast_fits, broadcasted, contiguous,
    contiguous_axes, contribution, Contribution, distinct_axes, fits, flipped, followed,
    followed_axes, index_fits, is_permutation, kept, last_base, Mapping, mapping_wf, marks,
    offset_at, slice_axes, slice_shape, sliced, spread, squeeze_base, squeeze_base_fits, squeezed,
    squeeze_fits, total, transposed, unsqueezed, unsqueezed_shape,
};
use crate::schema::{are_strides, valid_dims};
use crate::validate::{bound_at, bound_fits, bound_len, lemma_bound_at, lemma_bound_len, range_fits};

verus! {

/// The sum of a sequence.
pub open spec fn sum(values: Seq<int>) -> int
    decreases values.len(),
{
    if values.len() == 0 {
        0
    } else {
        sum(values.drop_last()) + values.last()
    }
}

/// What each axis adds at a coordinate.
pub open spec fn parts(axes: Seq<Contribution>, coord: Seq<u64>) -> Seq<int> {
    Seq::new(axes.len(), |i: int| contribution(axes[i], coord[i] as int))
}

pub proof fn lemma_total_is_sum(axes: Seq<Contribution>, coord: Seq<u64>)
    requires
        axes.len() == coord.len(),
    ensures
        total(axes, coord) == sum(parts(axes, coord)),
    decreases axes.len(),
{
    if axes.len() > 0 {
        lemma_total_is_sum(axes.drop_last(), coord.drop_last());
        assert(parts(axes, coord).drop_last() =~= parts(axes.drop_last(), coord.drop_last()));
    }
}

pub proof fn lemma_sum_update(values: Seq<int>, at: int, value: int)
    requires
        0 <= at < values.len(),
    ensures
        sum(values.update(at, value)) == sum(values) - values[at] + value,
    decreases values.len(),
{
    let changed = values.update(at, value);
    if at == values.len() - 1 {
        assert(changed.drop_last() =~= values.drop_last());
    } else {
        assert(changed.drop_last() =~= values.drop_last().update(at, value));
        lemma_sum_update(values.drop_last(), at, value);
    }
}

pub proof fn lemma_sum_remove(values: Seq<int>, at: int)
    requires
        0 <= at < values.len(),
    ensures
        sum(values) == sum(values.remove(at)) + values[at],
    decreases values.len(),
{
    if at == values.len() - 1 {
        assert(values.remove(at) =~= values.drop_last());
    } else {
        lemma_sum_remove(values.drop_last(), at);
        assert(values.remove(at).drop_last() =~= values.drop_last().remove(at));
        assert(values.remove(at).last() == values.last());
    }
}

/// A sum does not depend on the order of its terms.
pub proof fn lemma_sum_permuted(values: Seq<int>, permutation: Seq<usize>)
    requires
        is_permutation(permutation, values.len()),
    ensures
        sum(Seq::new(values.len(), |i: int| values[permutation[i] as int])) == sum(values),
    decreases values.len(),
{
    let n = values.len() as int;
    let permuted = Seq::new(values.len(), |i: int| values[permutation[i] as int]);
    if n == 0 {
        assert(permuted =~= values);
    } else {
        let m = permutation[n - 1] as int;
        let rest = values.remove(m);
        let moved = Seq::new(
            (n - 1) as nat,
            |i: int|
                (if permutation[i] > m {
                    permutation[i] - 1
                } else {
                    permutation[i] as int
                }) as usize,
        );
        assert(is_permutation(moved, rest.len())) by {
            assert forall|i: int| 0 <= i < moved.len() implies #[trigger] moved[i] < rest.len() by {
                assert(permutation[i] < values.len());
                assert(permutation[i] != permutation[n - 1]);
            }
            assert forall|i: int, j: int| 0 <= i < j < moved.len() implies moved[i] != moved[j] by {
                assert(permutation[i] != permutation[j]);
                assert(permutation[i] != permutation[n - 1]);
                assert(permutation[j] != permutation[n - 1]);
                assert(permutation[i] < values.len());
                assert(permutation[j] < values.len());
            }
        }
        lemma_sum_permuted(rest, moved);
        assert(permuted.drop_last() =~= Seq::new(rest.len(), |i: int| rest[moved[i] as int])) by {
            assert forall|i: int| 0 <= i < n - 1 implies permuted[i] == rest[moved[i] as int] by {
                assert(permutation[i] != permutation[n - 1]);
                assert(permutation[i] < values.len());
            }
        }
        lemma_sum_remove(values, m);
    }
}

/// A transposed view shows, at a coordinate, what the view shows with the components put back.
pub proof fn transposing_moves_components(
    map: Mapping,
    permutation: Seq<usize>,
    coord: Seq<u64>,
    back: Seq<u64>,
)
    requires
        map.axes.len() == map.shape.len(),
        is_permutation(permutation, map.axes.len()),
        coord.len() == map.axes.len(),
        back.len() == map.axes.len(),
        forall|i: int| 0 <= i < permutation.len() ==> back[#[trigger] permutation[i] as int] == coord[i],
    ensures
        offset_at(transposed(map, permutation), coord) == offset_at(map, back),
        in_box(coord, transposed(map, permutation).shape) <== in_box(back, map.shape),
{
    let turned = transposed(map, permutation);
    lemma_total_is_sum(turned.axes, coord);
    lemma_total_is_sum(map.axes, back);
    let old_parts = parts(map.axes, back);
    lemma_sum_permuted(old_parts, permutation);
    assert(parts(turned.axes, coord) =~= Seq::new(
        old_parts.len(),
        |i: int| old_parts[permutation[i] as int],
    )) by {
        assert forall|i: int| 0 <= i < permutation.len() implies parts(turned.axes, coord)[i]
            == old_parts[permutation[i] as int] by {
            assert(back[permutation[i] as int] == coord[i]);
        }
    }
    if in_box(back, map.shape) {
        assert forall|i: int| 0 <= i < turned.shape.len() implies #[trigger] coord[i]
            < turned.shape[i] by {
            assert(back[permutation[i] as int] == coord[i]);
            assert(back[permutation[i] as int] < map.shape[permutation[i] as int]);
        }
    }
}

/// A flipped view shows, at an index of the axis, what the view shows at the index counted
/// from the other end.
pub proof fn flipping_mirrors_an_axis(map: Mapping, axis: int, coord: Seq<u64>)
    requires
        mapping_wf(map),
        0 <= axis < map.shape.len(),
        in_box(coord, map.shape),
    ensures
        offset_at(flipped(map, axis), coord) == offset_at(
            map,
            coord.update(axis, (map.shape[axis] - 1 - coord[axis]) as u64),
        ),
{
    let mirrored = (map.shape[axis] - 1 - coord[axis]) as u64;
    let back = coord.update(axis, mirrored);
    let turned = flipped(map, axis);
    assert(coord[axis] < map.shape[axis]);
    assert(axis_has_extent(map.axes[axis], map.shape[axis]));
    lemma_total_is_sum(turned.axes, coord);
    lemma_total_is_sum(map.axes, back);
    let old_parts = parts(map.axes, back);
    let value = contribution(turned.axes[axis], coord[axis] as int);
    assert(parts(turned.axes, coord) =~= old_parts.update(axis, value));
    lemma_sum_update(old_parts, axis, value);
    if let Contribution::Stride(stride) = map.axes[axis] {
        let d = map.shape[axis] as int;
        let c = coord[axis] as int;
        assert((d - 1) * stride + (-stride) * c == stride * (d - 1 - c)) by (nonlinear_arith);
    }
}

/// Flipping an axis twice gives the view back.
pub proof fn flipping_twice_gives_the_view_back(map: Mapping, axis: int)
    requires
        0 <= axis < map.axes.len(),
        map.axes.len() == map.shape.len(),
    ensures
        flipped(flipped(map, axis), axis) == map,
{
    let twice = flipped(flipped(map, axis), axis);
    match map.axes[axis] {
        Contribution::Stride(stride) => {
            let d = map.shape[axis] - 1;
            assert(d * stride + d * (-stride) == 0) by (nonlinear_arith);
        },
        Contribution::Gather(entries) => {
            assert(entries.reverse().reverse() =~= entries);
        },
        Contribution::Broadcast(_) => {},
    }
    assert(twice.axes =~= map.axes);
}

pub proof fn lemma_sum_zeros(values: Seq<int>)
    requires
        forall|i: int| 0 <= i < values.len() ==> #[trigger] values[i] == 0,
    ensures
        sum(values) == 0,
    decreases values.len(),
{
    if values.len() > 0 {
        assert(values[values.len() - 1] == 0);
        assert forall|i: int| 0 <= i < values.drop_last().len() implies
            #[trigger] values.drop_last()[i] == 0 by {
            assert(values[i] == 0);
        }
        lemma_sum_zeros(values.drop_last());
    }
}

pub proof fn lemma_sum_concat(left: Seq<int>, right: Seq<int>)
    ensures
        sum(left + right) == sum(left) + sum(right),
    decreases right.len(),
{
    if right.len() == 0 {
        assert(left + right =~= left);
    } else {
        assert((left + right).drop_last() =~= left + right.drop_last());
        lemma_sum_concat(left, right.drop_last());
    }
}

/// The coordinate of the view under a broadcast: new axes are left out, and spread axes stay at
/// their only index.
pub open spec fn unspread(shape: Seq<u64>, coord: Seq<u64>) -> Seq<u64> {
    let fresh = coord.len() - shape.len();
    Seq::new(
        shape.len(),
        |i: int|
            if shape[i] == 1 {
                0
            } else {
                coord[i + fresh]
            },
    )
}

/// A broadcast view shows the same elements over and over along the axes it spreads.
pub proof fn broadcasting_repeats_elements(map: Mapping, shape: Seq<u64>, coord: Seq<u64>)
    requires
        mapping_wf(map),
        broadcast_fits(map.shape, shape),
        in_box(coord, shape),
    ensures
        offset_at(broadcasted(map, shape), coord) == offset_at(map, unspread(map.shape, coord)),
        in_box(unspread(map.shape, coord), map.shape),
{
    let wide = broadcasted(map, shape);
    let fresh = shape.len() - map.shape.len();
    let under = unspread(map.shape, coord);
    lemma_total_is_sum(wide.axes, coord);
    lemma_total_is_sum(map.axes, under);
    let zeros = Seq::new(fresh as nat, |i: int| 0int);
    lemma_sum_zeros(zeros);
    lemma_sum_concat(zeros, parts(map.axes, under));
    assert(parts(wide.axes, coord) =~= zeros + parts(map.axes, under));
    assert forall|i: int| 0 <= i < map.shape.len() implies #[trigger] under[i] < map.shape[i] by {
        assert(map.shape[i] == 1 || map.shape[i] == shape[i + fresh]);
        assert(coord[i + fresh] < shape[i + fresh]);
    }
}

/// The coordinate of the view that a range selects at a coordinate of the slice.
pub open spec fn expand(range: Seq<Bound>, coord: Seq<u64>) -> Seq<u64>
    decreases range.len(),
{
    if range.len() == 0 {
        Seq::empty()
    } else if let Bound::At(index) = range.last() {
        expand(range.drop_last(), coord).push(index)
    } else {
        expand(range.drop_last(), coord.drop_last()).push(
            bound_at(range.last(), coord.last() as int) as u64,
        )
    }
}

/// A slice shows the elements that its range selects.
pub proof fn slicing_selects_elements(map: Mapping, range: Seq<Bound>, coord: Seq<u64>)
    requires
        mapping_wf(map),
        range_fits(range, map.shape),
        forall|i: int| 0 <= i < range.len() ==> bound_len(#[trigger] range[i]) <= u64::MAX,
        forall|i: int|
            0 <= i < range.len() ==> bound_arith_fits(map.axes[i], #[trigger] range[i]),
        in_box(coord, slice_shape(range)),
    ensures
        offset_at(sliced(map, range), coord) == offset_at(map, expand(range, coord)),
        in_box(expand(range, coord), map.shape),
        slice_axes(map.axes, range).len() == slice_shape(range).len(),
    decreases range.len(),
{
    if range.len() > 0 {
        let n = range.len() - 1;
        let init = Mapping {
            base: map.base,
            axes: map.axes.drop_last(),
            shape: map.shape.drop_last(),
        };
        let bound = range.last();
        let axis = map.axes.last();
        let dim = map.shape.last();
        let head = range.drop_last();
        assert forall|i: int| 0 <= i < init.axes.len() implies axis_has_extent(
            #[trigger] init.axes[i],
            init.shape[i],
        ) by {
            assert(axis_has_extent(map.axes[i], map.shape[i]));
        }
        assert forall|i: int| 0 <= i < init.shape.len() implies bound_fits(
            #[trigger] head[i],
            init.shape[i],
        ) && bound_len(head[i]) <= u64::MAX && bound_arith_fits(init.axes[i], head[i]) by {
            assert(bound_fits(range[i], map.shape[i]));
        }
        assert(bound_fits(range[n], map.shape[n]));
        assert(bound_arith_fits(map.axes[n], range[n]));
        assert(axis_has_extent(map.axes[n], map.shape[n]));
        let under = expand(range, coord);
        if let Bound::At(index) = bound {
            slicing_selects_elements(init, head, coord);
            assert(under.drop_last() =~= expand(head, coord));
        } else {
            let before = slice_shape(head);
            let c = coord.last();
            lemma_bound_len(bound, dim);
            assert(slice_shape(range) == before.push(bound_len(bound) as u64));
            assert(coord[before.len() as int] < slice_shape(range)[before.len() as int]);
            assert(in_box(coord.drop_last(), before)) by {
                assert forall|i: int| 0 <= i < before.len() implies #[trigger] coord.drop_last()[i]
                    < before[i] by {
                    assert(coord[i] < slice_shape(range)[i]);
                }
            }
            slicing_selects_elements(init, head, coord.drop_last());
            assert(under.drop_last() =~= expand(head, coord.drop_last()));
            lemma_bound_at(bound, dim, c as int);
            let cut = slice_axes(map.axes, range);
            assert(cut.drop_last() =~= slice_axes(init.axes, head));
            assert(cut.last() == crate::mapping::bound_axis(axis, bound));
            assert(total(cut, coord) == total(cut.drop_last(), coord.drop_last()) + contribution(
                cut.last(),
                c as int,
            ));
            match axis {
                Contribution::Stride(stride) => {
                    match bound {
                        Bound::In(start, stop, step) => {
                            assert((stride * step) * c + stride * start == stride * (start + c
                                * step)) by (nonlinear_arith);
                        },
                        Bound::Of(indices) => {
                            assert(index_fits(axis, indices[c as int] as int));
                        },
                        _ => {},
                    }
                },
                _ => {},
            }
        }
        assert(in_box(under, map.shape)) by {
            assert forall|i: int| 0 <= i < map.shape.len() implies #[trigger] under[i]
                < map.shape[i] by {
                if i < n {
                    assert(under.drop_last()[i] < init.shape[i]);
                }
            }
        }
    }
}

/// The coordinate of the view under a squeezed one: the axes that were dropped stay at their
/// only index.
pub open spec fn widen(dropped: Seq<bool>, coord: Seq<u64>) -> Seq<u64>
    decreases dropped.len(),
{
    if dropped.len() == 0 {
        Seq::empty()
    } else if dropped.last() {
        widen(dropped.drop_last(), coord).push(0)
    } else {
        widen(dropped.drop_last(), coord.drop_last()).push(coord.last())
    }
}

/// A squeezed view shows the same elements without the axes that were dropped.
pub proof fn squeezing_keeps_elements(
    base: int,
    axes: Seq<Contribution>,
    dropped: Seq<bool>,
    coord: Seq<u64>,
)
    requires
        axes.len() == dropped.len(),
        coord.len() == kept(axes, dropped).len(),
    ensures
        squeeze_base(base, axes, dropped) + total(kept(axes, dropped), coord) == base + total(
            axes,
            widen(dropped, coord),
        ),
        widen(dropped, coord).len() == axes.len(),
    decreases dropped.len(),
{
    if dropped.len() > 0 {
        let init = dropped.drop_last();
        let head = axes.drop_last();
        if dropped.last() {
            squeezing_keeps_elements(base, head, init, coord);
            assert(widen(dropped, coord).drop_last() =~= widen(init, coord));
        } else {
            let rest = kept(axes, dropped);
            assert(rest.drop_last() =~= kept(head, init));
            squeezing_keeps_elements(base, head, init, coord.drop_last());
            assert(widen(dropped, coord).drop_last() =~= widen(init, coord.drop_last()));
        }
    }
}

/// The coordinate of the view under an unsqueezed one: the new axes are left out.
pub open spec fn narrow(inserted: Seq<bool>, coord: Seq<u64>) -> Seq<u64>
    decreases inserted.len(),
{
    if inserted.len() == 0 {
        Seq::empty()
    } else if inserted.last() {
        narrow(inserted.drop_last(), coord.drop_last().drop_last()).push(coord.last())
    } else {
        narrow(inserted.drop_last(), coord.drop_last()).push(coord.last())
    }
}

/// The wide axes are the old ones, with strides in the places of new ones.
pub open spec fn spreads(
    wide: Seq<Contribution>,
    axes: Seq<Contribution>,
    inserted: Seq<bool>,
) -> bool {
    let layout = spread(inserted);
    &&& wide.len() == layout.len()
    &&& forall|p: int|
        0 <= p < layout.len() ==> match #[trigger] layout[p] {
            None => wide[p] is Stride,
            Some(i) => wide[p] == axes[i],
        }
}

/// An unsqueezed view shows the same elements, with new axes that have a single index.
pub proof fn unsqueezing_keeps_elements(
    wide: Seq<Contribution>,
    axes: Seq<Contribution>,
    inserted: Seq<bool>,
    coord: Seq<u64>,
)
    requires
        axes.len() == inserted.len(),
        spreads(wide, axes, inserted),
        coord.len() == wide.len(),
        forall|p: int| 0 <= p < coord.len() && #[trigger] spread(inserted)[p] is None ==> coord[p] == 0,
    ensures
        total(wide, coord) == total(axes, narrow(inserted, coord)),
        narrow(inserted, coord).len() == axes.len(),
    decreases inserted.len(),
{
    if inserted.len() > 0 {
        let n = inserted.len() - 1;
        let init = inserted.drop_last();
        let layout = spread(inserted);
        let before = spread(init);
        let m = layout.len() - 1;
        lemma_spread(init);
        assert(layout[m] == Some(n as int));
        assert(wide[m] == axes[n as int]);
        let head = axes.drop_last();
        let w = if inserted.last() {
            wide.drop_last().drop_last()
        } else {
            wide.drop_last()
        };
        let c = if inserted.last() {
            coord.drop_last().drop_last()
        } else {
            coord.drop_last()
        };
        assert forall|p: int| 0 <= p < before.len() implies match #[trigger] before[p] {
            None => w[p] is Stride,
            Some(i) => w[p] == head[i],
        } by {
            assert(layout[p] == before[p]);
        }
        assert forall|p: int| 0 <= p < c.len() && #[trigger] before[p] is None implies c[p] == 0 by {
            assert(layout[p] == before[p]);
        }
        unsqueezing_keeps_elements(w, head, init, c);
        assert(narrow(inserted, coord).drop_last() =~= narrow(init, c));
        if inserted.last() {
            assert(layout[m - 1] is None);
            assert(coord[m - 1] == 0);
            assert(wide[m - 1] is Stride);
            if let Contribution::Stride(stride) = wide[m - 1] {
                assert(stride * 0 == 0);
            }
            assert(total(wide.drop_last(), coord.drop_last()) == total(w, c) + contribution(
                wide[m - 1],
                coord[m - 1] as int,
            ));
        }
    }
}

pub proof fn lemma_spread(inserted: Seq<bool>)
    ensures
        forall|p: int|
            0 <= p < spread(inserted).len() ==> ((#[trigger] spread(inserted)[p]) matches Some(i)
                ==> 0 <= i < inserted.len()),
        spread(inserted).len() >= inserted.len(),
    decreases inserted.len(),
{
    if inserted.len() > 0 {
        lemma_spread(inserted.drop_last());
        let before = spread(inserted.drop_last());
        assert forall|p: int| 0 <= p < spread(inserted).len() implies ((
        #[trigger] spread(inserted)[p]) matches Some(i) ==> 0 <= i < inserted.len()) by {
            if p < before.len() {
                assert(spread(inserted)[p] == before[p]);
            }
        }
    }
}

/// New axes of a single index do not change how many elements stand behind an axis.
proof fn lemma_spread_volume(shape: Seq<u64>, axes: Seq<usize>, n: int)
    requires
        0 <= n <= shape.len(),
    ensures
        ({
            let inserted = marks(shape.len(), axes).take(n);
            let layout = spread(inserted);
            let dims = spread_dims(layout, shape);
            &&& volume(dims) == volume(shape.take(n))
            &&& forall|p: int|
                0 <= p < layout.len() ==> ((#[trigger] layout[p]) matches Some(i) ==> 0 <= i < n
                    && volume(dims.skip(p + 1)) == volume(shape.take(n).skip(i + 1)))
        }),
    decreases n,
{
    let inserted = marks(shape.len(), axes).take(n);
    let layout = spread(inserted);
    let dims = spread_dims(layout, shape);
    if n == 0 {
        assert(dims =~= shape.take(0));
    } else {
        lemma_spread_volume(shape, axes, n - 1);
        let less = marks(shape.len(), axes).take(n - 1);
        assert(inserted.drop_last() =~= less);
        let before = spread(less);
        let old_dims = spread_dims(before, shape);
        let dim = shape[n - 1];
        assert(shape.take(n) =~= shape.take(n - 1).push(dim));
        lemma_volume_push(shape.take(n - 1), dim);
        let middle = if inserted.last() {
            old_dims.push(1)
        } else {
            old_dims
        };
        assert(dims =~= middle.push(dim));
        lemma_volume_push(old_dims, 1);
        lemma_volume_push(middle, dim);
        assert(volume(dims) == volume(shape.take(n)));
        assert forall|p: int| 0 <= p < layout.len() implies ((
        #[trigger] layout[p]) matches Some(i) ==> 0 <= i < n && volume(dims.skip(p + 1)) == volume(
            shape.take(n).skip(i + 1),
        )) by {
            if let Some(i) = layout[p] {
                if p < before.len() {
                    assert(layout[p] == before[p]);
                    let tail = old_dims.skip(p + 1);
                    assert(shape.take(n).skip(i + 1) =~= shape.take(n - 1).skip(i + 1).push(dim));
                    lemma_volume_push(shape.take(n - 1).skip(i + 1), dim);
                    let wide = if inserted.last() {
                        tail.push(1)
                    } else {
                        tail
                    };
                    lemma_volume_push(tail, 1);
                    lemma_volume_push(wide, dim);
                    assert(dims.skip(p + 1) =~= wide.push(dim));
                } else {
                    assert(i == n - 1);
                    assert(dims.skip(p + 1) =~= Seq::<u64>::empty());
                    assert(shape.take(n).skip(n) =~= Seq::<u64>::empty());
                }
            }
        }
    }
}

/// The dimension of each axis of an unsqueezed view.
pub open spec fn spread_dims(layout: Seq<Option<int>>, shape: Seq<u64>) -> Seq<u64> {
    Seq::new(
        layout.len(),
        |p: int|
            match layout[p] {
                None => 1u64,
                Some(i) => shape[i],
            },
    )
}

/// New axes of a single index leave a contiguous view contiguous.
pub proof fn unsqueezing_keeps_contiguity(map: Mapping, axes: Seq<usize>)
    requires
        contiguous(map),
        valid_dims(unsqueezed_shape(map.shape, axes)),
        volume(unsqueezed_shape(map.shape, axes).skip(1)) <= u64::MAX,
    ensures
        contiguous(unsqueezed(map, axes)),
{
    let n = map.shape.len() as int;
    let inserted = marks(map.shape.len(), axes);
    let layout = spread(inserted);
    let shape = unsqueezed_shape(map.shape, axes);
    let out = unsqueezed(map, axes);
    lemma_spread_volume(map.shape, axes, n);
    assert(inserted.take(n) =~= inserted);
    assert(map.shape.take(n) =~= map.shape);
    assert(spread_dims(layout, map.shape) =~= shape);
    assert(out.axes =~= contiguous_axes(shape)) by {
        assert forall|p: int| 0 <= p < out.axes.len() implies out.axes[p] == contiguous_axes(
            shape,
        )[p] by {
            if let Some(i) = layout[p] {
                assert(map.axes[i] == contiguous_axes(map.shape)[i]);
            }
        }
    }
}

/// Which axes of an unsqueezed view are new.
pub open spec fn fresh_axes(inserted: Seq<bool>) -> Seq<bool> {
    Seq::new(spread(inserted).len(), |p: int| spread(inserted)[p] is None)
}

/// Dropping the new axes of an unsqueezed view gives the view back.
pub proof fn squeezing_undoes_unsqueezing<A>(
    wide: Seq<A>,
    items: Seq<A>,
    inserted: Seq<bool>,
)
    requires
        items.len() == inserted.len(),
        wide.len() == spread(inserted).len(),
        forall|p: int|
            0 <= p < wide.len() ==> ((#[trigger] spread(inserted)[p]) matches Some(i) ==> wide[p]
                == items[i]),
    ensures
        kept(wide, fresh_axes(inserted)) == items,
    decreases inserted.len(),
{
    let fresh = fresh_axes(inserted);
    if inserted.len() == 0 {
        assert(items =~= Seq::<A>::empty());
        assert(fresh =~= Seq::<bool>::empty());
    } else {
        let n = inserted.len() - 1;
        let init = inserted.drop_last();
        let layout = spread(inserted);
        let before = spread(init);
        let m = layout.len() - 1;
        lemma_spread(init);
        assert(layout[m] == Some(n as int));
        let w = if inserted.last() {
            wide.drop_last().drop_last()
        } else {
            wide.drop_last()
        };
        assert forall|p: int| 0 <= p < w.len() implies ((
        #[trigger] before[p]) matches Some(i) ==> w[p] == items.drop_last()[i]) by {
            assert(layout[p] == before[p]);
        }
        squeezing_undoes_unsqueezing(w, items.drop_last(), init);
        assert(!fresh.last());
        assert(kept(wide, fresh) == kept(wide.drop_last(), fresh.drop_last()).push(wide.last()));
        if inserted.last() {
            assert(layout[m - 1] is None);
            assert(fresh.drop_last().last());
            assert(fresh.drop_last().drop_last() =~= fresh_axes(init));
            assert(kept(wide.drop_last(), fresh.drop_last()) == kept(w, fresh_axes(init)));
        } else {
            assert(fresh.drop_last() =~= fresh_axes(init));
        }
        assert(items =~= items.drop_last().push(items.last()));
    }
}

/// Dropping axes that are strides adds nothing to the base offset.
proof fn lemma_no_base(base: int, axes: Seq<Contribution>, dropped: Seq<bool>)
    requires
        axes.len() == dropped.len(),
        forall|p: int| 0 <= p < axes.len() && #[trigger] dropped[p] ==> axes[p] is Stride,
    ensures
        squeeze_base(base, axes, dropped) == base,
    decreases dropped.len(),
{
    if dropped.len() > 0 {
        let fewer = dropped.drop_last();
        let init = axes.drop_last();
        assert forall|p: int| 0 <= p < init.len() && #[trigger] fewer[p] implies init[
            p
        ] is Stride by {
            assert(dropped[p]);
        }
        lemma_no_base(base, init, fewer);
        if dropped.last() {
            assert(dropped[dropped.len() - 1]);
        }
    }
}

/// Numbers that are distinct and below a bound, and leave one out, are fewer than the bound.
pub proof fn lemma_fewer(axes: Seq<usize>, rank: nat, out: int)
    requires
        distinct_axes(rank, axes),
        0 <= out < rank,
        forall|i: int| 0 <= i < axes.len() ==> #[trigger] axes[i] != out,
    ensures
        axes.len() < rank,
{
    let numbers = Seq::new(axes.len(), |i: int| axes[i] as int);
    assert(numbers.no_duplicates()) by {
        assert forall|i: int, j: int|
            0 <= i < numbers.len() && 0 <= j < numbers.len() && i != j implies numbers[i]
            != numbers[j] by {
            assert(axes[i] != axes[j]);
        }
    }
    numbers.unique_seq_to_set();
    lemma_int_range(0, rank as int);
    let all = set_int_range(0, rank as int);
    assert(numbers.to_set().subset_of(all.remove(out))) by {
        assert forall|a: int| numbers.to_set().contains(a) implies all.remove(out).contains(a) by {
            let i = choose|i: int| 0 <= i < numbers.len() && numbers[i] == a;
            assert(axes[i] < rank);
            assert(axes[i] != out);
        }
    }
    lemma_len_subset(numbers.to_set(), all.remove(out));
}

/// A marked axis has a new one before it.
proof fn lemma_spread_new(inserted: Seq<bool>, at: int)
    requires
        0 <= at < inserted.len(),
        inserted[at],
    ensures
        exists|p: int| 0 <= p < spread(inserted).len() && (#[trigger] spread(inserted)[p]) is None,
    decreases inserted.len(),
{
    let init = inserted.drop_last();
    let layout = spread(inserted);
    if at == inserted.len() - 1 {
        assert(layout[layout.len() - 2] is None);
    } else {
        lemma_spread_new(init, at);
        let p = choose|p: int| 0 <= p < spread(init).len() && (#[trigger] spread(init)[p]) is None;
        assert(layout[p] == spread(init)[p]);
    }
}

/// Unsqueezing a view and squeezing the new axes gives the view back: both succeed, and the result
/// has the shape of the view and every element at the same offset. The new axes may be listed in
/// any order.
pub proof fn squeezing_new_axes_gives_the_view_back(
    map: Mapping,
    axes: Seq<usize>,
    fresh: Seq<usize>,
)
    requires
        mapping_wf(map),
        fits(map.base),
        valid_dims(map.shape),
        volume(map.shape) <= u64::MAX,
        axes.len() > 0,
        distinct_axes(map.shape.len(), axes),
        distinct_axes(unsqueezed(map, axes).shape.len(), fresh),
        marks(unsqueezed(map, axes).shape.len(), fresh) == fresh_axes(
            marks(map.shape.len(), axes),
        ),
    ensures
        ({
            let wide = unsqueezed(map, axes);
            &&& valid_dims(wide.shape)
            &&& volume(wide.shape) == volume(map.shape)
            &&& volume(wide.shape.skip(1)) <= u64::MAX
            &&& squeeze_fits(wide.shape, fresh)
            &&& squeeze_base_fits(wide, fresh)
            &&& squeezed(wide, fresh) == map
            &&& forall|coord: Seq<u64>|
                #[trigger] offset_at(squeezed(wide, fresh), coord) == offset_at(map, coord)
            &&& contiguous(map) ==> contiguous(wide)
        }),
{
    let n = map.shape.len();
    let inserted = marks(n, axes);
    let layout = spread(inserted);
    let wide = unsqueezed(map, axes);
    let rank = wide.shape.len();
    let dropped = marks(rank, fresh);
    lemma_spread(inserted);
    lemma_spread_volume(map.shape, axes, n as int);
    assert(inserted.take(n as int) =~= inserted);
    assert(map.shape.take(n as int) =~= map.shape);
    assert(spread_dims(layout, map.shape) =~= wide.shape);
    assert forall|p: int| 0 <= p < rank implies #[trigger] wide.shape[p] > 0 by {
        if let Some(i) = layout[p] {
            assert(map.shape[i] > 0);
        }
    }
    lemma_volume_suffix_bound(wide.shape, 1);
    assert forall|p: int| 0 <= p < rank implies (#[trigger] dropped[p] <==> layout[p] is None) by {
        assert(dropped[p] == fresh_axes(inserted)[p]);
    }
    assert forall|i: int| 0 <= i < fresh.len() implies wide.shape[#[trigger] fresh[i] as int]
        == 1 by {
        assert(fresh[i] < rank);
        assert(fresh.contains(fresh[i]));
        assert(dropped[fresh[i] as int]);
    }
    assert(inserted[axes[0] as int]) by {
        assert(axes[0] < n);
        assert(axes.contains(axes[0]));
    }
    lemma_spread_new(inserted, axes[0] as int);
    let p = choose|p: int| 0 <= p < layout.len() && (#[trigger] layout[p]) is None;
    assert(dropped[p]);
    assert(fresh.len() > 0);
    let last = rank - 1;
    assert(layout[last] is Some);
    assert(!dropped[last]);
    assert forall|i: int| 0 <= i < fresh.len() implies #[trigger] fresh[i] != last by {
        assert(fresh[i] < rank);
        assert(fresh.contains(fresh[i]));
        assert(dropped[fresh[i] as int]);
    }
    lemma_fewer(fresh, rank, last);
    assert forall|i: int| 0 <= i < dropped.len() implies fits(
        squeeze_base(wide.base, wide.axes.take(i + 1), #[trigger] dropped.take(i + 1)),
    ) by {
        lemma_no_base(wide.base, wide.axes.take(i + 1), dropped.take(i + 1));
    }
    lemma_no_base(wide.base, wide.axes, dropped);
    squeezing_undoes_unsqueezing(wide.shape, map.shape, inserted);
    squeezing_undoes_unsqueezing(wide.axes, map.axes, inserted);
    assert(dropped == fresh_axes(inserted));
    if contiguous(map) {
        unsqueezing_keeps_contiguity(map, axes);
    }
}

/// The coordinate in the tensor at which a view that follows its axes shows an element.
pub open spec fn located(
    origins: Seq<u64>,
    axes: Seq<(usize, u64)>,
    coord: Seq<u64>,
) -> Seq<u64>
    decreases axes.len(),
{
    if axes.len() == 0 {
        origins
    } else {
        let before = located(origins, axes.drop_last(), coord.drop_last());
        let base = axes.last().0 as int;
        before.update(base, (origins[base] + axes.last().1 * coord.last()) as u64)
    }
}

pub proof fn lemma_last_base(
    stride: int,
    dim: u64,
    shape: Seq<u64>,
    strides: Seq<u64>,
    origins: Seq<u64>,
    taken: Seq<(usize, u64)>,
    below: int,
)
    requires
        below <= shape.len(),
    ensures
        last_base(stride, dim, shape, strides, origins, taken, below) matches Some(base) ==> {
            &&& 0 <= base < below
            &&& !followed(taken, base)
            &&& base_fits(stride, dim, shape, strides, origins, base)
        },
    decreases below,
{
    if below > 0 {
        lemma_last_base(stride, dim, shape, strides, origins, taken, below - 1);
    }
}

/// A view that follows the axes of its tensor shows, at a coordinate, the element that many
/// steps from where it starts.
pub proof fn following_views_step_along_axes(
    map: Mapping,
    shape: Seq<u64>,
    strides: Seq<u64>,
    origins: Seq<u64>,
    n: nat,
    coord: Seq<u64>,
)
    requires
        n <= map.axes.len(),
        map.axes.len() == map.shape.len(),
        are_strides(strides, shape),
        all_positive(shape),
        shape.len() <= usize::MAX,
        in_box(origins, shape),
        followed_axes(map, shape, strides, origins, n) is Some,
        in_box(coord, map.shape.take(n as int)),
    ensures
        ({
            let axes = followed_axes(map, shape, strides, origins, n)->0;
            let at = located(origins, axes, coord);
            &&& axes.len() == n
            &&& in_box(at, shape)
            &&& position_of(at, shape) == position_of(origins, shape) + total(
                map.axes.take(n as int),
                coord,
            )
            &&& forall|base: int|
                0 <= base < shape.len() && !followed(axes, base) ==> #[trigger] at[base]
                    == origins[base]
        }),
    decreases n,
{
    let axes = followed_axes(map, shape, strides, origins, n)->0;
    let at = located(origins, axes, coord);
    if n > 0 {
        let m = (n - 1) as nat;
        let taken = followed_axes(map, shape, strides, origins, m)->0;
        let head = coord.drop_last();
        assert(in_box(head, map.shape.take(m as int))) by {
            assert forall|i: int| 0 <= i < m implies #[trigger] head[i] < map.shape.take(
                m as int,
            )[i] by {
                assert(coord[i] < map.shape.take(n as int)[i]);
            }
        }
        following_views_step_along_axes(map, shape, strides, origins, m, head);
        let before = located(origins, taken, head);
        let stride = match map.axes[m as int] {
            Contribution::Stride(stride) => stride,
            _ => 0,
        };
        let dim = map.shape[m as int];
        let c = coord.last() as int;
        assert(coord[m as int] < map.shape.take(n as int)[m as int]);
        lemma_last_base(stride, dim, shape, strides, origins, taken, shape.len() as int);
        let base = last_base(
            stride,
            dim,
            shape,
            strides,
            origins,
            taken,
            shape.len() as int,
        )->0;
        let unit = strides[base] as int;
        assert(unit == volume(shape.skip(base + 1)));
        lemma_volume_suffix_bound(shape, base + 1);
        let q = stride / unit;
        vstd::arithmetic::div_mod::lemma_fundamental_div_mod(stride, unit);
        assert(0 < q <= stride) by (nonlinear_arith)
            requires
                stride == unit * q + stride % unit,
                stride % unit == 0,
                stride > 0,
                unit >= 1,
        ;
        assert(0 <= q * c <= q * (dim - 1)) by (nonlinear_arith)
            requires
                q > 0,
                0 <= c <= dim - 1,
        ;
        let value = (origins[base] + q * c) as u64;
        assert(axes == taken.push((base as usize, q as u64)));
        assert(axes.drop_last() =~= taken);
        assert(at == before.update(base, value));
        assert(before[base] == origins[base]);
        lemma_position_update(before, shape, base, value);
        assert((q * c) * unit == stride * c) by (nonlinear_arith)
            requires
                stride == unit * q,
        ;
        assert(map.axes.take(n as int).drop_last() =~= map.axes.take(m as int));
        assert(in_box(at, shape)) by {
            assert forall|b: int| 0 <= b < shape.len() implies #[trigger] at[b] < shape[b] by {
                assert(before[b] < shape[b]);
            }
        }
        assert forall|b: int| 0 <= b < shape.len() && !followed(axes, b) implies #[trigger] at[b]
            == origins[b] by {
            assert(axes[m as int].0 == base);
            if followed(taken, b) {
                let j = choose|j: int| 0 <= j < taken.len() && (#[trigger] taken[j]).0 == b;
                assert(axes[j].0 == b);
            }
            assert(before[b] == origins[b]);
        }
    } else {
        assert(map.axes.take(0) =~= Seq::<Contribution>::empty());
    }
}

} // verus!
