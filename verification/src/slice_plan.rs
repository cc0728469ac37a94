//! How a slice of a stored tensor is read: box by box, or by the occupied regions of the index.

use vstd::prelude::*;
use crate::error::Result;
use crate::expression::MAX_BATCH_ELEMENTS;
use crate::geometry::{
    all_positive, coordinate_at, in_box, lemma_coordinate_position, lemma_position_bound,
    lemma_position_coordinate, lemma_volume_positive, position_of, volume,
};
use crate::mapping::{
    ceil_gap, CoordinateMap, followed, followed_axes, last_base, lemma_ceil_gap, lemma_unravel,
    Mapping, offset_at, origin_of, resolves, StorageSlice, unravel,
};
use crate::occupied::{
    clipped_values, key_coords, lemma_value_coords, OccupiedRegions, Sliced, value_coords,
    value_lens, view_bounds,
};
use crate::regions::{in_region, key_agrees, key_region, rows_stand_for_their_elements};
use crate::request::{
    axes_fit, axes_lens, axes_of, axes_volume, Axis, axis_at, axis_fits, axis_len, box_coords,
    lemma_axis_at, lens_fit, Selection,
};
use crate::schema::{are_strides, Layout, lemma_ceil_div};
use crate::slice::{axis_values, clip, Slice, SliceRequests};
use crate::tensor::{sparse_axis, sparse_axis_for_layout, TensorStorage};
use crate::transform_laws::{lemma_last_base, located};
use crate::write::key_of;

verus! {

/// A view that follows some axes of a tensor, each at most once, and stays within it.
pub open spec fn follows_inside(
    origins: Seq<u64>,
    axes: Seq<(usize, u64)>,
    dims: Seq<u64>,
    shape: Seq<u64>,
) -> bool {
    &&& in_box(origins, shape)
    &&& axes.len() == dims.len()
    &&& forall|i: int| 0 <= i < axes.len() ==> axis_inside(#[trigger] axes[i], origins, dims[i], shape)
    &&& forall|i: int, j: int|
        0 <= i < j < axes.len() ==> (#[trigger] axes[i]).0 != (#[trigger] axes[j]).0
}

/// So many steps along an axis of the tensor stay within it.
pub open spec fn axis_inside(
    axis: (usize, u64),
    origins: Seq<u64>,
    dim: u64,
    shape: Seq<u64>,
) -> bool {
    &&& axis.0 < shape.len()
    &&& axis.1 > 0
    &&& origins[axis.0 as int] + axis.1 * (dim - 1) < shape[axis.0 as int]
}

/// The axes that a view is found to follow keep it within the tensor.
pub proof fn lemma_followed_inside(
    map: Mapping,
    shape: Seq<u64>,
    strides: Seq<u64>,
    origins: Seq<u64>,
    n: nat,
)
    requires
        n <= map.axes.len(),
        map.axes.len() == map.shape.len(),
        are_strides(strides, shape),
        all_positive(shape),
        all_positive(strides),
        shape.len() <= usize::MAX,
        in_box(origins, shape),
        followed_axes(map, shape, strides, origins, n) is Some,
        all_positive(map.shape),
    ensures
        follows_inside(
            origins,
            followed_axes(map, shape, strides, origins, n)->0,
            map.shape.take(n as int),
            shape,
        ),
    decreases n,
{
    let axes = followed_axes(map, shape, strides, origins, n)->0;
    if n > 0 {
        let m = (n - 1) as nat;
        let taken = followed_axes(map, shape, strides, origins, m)->0;
        lemma_followed_inside(map, shape, strides, origins, m);
        let stride = map.axes[m as int]->Stride_0;
        let dim = map.shape[m as int];
        lemma_last_base(stride, dim, shape, strides, origins, taken, shape.len() as int);
        let base = last_base(stride, dim, shape, strides, origins, taken, shape.len() as int)->0;
        let by = strides[base] as int;
        let step = stride / by;
        vstd::arithmetic::div_mod::lemma_fundamental_div_mod(stride, by);
        assert(0 < step <= stride) by (nonlinear_arith)
            requires
                stride == by * step + stride % by,
                stride % by == 0,
                stride > 0,
                by > 0,
        ;
        assert(axes == taken.push((base as usize, step as u64)));
        assert forall|i: int| 0 <= i < axes.len() implies axis_inside(
            #[trigger] axes[i],
            origins,
            map.shape.take(n as int)[i],
            shape,
        ) by {
            if i < m {
                assert(axis_inside(taken[i], origins, map.shape.take(m as int)[i], shape));
            }
        }
        assert forall|i: int, j: int| 0 <= i < j < axes.len() implies (#[trigger] axes[i]).0 != (
        #[trigger] axes[j]).0 by {
            if j == m {
                assert(taken[i].0 != base);
            } else {
                assert(taken[i].0 != taken[j].0);
            }
        }
    } else {
        assert(axes =~= Seq::<(usize, u64)>::empty());
    }
}

/// The first and the last index on an axis of the tensor that a slice of a view reaches.
pub open spec fn spans_axis(
    origins: Seq<u64>,
    axes: Seq<(usize, u64)>,
    slice: Seq<Selection>,
    base: int,
    lo: u64,
    hi: u64,
) -> bool {
    &&& !followed(axes, base) ==> lo == origins[base] && hi == origins[base]
    &&& forall|i: int|
        0 <= i < axes.len() && (#[trigger] axes[i]).0 == base ==> spans_values(
            origins[base] as int,
            axes[i].1 as int,
            axis_values(slice[i]),
            lo as int,
            hi as int,
        )
}

/// The numbers lie between two of them, when each is so many steps from an origin.
pub open spec fn spans_values(origin: int, step: int, values: Seq<int>, lo: int, hi: int) -> bool {
    &&& exists|k: int| 0 <= k < values.len() && lo == origin + step * #[trigger] values[k]
    &&& exists|k: int| 0 <= k < values.len() && hi == origin + step * #[trigger] values[k]
    &&& forall|k: int|
        0 <= k < values.len() ==> lo <= origin + step * #[trigger] values[k] <= hi
}

/// The least and the greatest number of a selection.
fn extremes(axis: &Axis, Ghost(dim): Ghost<u64>) -> (result: (u64, u64))
    requires
        axis_fits(axis@, dim),
        0 < axis_len(axis@) <= u64::MAX,
    ensures
        axis_values(axis@).contains(result.0 as int),
        axis_values(axis@).contains(result.1 as int),
        forall|k: int|
            0 <= k < axis_len(axis@) ==> result.0 <= #[trigger] axis_at(axis@, k) <= result.1,
        result.0 < dim,
        result.1 < dim,
{
    let ghost values = axis_values(axis@);
    match axis {
        Axis::Span { start, step, len } => {
            proof {
                lemma_axis_at(axis@, dim, 0);
                lemma_axis_at(axis@, dim, len - 1);
                assert(step * 0 == 0) by (nonlinear_arith);
                assert forall|k: int| 0 <= k < axis_len(axis@) implies axis_at(axis@, 0)
                    <= #[trigger] axis_at(axis@, k) <= axis_at(axis@, len - 1) by {
                    assert(0 <= step * k <= step * (len - 1)) by (nonlinear_arith)
                        requires
                            0 <= k <= len - 1,
                            step >= 0,
                    ;
                }
                assert(values[0] == axis_at(axis@, 0));
                assert(values[len - 1] == axis_at(axis@, len - 1));
            }
            (axis.at(0), axis.at(*len - 1))
        },
        Axis::Selected(list) => {
            let mut low: u64 = list[0];
            let mut high: u64 = list[0];
            let mut i: usize = 1;
            proof {
                assert(values[0] == list@[0]);
                assert(list@[0] < dim);
            }
            while i < list.len()
                invariant
                    1 <= i <= list.len(),
                    axis@ == Selection::Selected(list@),
                    values == axis_values(axis@),
                    values.len() == list@.len(),
                    axis_fits(axis@, dim),
                    values.contains(low as int),
                    values.contains(high as int),
                    low < dim,
                    high < dim,
                    forall|k: int| 0 <= k < i ==> low <= #[trigger] list@[k] <= high,
                decreases list.len() - i,
            {
                let value: u64 = list[i];
                proof {
                    assert(values[i as int] == value);
                    assert(list@[i as int] < dim);
                }
                if value < low {
                    low = value;
                }
                if value > high {
                    high = value;
                }
                i += 1;
            }
            (low, high)
        },
    }
}

/// The indices on the axis of the index that a slice of a view reaches.
pub fn key_span(storage: &TensorStorage, slice: &Slice, mapping: &StorageSlice) -> (span: (
    u64,
    u64,
))
    requires
        storage.wf(),
        slice.wf(),
        axes_volume(slice@) > 0,
        follows_inside(
            mapping.origins@,
            mapping.axes@,
            slice.spec_shape(),
            storage.spec_shape(),
        ),
    ensures
        spans_axis(
            mapping.origins@,
            mapping.axes@,
            slice@,
            sparse_axis(storage.spec_layout()) as int,
            span.0,
            span.1,
        ),
{
    proof {
        storage.lemma_wf();
        lemma_volume_positive(axes_lens(slice@));
    }
    let base: usize = sparse_axis_for_layout(storage.layout());
    let origin: u64 = mapping.origins[base];
    let selections = slice.axes();
    let mut i: usize = 0;
    while i < mapping.axes.len()
        invariant
            i <= mapping.axes.len(),
            base == sparse_axis(storage.spec_layout()),
            base < storage.spec_shape().len(),
            origin == mapping.origins@[base as int],
            slice.wf(),
            axes_of(selections@) == slice@,
            all_positive(axes_lens(slice@)),
            follows_inside(
                mapping.origins@,
                mapping.axes@,
                slice.spec_shape(),
                storage.spec_shape(),
            ),
            forall|j: int| 0 <= j < i ==> (#[trigger] mapping.axes@[j]).0 != base,
        decreases mapping.axes.len() - i,
    {
        let (to, step) = mapping.axes[i];
        if to == base {
            let ghost dim = slice.spec_shape()[i as int];
            let ghost axis = slice@[i as int];
            proof {
                assert(selections@[i as int]@ == axis);
                assert(axes_lens(slice@)[i as int] > 0);
                assert(axis_len(slice@[i as int]) <= u64::MAX);
                assert(axis_fits(slice@[i as int], slice.spec_shape()[i as int]));
                assert(axis_inside(
                    mapping.axes@[i as int],
                    mapping.origins@,
                    dim,
                    storage.spec_shape(),
                ));
            }
            let (first, last) = extremes(&selections[i], Ghost(dim));
            proof {
                assert(0 <= step * first <= step * (dim - 1) && 0 <= step * last <= step * (dim
                    - 1)) by (nonlinear_arith)
                    requires
                        0 <= first <= dim - 1,
                        0 <= last <= dim - 1,
                        step >= 0,
                ;
                vstd::arithmetic::mul::lemma_mul_is_commutative(step as int, first as int);
                vstd::arithmetic::mul::lemma_mul_is_commutative(step as int, last as int);
            }
            let lo: u64 = origin + first * step;
            let hi: u64 = origin + last * step;
            proof {
                let values = axis_values(axis);
                let a = choose|a: int| 0 <= a < values.len() && values[a] == first;
                let b = choose|b: int| 0 <= b < values.len() && values[b] == last;
                assert(lo == origin + step * values[a]);
                assert(hi == origin + step * values[b]);
                assert forall|k: int| 0 <= k < values.len() implies lo <= origin + step
                    * #[trigger] values[k] <= hi by {
                    let v = axis_at(axis, k);
                    assert(values[k] == v);
                    assert(step * first <= step * v <= step * last) by (nonlinear_arith)
                        requires
                            first <= v <= last,
                            step >= 0,
                    ;
                }
                assert(spans_values(origin as int, step as int, values, lo as int, hi as int));
                assert forall|j: int|
                    0 <= j < mapping.axes@.len() && (#[trigger] mapping.axes@[j]).0
                        == base implies spans_values(
                    origin as int,
                    mapping.axes@[j].1 as int,
                    axis_values(slice@[j]),
                    lo as int,
                    hi as int,
                ) by {
                    if j < i {
                        assert(mapping.axes@[j].0 != mapping.axes@[i as int].0);
                    } else if i < j {
                        assert(mapping.axes@[i as int].0 != mapping.axes@[j].0);
                    }
                }
                assert(followed(mapping.axes@, base as int)) by {
                    assert(mapping.axes@[i as int].0 == base);
                }
            }
            return (lo, hi);
        }
        i += 1;
    }
    (origin, origin)
}

/// How to read a slice.
pub enum SlicePlan<'a> {
    /// Box by box.
    Boxes(SliceRequests),
    /// By the rows of the index between two indices.
    Occupied { regions: OccupiedRegions<'a>, lo: u64, hi: u64 },
}

/// The slice is read by the rows of the index: the tensor is sparse, and the slice does not fit a
/// batch.
pub open spec fn by_rows(storage: TensorStorage, axes: Seq<Selection>) -> bool {
    storage.spec_layout() is Sparse && axes_volume(axes) > MAX_BATCH_ELEMENTS
}

/// What a view that is read by rows follows: its origin, and its axes if it follows any.
pub open spec fn followed_by(
    storage: TensorStorage,
    mapping: Option<Mapping>,
) -> (Seq<u64>, Option<Seq<(usize, u64)>>) {
    let shape = storage.spec_shape();
    let strides = storage.spec_strides();
    match mapping {
        Some(map) => {
            let origins = unravel(offset_at(map, origin_of(map.shape.len())), shape, strides);
            (origins, followed_axes(map, shape, strides, origins, map.axes.len()))
        },
        None => (
            origin_of(shape.len()),
            Some(Seq::new(shape.len(), |i: int| (i as usize, 1u64))),
        ),
    }
}

/// The shape of a view, or of the tensor itself.
pub open spec fn viewed_shape(storage: TensorStorage, mapping: Option<Mapping>) -> Seq<u64> {
    match mapping {
        Some(map) => map.shape,
        None => storage.spec_shape(),
    }
}

/// The contents of a view, if there is one.
pub open spec fn map_of(mapping: Option<&CoordinateMap>) -> Option<Mapping> {
    match mapping {
        Some(mapping) => Some(mapping@),
        None => None,
    }
}

/// Plan how to read a slice of a tensor, or of a view on it.
pub fn plan_slice<'a>(
    storage: &'a TensorStorage,
    slice: Slice,
    mapping: Option<&CoordinateMap>,
) -> (result: Result<SlicePlan<'a>>)
    requires
        storage.wf(),
        storage.is_countable(),
        slice.wf(),
        slice.spec_shape() == viewed_shape(*storage, map_of(mapping)),
        mapping matches Some(mapping) ==> mapping.wf(),
    ensures
        result is Err <==> by_rows(*storage, slice@) && (map_of(mapping) matches Some(map)
            && !resolves(
            map,
            origin_of(map.shape.len()),
            storage.spec_shape(),
            storage.spec_strides(),
        )),
        result matches Err(error) ==> error is InvalidCoord,
        match result {
            Ok(SlicePlan::Boxes(requests)) => {
                &&& !by_rows(*storage, slice@) || followed_by(
                    *storage,
                    map_of(mapping),
                ).1 is None
                &&& requests.wf()
                &&& requests.spec_axes() == slice@
                &&& requests.spec_position() == 0
            },
            Ok(SlicePlan::Occupied { regions, lo, hi }) => {
                let (origins, axes) = followed_by(*storage, map_of(mapping));
                &&& by_rows(*storage, slice@)
                &&& regions.wf()
                &&& axes matches Some(axes) && regions.sliced() == (Sliced {
                    storage: *storage,
                    axes: slice@,
                    origins,
                    followed: axes,
                }) && follows_inside(
                    origins,
                    axes,
                    slice.spec_shape(),
                    storage.spec_shape(),
                ) && spans_axis(
                    origins,
                    axes,
                    slice@,
                    sparse_axis(storage.spec_layout()) as int,
                    lo,
                    hi,
                )
                &&& regions.spec_seen().len() == 0
                &&& regions.spec_emitted().len() == 0
                &&& regions.spec_waiting().len() == 0
                &&& !regions.is_exhausted()
            },
            Err(_) => true,
        },
{
    let dense = match storage.layout() {
        Layout::Dense => true,
        Layout::Sparse { .. } => false,
    };
    if slice.len() <= MAX_BATCH_ELEMENTS as u64 || dense {
        return Ok(SlicePlan::Boxes(slice.requests()));
    }
    let ghost shape = storage.spec_shape();
    let ghost strides = storage.spec_strides();
    proof {
        storage.lemma_wf();
        lemma_positive_strides(shape, strides);
    }
    let rank: usize = storage.shape().len();
    assert(rank == shape.len());
    let follows = match mapping {
        Some(map) => match map.storage_slice(storage.shape(), storage.strides())? {
            Some(follows) => {
                proof {
                    let start = offset_at(map@, origin_of(map@.shape.len()));
                    lemma_unravel(start, shape, strides);
                    lemma_coordinate_position(start, shape);
                    assert(in_box(origin_of(map@.shape.len()), map@.shape));
                    assert forall|i: int| 0 <= i < map@.shape.len() implies #[trigger] map@.shape[i]
                        > 0 by {
                        assert(origin_of(map@.shape.len())[i] < map@.shape[i]);
                    }
                    lemma_followed_inside(
                        map@,
                        shape,
                        strides,
                        follows.origins@,
                        map@.axes.len(),
                    );
                    assert(map@.shape.take(map@.axes.len() as int) =~= map@.shape);
                }
                follows
            },
            None => {
                return Ok(SlicePlan::Boxes(slice.requests()));
            },
        },
        None => {
            let follows = StorageSlice::identity(storage.shape());
            proof {
                assert forall|i: int| 0 <= i < shape.len() implies axis_inside(
                    #[trigger] follows.axes@[i],
                    follows.origins@,
                    shape[i],
                    shape,
                ) by {
                    assert(shape[i] > 0);
                    assert(follows.axes@[i] == (i as usize, 1u64));
                    assert(follows.origins@[i] == 0);
                    assert(i as usize == i);
                }
                assert forall|i: int| 0 <= i < shape.len() implies #[trigger] follows.origins@[i]
                    < shape[i] by {
                    assert(shape[i] > 0);
                }
                assert(follows.origins@ =~= origin_of(shape.len()));
            }
            follows
        },
    };
    let (lo, hi) = key_span(storage, &slice, &follows);
    Ok(SlicePlan::Occupied { regions: OccupiedRegions::new(storage, slice, follows), lo, hi })
}

proof fn lemma_positive_strides(shape: Seq<u64>, strides: Seq<u64>)
    requires
        all_positive(shape),
        are_strides(strides, shape),
    ensures
        all_positive(strides),
{
    assert forall|i: int| 0 <= i < strides.len() implies #[trigger] strides[i] > 0 by {
        let rest = shape.skip(i + 1);
        assert(strides[i] == volume(rest));
        assert forall|j: int| 0 <= j < rest.len() implies #[trigger] rest[j] > 0 by {
            assert(rest[j] == shape[j + i + 1]);
        }
        lemma_volume_positive(rest);
    }
}

/// A choice of numbers is one of its coordinates if each axis has its number.
pub proof fn lemma_value_member(values: Seq<Seq<int>>, coord: Seq<u64>)
    requires
        forall|i: int| 0 <= i < values.len() ==> (#[trigger] values[i]).len() <= u64::MAX,
        forall|i: int, j: int|
            #![trigger values[i][j]]
            0 <= i < values.len() && 0 <= j < values[i].len() ==> 0 <= values[i][j] <= u64::MAX,
    ensures
        value_coords(values).contains(coord) <==> coord.len() == values.len() && forall|i: int|
            0 <= i < values.len() ==> (#[trigger] values[i]).contains(coord[i] as int),
{
    let lens = value_lens(values);
    let all = value_coords(values);
    lemma_volume_positive(lens);
    if all.contains(coord) {
        let k = choose|k: int| 0 <= k < all.len() && all[k] == coord;
        lemma_coordinate_position(k, lens);
        let place = coordinate_at(k, lens);
        assert forall|i: int| 0 <= i < values.len() implies (#[trigger] values[i]).contains(
            coord[i] as int,
        ) by {
            assert(place[i] < lens[i]);
            assert(values[i].len() <= u64::MAX);
            assert(coord[i] == values[i][place[i] as int] as u64);
            assert(0 <= values[i][place[i] as int] <= u64::MAX);
        }
    }
    if coord.len() == values.len() && forall|i: int|
        0 <= i < values.len() ==> (#[trigger] values[i]).contains(coord[i] as int) {
        let place = Seq::new(
            values.len(),
            |i: int|
                (choose|p: int| 0 <= p < values[i].len() && values[i][p] == coord[i] as int) as u64,
        );
        assert forall|i: int| 0 <= i < values.len() implies #[trigger] place[i] < lens[i]
            && values[i][place[i] as int] == coord[i] by {
            assert(values[i].contains(coord[i] as int));
            assert(values[i].len() <= u64::MAX);
            let p = choose|p: int| 0 <= p < values[i].len() && values[i][p] == coord[i] as int;
            assert(place[i] == p as u64);
        }
        let k = position_of(place, lens);
        lemma_position_bound(place, lens);
        lemma_position_coordinate(place, lens);
        assert(all[k] =~= coord) by {
            assert forall|i: int| 0 <= i < values.len() implies all[k][i] == coord[i] by {
                assert(values[i][place[i] as int] == coord[i]);
            }
        }
    }
}

proof fn lemma_clip_member(values: Seq<int>, low: int, high: int, value: int)
    ensures
        clip(values, low, high).contains(value) <==> values.contains(value) && low <= value < high,
        clip(values, low, high).len() <= values.len(),
    decreases values.len(),
{
    let out = clip(values, low, high);
    if values.len() > 0 {
        let init = values.drop_last();
        let rest = clip(init, low, high);
        lemma_clip_member(init, low, high, value);
        if out.contains(value) {
            let i = choose|i: int| 0 <= i < out.len() && out[i] == value;
            if i < rest.len() {
                assert(rest[i] == value);
                let j = choose|j: int| 0 <= j < init.len() && init[j] == value;
                assert(values[j] == value);
            } else {
                assert(values[values.len() - 1] == value);
            }
        }
        if values.contains(value) && low <= value < high {
            let j = choose|j: int| 0 <= j < values.len() && values[j] == value;
            if j < init.len() {
                assert(init[j] == value);
                let i = choose|i: int| 0 <= i < rest.len() && rest[i] == value;
                assert(out[i] == value);
            } else {
                assert(out[out.len() - 1] == value);
            }
        }
    }
}

/// Where an element of a view stands on the axes of the tensor.
pub proof fn lemma_located(origins: Seq<u64>, axes: Seq<(usize, u64)>, coord: Seq<u64>, shape: Seq<u64>)
    requires
        coord.len() == axes.len(),
        in_box(origins, shape),
        forall|i: int|
            0 <= i < axes.len() ==> (#[trigger] axes[i]).0 < shape.len() && origins[axes[i].0 as int]
                + axes[i].1 * coord[i] < shape[axes[i].0 as int],
        forall|i: int, j: int|
            0 <= i < j < axes.len() ==> (#[trigger] axes[i]).0 != (#[trigger] axes[j]).0,
    ensures
        in_box(located(origins, axes, coord), shape),
        forall|i: int|
            0 <= i < axes.len() ==> located(origins, axes, coord)[(#[trigger] axes[i]).0 as int]
                == origins[axes[i].0 as int] + axes[i].1 * coord[i],
        forall|base: int|
            0 <= base < shape.len() && !followed(axes, base) ==> #[trigger] located(
                origins,
                axes,
                coord,
            )[base] == origins[base],
    decreases axes.len(),
{
    if axes.len() > 0 {
        let init = axes.drop_last();
        let head = coord.drop_last();
        let n = axes.len() - 1;
        assert forall|i: int| 0 <= i < init.len() implies (#[trigger] init[i]).0 < shape.len()
            && origins[init[i].0 as int] + init[i].1 * head[i] < shape[init[i].0 as int] by {
            assert(axes[i].0 < shape.len());
        }
        assert forall|i: int, j: int| 0 <= i < j < init.len() implies (#[trigger] init[i]).0 != (
        #[trigger] init[j]).0 by {
            assert(axes[i].0 != axes[j].0);
        }
        lemma_located(origins, init, head, shape);
        let before = located(origins, init, head);
        let at = located(origins, axes, coord);
        let base = axes[n].0 as int;
        assert(axes.last() == axes[n] && coord.last() == coord[n]);
        assert(0 <= axes[n].1 * coord[n]) by (nonlinear_arith)
            requires
                axes[n].1 >= 0,
                coord[n] >= 0,
        ;
        assert forall|i: int| 0 <= i < axes.len() implies at[(#[trigger] axes[i]).0 as int]
            == origins[axes[i].0 as int] + axes[i].1 * coord[i] by {
            if i < n {
                assert(init[i] == axes[i]);
                assert(axes[i].0 != axes[n].0);
            }
        }
        assert forall|b: int| 0 <= b < shape.len() && !followed(axes, b) implies #[trigger] at[b]
            == origins[b] by {
            assert(axes[n].0 != b);
            if followed(init, b) {
                let i = choose|i: int| 0 <= i < init.len() && (#[trigger] init[i]).0 == b;
                assert(axes[i].0 == b);
            }
        }
        assert forall|b: int| 0 <= b < shape.len() implies #[trigger] at[b] < shape[b] by {
            assert(before[b] < shape[b]);
        }
    }
}

/// The part of a slice that a row of the index stands for is made of those elements of the slice
/// that have its key in the tensor.
pub proof fn rows_name_the_elements_of_a_slice(
    sliced: Sliced,
    dims: Seq<u64>,
    key: Seq<u64>,
    coord: Seq<u64>,
)
    requires
        sliced.storage.wf(),
        sliced.storage.is_countable(),
        follows_inside(sliced.origins, sliced.followed, dims, sliced.storage.spec_shape()),
        axes_fit(sliced.axes, dims),
        lens_fit(sliced.axes),
        key.len() == 2,
        key[1] < sliced.storage.spec_num_blocks(),
        key_agrees(sliced.storage, key),
    ensures
        key_coords(sliced, key).contains(coord) <==> value_coords(
            Seq::new(sliced.axes.len(), |i: int| axis_values(sliced.axes[i])),
        ).contains(coord) && key_of(
            sliced.storage,
            located(sliced.origins, sliced.followed, coord),
        ) == key,
{
    let storage = sliced.storage;
    let shape = storage.spec_shape();
    let axes = sliced.axes;
    let region = key_region(storage, key);
    let bounds = view_bounds(sliced.origins, sliced.followed, region);
    let all = Seq::new(axes.len(), |i: int| axis_values(axes[i]));
    let some = clipped_values(axes, bounds);
    storage.lemma_wf();
    assert forall|i: int| 0 <= i < axes.len() implies (#[trigger] all[i]).len() <= u64::MAX
        && some[i].len() <= u64::MAX by {
        assert(axis_len(axes[i]) <= u64::MAX);
        assert(axis_fits(axes[i], dims[i]));
        lemma_clip_member(all[i], bounds[i].0 as int, bounds[i].1 as int, 0);
    }
    assert forall|i: int, j: int|
        #![trigger all[i][j]]
        0 <= i < axes.len() && 0 <= j < all[i].len() implies 0 <= all[i][j] < dims[i] by {
        assert(axis_fits(axes[i], dims[i]));
        lemma_axis_at(axes[i], dims[i], j);
    }
    assert forall|i: int, j: int|
        #![trigger some[i][j]]
        0 <= i < some.len() && 0 <= j < some[i].len() implies 0 <= some[i][j] <= u64::MAX by {
        let v = some[i][j];
        assert(some[i].contains(v));
        lemma_clip_member(all[i], bounds[i].0 as int, bounds[i].1 as int, v);
        let k = choose|k: int| 0 <= k < all[i].len() && all[i][k] == v;
        assert(0 <= all[i][k] < dims[i]);
    }
    assert forall|i: int| 0 <= i < some.len() implies (#[trigger] some[i]).len() <= u64::MAX by {
        assert(all[i].len() <= u64::MAX);
    }
    lemma_value_member(all, coord);
    lemma_value_member(some, coord);
    if value_coords(all).contains(coord) {
        let at = located(sliced.origins, sliced.followed, coord);
        assert forall|i: int| 0 <= i < axes.len() implies #[trigger] coord[i] < dims[i] by {
            assert(all[i].contains(coord[i] as int));
            let k = choose|k: int| 0 <= k < all[i].len() && all[i][k] == coord[i] as int;
            assert(all[i][k] < dims[i]);
        }
        assert forall|i: int| 0 <= i < sliced.followed.len() implies (
        #[trigger] sliced.followed[i]).0 < shape.len() && sliced.origins[sliced.followed[i].0 as int]
            + sliced.followed[i].1 * coord[i] < shape[sliced.followed[i].0 as int] by {
            assert(axis_inside(sliced.followed[i], sliced.origins, dims[i], shape));
            assert(coord[i] < dims[i]);
            let step = sliced.followed[i].1;
            assert(step * coord[i] <= step * (dims[i] - 1)) by (nonlinear_arith)
                requires
                    coord[i] <= dims[i] - 1,
                    step >= 0,
            ;
        }
        lemma_located(sliced.origins, sliced.followed, coord, shape);
        rows_stand_for_their_elements(storage, key, at);
        assert forall|i: int| 0 <= i < axes.len() implies (bounds[i].0 <= #[trigger] coord[i]
            < bounds[i].1 <==> region[sliced.followed[i].0 as int].0 <= at[sliced.followed[i].0 as int]
            < region[sliced.followed[i].0 as int].1) by {
            let (to, step) = sliced.followed[i];
            let base = to as int;
            let origin = sliced.origins[base];
            assert(axis_inside(sliced.followed[i], sliced.origins, dims[i], shape));
            assert(at[base] == origin + step * coord[i]);
            lemma_ceil_gap(region[base].0, origin, step, coord[i] as int);
            lemma_ceil_gap(region[base].1, origin, step, coord[i] as int);
            lemma_gap_small(region[base].0, origin, step);
            lemma_gap_small(region[base].1, origin, step);
            vstd::arithmetic::mul::lemma_mul_is_commutative(step as int, coord[i] as int);
        }
        assert forall|i: int| 0 <= i < axes.len() implies ((#[trigger] some[i]).contains(
            coord[i] as int,
        ) <==> bounds[i].0 <= coord[i] < bounds[i].1) by {
            assert(all[i].contains(coord[i] as int));
            lemma_clip_member(
                all[i],
                bounds[i].0 as int,
                bounds[i].1 as int,
                coord[i] as int,
            );
        }
        if key_coords(sliced, key).contains(coord) {
            assert forall|base: int| 0 <= base < region.len() implies (#[trigger] region[base]).0
                <= at[base] < region[base].1 by {
                if followed(sliced.followed, base) {
                    let i = choose|i: int|
                        0 <= i < sliced.followed.len() && (#[trigger] sliced.followed[i]).0 == base;
                    assert(some[i].contains(coord[i] as int));
                    assert(bounds[i].0 <= coord[i] < bounds[i].1);
                }
            }
        }
        if in_region(at, region) {
            assert forall|i: int| 0 <= i < some.len() implies (#[trigger] some[i]).contains(
                coord[i] as int,
            ) by {
                let base = sliced.followed[i].0 as int;
                assert(axis_inside(sliced.followed[i], sliced.origins, dims[i], shape));
                assert(region[base].0 <= at[base] < region[base].1);
                assert(bounds[i].0 <= coord[i] < bounds[i].1);
            }
            assert forall|base: int|
                0 <= base < region.len() && !followed(sliced.followed, base) implies (
            #[trigger] region[base]).0 <= sliced.origins[base] < region[base].1 by {
                assert(at[base] == sliced.origins[base]);
            }
        }
    } else if key_coords(sliced, key).contains(coord) {
        assert forall|i: int| 0 <= i < all.len() implies (#[trigger] all[i]).contains(
            coord[i] as int,
        ) by {
            assert(some[i].contains(coord[i] as int));
            lemma_clip_member(
                all[i],
                bounds[i].0 as int,
                bounds[i].1 as int,
                coord[i] as int,
            );
        }
    }
}

proof fn lemma_gap_small(mark: u64, origin: u64, step: u64)
    requires
        step > 0,
    ensures
        0 <= ceil_gap(mark, origin, step) <= u64::MAX,
{
    lemma_ceil_div(
        if mark <= origin {
            0
        } else {
            mark - origin
        },
        step as int,
    );
}

/// The coordinates of a slice are those of its numbers.
pub proof fn slices_hold_their_numbers(axes: Seq<Selection>, dims: Seq<u64>)
    requires
        axes_fit(axes, dims),
        lens_fit(axes),
    ensures
        box_coords(axes) == value_coords(Seq::new(axes.len(), |i: int| axis_values(axes[i]))),
{
    lemma_value_coords(axes, Seq::new(axes.len(), |i: int| axis_values(axes[i])), dims);
}

} // verus!
