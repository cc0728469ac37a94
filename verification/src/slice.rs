//! Selections that keep the rank of a tensor, and the bounded requests they are read by.

use vstd::prelude::*;
use vstd::arithmetic::mul::lemma_mul_is_commutative;
use vstd::slice::slice_subrange;
use vstd::slice::slice_to_vec;
use crate::error::{Error, Result};
use crate::expression::MAX_BATCH_ELEMENTS;
use crate::geometry::{
    all_positive, carried, coordinate_at, in_box, lemma_coordinate_position, lemma_coordinate_zero,
    lemma_last_coordinate, lemma_next_coordinate, lemma_position_bound, lemma_position_coordinate,
    lemma_position_weighted, lemma_volume_positive, position_of, row_major_strides, volume,
    weighted_sum,
};
use crate::inline::{Coord, Shape};
use crate::mapping::{ceil_gap, lemma_ceil_gap};
use crate::request::{
    axes_fit, axes_lens, axes_of, axes_volume, Axis, axis_at, axis_fits, axis_len, BatchRequest,
    box_coords, boxes_coords, boxes_fit, boxes_len, boxes_of, Cartesian, lemma_axis_at, lens_fit,
    lists_bounded, request_coords, request_fits, Requested, Selection,
};
use crate::schema::{
    checked_product, div_ceil, greedy_blocks, greedy_blocks_fill_the_capacity, lemma_product_fits,
    valid_dims, validate_shape_dims,
};
use crate::storage_read::lemma_volume_monotone;

verus! {

/// Some of the indices on each axis of a tensor.
#[derive(Debug)]
pub struct Slice {
    shape: Shape,
    axes: Vec<Axis>,
    len: u64,
}

impl View for Slice {
    type V = Seq<Selection>;

    closed spec fn view(&self) -> Seq<Selection> {
        axes_of(self.axes@)
    }
}

impl Slice {
    pub closed spec fn spec_shape(&self) -> Seq<u64> {
        self.shape@
    }

    /// How many elements are selected.
    pub closed spec fn spec_len(&self) -> int {
        self.len as int
    }

    pub open spec fn wf(&self) -> bool {
        &&& axes_fit(self@, self.spec_shape())
        &&& lens_fit(self@)
        &&& self.spec_len() == axes_volume(self@)
    }

    pub fn new(shape: &[u64], axes: Vec<Axis>) -> (result: Result<Self>)
        ensures
            result is Ok <==> axes_fit(axes_of(axes@), shape@) && axes_volume(axes_of(axes@))
                <= u64::MAX,
            result matches Ok(slice) ==> slice.wf() && slice@ == axes_of(axes@)
                && slice.spec_shape() == shape@,
            (result matches Err(Error::InvalidCoord(_))) <==> !axes_fit(axes_of(axes@), shape@),
            result matches Err(error) ==> error is InvalidCoord || error is InvalidLayout,
    {
        if axes.len() != shape.len() {
            return Err(Error::InvalidCoord("slice rank mismatch".to_string()));
        }
        let ghost view = axes_of(axes@);
        let mut lens: Vec<u64> = Vec::new();
        let mut empty = false;
        let mut i: usize = 0;
        while i < axes.len()
            invariant
                i <= axes.len(),
                axes.len() == shape.len(),
                view == axes_of(axes@),
                lens.len() == i,
                forall|j: int| 0 <= j < i ==> axis_fits(#[trigger] view[j], shape@[j]),
                forall|j: int| 0 <= j < i ==> axis_len(#[trigger] view[j]) <= u64::MAX,
                forall|j: int| 0 <= j < i ==> #[trigger] lens@[j] == axis_len(view[j]) as u64,
                empty <==> exists|j: int| 0 <= j < i && #[trigger] lens@[j] == 0,
            decreases axes.len() - i,
        {
            assert(view[i as int] == axes@[i as int]@);
            axes[i].validate(shape[i])?;
            let len: u64 = axes[i].len();
            let ghost before = lens@;
            lens.push(len);
            proof {
                assert(forall|j: int| 0 <= j < i ==> #[trigger] lens@[j] == before[j]);
                assert(lens@[i as int] == len);
                if empty {
                    let j = choose|j: int| 0 <= j < i && #[trigger] before[j] == 0;
                    assert(lens@[j] == 0);
                }
            }
            empty = empty || len == 0;
            i += 1;
        }
        proof {
            assert(lens@ =~= axes_lens(view));
            lemma_volume_positive(lens@);
            if !empty {
                lemma_product_fits(lens@);
            }
        }
        let len: u64 = if empty {
            0
        } else {
            match checked_product(lens.as_slice()) {
                Ok(len) => len,
                Err(_) => {
                    return Err(Error::InvalidLayout("slice cardinality overflow".to_string()));
                },
            }
        };
        Ok(Slice { shape: Shape::from_slice(shape), axes, len })
    }

    /// Every element of a tensor.
    pub fn full(shape: &[u64]) -> (result: Result<Self>)
        ensures
            result is Ok <==> valid_dims(shape@) && volume(shape@) <= u64::MAX,
            result matches Ok(slice) ==> slice.wf() && slice.spec_shape() == shape@ && slice@
                == full_axes(shape@),
            (result matches Err(Error::InvalidSchema(_))) <==> !valid_dims(shape@),
            result matches Err(error) ==> error is InvalidSchema || error is InvalidLayout,
    {
        validate_shape_dims(shape)?;
        let mut axes: Vec<Axis> = Vec::new();
        let mut i: usize = 0;
        while i < shape.len()
            invariant
                i <= shape.len(),
                axes.len() == i,
                forall|j: int| 0 <= j < i ==> (#[trigger] axes@[j])@ == full_axes(shape@)[j],
            decreases shape.len() - i,
        {
            axes.push(Axis::range(0, shape[i]));
            i += 1;
        }
        proof {
            assert(axes_of(axes@) =~= full_axes(shape@));
            assert(axes_lens(full_axes(shape@)) =~= shape@);
        }
        Self::new(shape, axes)
    }

    pub fn len(&self) -> (len: u64)
        ensures
            len == self.spec_len(),
    {
        self.len
    }

    /// The selection of each axis.
    pub fn axes(&self) -> (axes: &[Axis])
        ensures
            axes_of(axes@) == self@,
    {
        self.axes.as_slice()
    }

    /// The selection as one box, if it fits a batch.
    pub fn rectangle(self) -> (result: Result<Cartesian>)
        ensures
            result is Ok <==> lists_bounded(self@) && axes_volume(self@) <= MAX_BATCH_ELEMENTS,
            result matches Ok(rectangle) ==> rectangle.wf() && rectangle@ == self@,
            result matches Err(error) ==> error is InvalidLayout,
    {
        Cartesian::new(self.axes)
    }
}

/// All indices of each axis.
pub open spec fn full_axes(shape: Seq<u64>) -> Seq<Selection> {
    Seq::new(shape.len(), |i: int| Selection::Span { start: 0, step: 1, len: shape[i] })
}

/// The indices that an axis takes, in order.
pub open spec fn axis_values(axis: Selection) -> Seq<int> {
    Seq::new(axis_len(axis) as nat, |i: int| axis_at(axis, i))
}

/// The values between two bounds, in order.
pub open spec fn clip(values: Seq<int>, low: int, high: int) -> Seq<int>
    decreases values.len(),
{
    if values.len() == 0 {
        Seq::empty()
    } else {
        let rest = clip(values.drop_last(), low, high);
        if low <= values.last() < high {
            rest.push(values.last())
        } else {
            rest
        }
    }
}

proof fn lemma_clip_len(values: Seq<int>, low: int, high: int)
    ensures
        clip(values, low, high).len() <= values.len(),
    decreases values.len(),
{
    if values.len() > 0 {
        lemma_clip_len(values.drop_last(), low, high);
    }
}

/// Where the values between the bounds stand together, they are a part of the sequence.
proof fn lemma_clip_range(values: Seq<int>, low: int, high: int, first: int, end: int)
    requires
        0 <= first <= end <= values.len() || (end < first && 0 <= end && first <= values.len()),
        forall|i: int|
            0 <= i < values.len() ==> (low <= #[trigger] values[i] < high <==> first <= i < end),
    ensures
        clip(values, low, high) == if first <= end {
            values.subrange(first, end)
        } else {
            Seq::<int>::empty()
        },
    decreases values.len(),
{
    if values.len() == 0 {
        assert(clip(values, low, high) =~= Seq::<int>::empty());
        if first <= end {
            assert(values.subrange(first, end) =~= Seq::<int>::empty());
        }
    } else {
        let n = values.len() - 1;
        let init = values.drop_last();
        let f = if first <= n {
            first
        } else {
            n
        };
        let e = if end <= n {
            end
        } else {
            n
        };
        assert forall|i: int| 0 <= i < init.len() implies (low <= #[trigger] init[i] < high <==> f
            <= i < e) by {
            assert(low <= values[i] < high <==> first <= i < end);
        }
        lemma_clip_range(init, low, high, f, e);
        assert(low <= values[n] < high <==> first <= n < end);
        if first <= end {
            assert(clip(values, low, high) =~= values.subrange(first, end));
        }
    }
}

/// Each axis keeps the indices between its bounds, in order and as often as they occur.
pub open spec fn clipped(axes: Seq<Selection>, bounds: Seq<(u64, u64)>, to: Seq<Selection>) -> bool {
    &&& to.len() == axes.len()
    &&& forall|i: int|
        0 <= i < axes.len() ==> axis_values(#[trigger] to[i]) == clip(
            axis_values(axes[i]),
            bounds[i].0 as int,
            bounds[i].1 as int,
        )
}

fn clip_axis(axis: &Axis, low: u64, high: u64, Ghost(dim): Ghost<u64>) -> (clip_: Axis)
    requires
        axis_fits(axis@, dim),
        low <= high,
    ensures
        axis_values(clip_@) == clip(axis_values(axis@), low as int, high as int),
        axis_fits(clip_@, dim),
        axis_len(clip_@) <= axis_len(axis@),
        axis_len(clip_@) <= u64::MAX,
{
    let ghost values = axis_values(axis@);
    match axis {
        Axis::Span { start, step, len } => {
            let ghost reach_low = ceil_gap(low, *start, *step);
            let ghost reach_high = ceil_gap(high, *start, *step);
            let first: u64 = smaller(div_ceil(low.saturating_sub(*start), *step), *len);
            let end: u64 = smaller(div_ceil(high.saturating_sub(*start), *step), *len);
            let count: u64 = end.saturating_sub(first);
            proof {
                assert forall|i: int| 0 <= i < values.len() implies (low <= #[trigger] values[i]
                    < high <==> first <= i < end) by {
                    lemma_ceil_gap(low, *start, *step, i);
                    lemma_ceil_gap(high, *start, *step, i);
                    lemma_mul_is_commutative(*step as int, i);
                }
                lemma_clip_range(values, low as int, high as int, first as int, end as int);
                if count > 0 {
                    lemma_axis_at(axis@, dim, first as int);
                    lemma_axis_at(axis@, dim, end - 1);
                    vstd::arithmetic::mul::lemma_mul_nonnegative(*step as int, first as int);
                    assert(*step * (end - 1) == *step * first + *step * (count - 1))
                        by (nonlinear_arith)
                        requires
                            count == end - first,
                    ;
                }
            }
            let clip_ = Axis::Span {
                start: if count == 0 {
                    *start
                } else {
                    *start + *step * first
                },
                step: *step,
                len: count,
            };
            proof {
                assert(axis_values(clip_@) =~= clip(values, low as int, high as int)) by {
                    assert forall|i: int| 0 <= i < count implies axis_values(clip_@)[i]
                        == values[first + i] by {
                        assert(*step * (first + i) == *step * first + *step * i)
                            by (nonlinear_arith);
                    }
                }
            }
            clip_
        },
        Axis::Selected(indices) => {
            let mut out: Vec<u64> = Vec::new();
            let mut i: usize = 0;
            proof {
                assert(values.take(0) =~= Seq::<int>::empty());
                assert(numbers(out@) =~= Seq::<int>::empty());
            }
            while i < indices.len()
                invariant
                    i <= indices.len(),
                    axis@ == Selection::Selected(indices@),
                    axis_fits(axis@, dim),
                    values == axis_values(axis@),
                    numbers(out@) == clip(values.take(i as int), low as int, high as int),
                    out@.len() <= i,
                    forall|j: int| 0 <= j < out@.len() ==> #[trigger] out@[j] < dim,
                decreases indices.len() - i,
            {
                let value: u64 = indices[i];
                proof {
                    assert(values.take(i + 1).drop_last() =~= values.take(i as int));
                    assert(values.take(i + 1).last() == value);
                    assert(indices@[i as int] < dim);
                }
                let ghost before = out@;
                if value >= low && value < high {
                    out.push(value);
                    proof {
                        assert(numbers(out@) =~= numbers(before).push(value as int));
                    }
                }
                i += 1;
            }
            proof {
                assert(values.take(i as int) =~= values);
            }
            let clip_ = Axis::Selected(out);
            proof {
                assert(axis_values(clip_@) =~= numbers(out@));
                assert(out.len() == out@.len());
            }
            clip_
        },
    }
}

/// Indices as exact numbers.
pub open spec fn numbers(values: Seq<u64>) -> Seq<int> {
    Seq::new(values.len(), |i: int| values[i] as int)
}

fn smaller(a: u64, b: u64) -> (least: u64)
    ensures
        least == if a <= b {
            a
        } else {
            b
        },
{
    if a <= b {
        a
    } else {
        b
    }
}

impl Slice {
    /// The part of the selection between bounds on each axis.
    pub fn intersect(&self, bounds: &[(u64, u64)]) -> (result: Result<Self>)
        requires
            self.wf(),
        ensures
            result is Ok <==> bounds@.len() == self@.len() && forall|i: int|
                0 <= i < bounds@.len() ==> (#[trigger] bounds@[i]).0 <= bounds@[i].1,
            result matches Ok(slice) ==> slice.wf() && slice.spec_shape() == self.spec_shape()
                && clipped(self@, bounds@, slice@),
            result matches Err(error) ==> error is InvalidCoord,
    {
        let shape = self.shape.as_slice();
        if bounds.len() != self.axes.len() {
            return Err(Error::InvalidCoord("invalid slice intersection bounds".to_string()));
        }
        let mut n: usize = 0;
        while n < bounds.len()
            invariant
                n <= bounds.len(),
                forall|j: int| 0 <= j < n ==> (#[trigger] bounds@[j]).0 <= bounds@[j].1,
            decreases bounds.len() - n,
        {
            let (low, high) = bounds[n];
            if low > high {
                assert(bounds@[n as int].0 > bounds@[n as int].1);
                return Err(Error::InvalidCoord("invalid slice intersection bounds".to_string()));
            }
            n += 1;
        }
        let ghost view = self@;
        let mut axes: Vec<Axis> = Vec::new();
        let mut i: usize = 0;
        while i < bounds.len()
            invariant
                i <= bounds.len(),
                bounds.len() == self.axes.len(),
                self.wf(),
                view == self@,
                shape@ == self.shape@,
                forall|j: int| 0 <= j < bounds@.len() ==> (#[trigger] bounds@[j]).0 <= bounds@[j].1,
                axes.len() == i,
                forall|j: int|
                    0 <= j < i ==> axis_values((#[trigger] axes@[j])@) == clip(
                        axis_values(view[j]),
                        bounds@[j].0 as int,
                        bounds@[j].1 as int,
                    ),
                forall|j: int| 0 <= j < i ==> axis_fits((#[trigger] axes@[j])@, shape@[j]),
                forall|j: int|
                    0 <= j < i ==> axis_len((#[trigger] axes@[j])@) <= axis_len(view[j]),
                forall|j: int| 0 <= j < i ==> axis_len((#[trigger] axes@[j])@) <= u64::MAX,
            decreases bounds.len() - i,
        {
            proof {
                assert(view[i as int] == self.axes@[i as int]@);
                assert(axis_fits(view[i as int], shape@[i as int]));
                assert(bounds@[i as int].0 <= bounds@[i as int].1);
            }
            let (low, high) = bounds[i];
            axes.push(clip_axis(&self.axes[i], low, high, Ghost(shape@[i as int])));
            i += 1;
        }
        let ghost to = axes_of(axes@);
        proof {
            assert forall|j: int| 0 <= j < to.len() implies axis_fits(#[trigger] to[j], shape@[j])
                && axis_len(to[j]) <= axis_len(view[j]) && axis_values(to[j]) == clip(
                axis_values(view[j]),
                bounds@[j].0 as int,
                bounds@[j].1 as int,
            ) by {
                assert(to[j] == axes@[j]@);
            }
            let lens = axes_lens(to);
            let wide = axes_lens(view);
            assert forall|j: int| 0 <= j < lens.len() implies #[trigger] lens[j] <= wide[j] by {
                assert(axis_len(to[j]) <= axis_len(view[j]));
                assert(axis_len(view[j]) <= u64::MAX);
            }
            lemma_volume_monotone(lens, wide);
        }
        Self::new(shape, axes)
    }
}

/// Chunks that follow the row-major order: one axis is cut, the axes before it go one by one,
/// and those behind it are whole.
pub open spec fn row_chunks(chunks: Seq<u64>, lens: Seq<u64>, cut: int) -> bool {
    &&& chunks.len() == lens.len()
    &&& 0 <= cut < lens.len()
    &&& forall|i: int| 0 <= i < cut ==> #[trigger] chunks[i] == 1
    &&& forall|i: int| cut < i < lens.len() ==> #[trigger] chunks[i] == lens[i]
    &&& 1 <= chunks[cut] <= lens[cut]
}

/// Chunks that fill a capacity from the last axis on follow the row-major order.
proof fn lemma_greedy_rows(lens: Seq<u64>, capacity: int)
    requires
        lens.len() > 0,
        all_positive(lens),
        0 < capacity <= u64::MAX,
    ensures
        exists|cut: int| #[trigger] row_chunks(greedy_blocks(lens, capacity), lens, cut),
    decreases lens.len(),
{
    let chunks = greedy_blocks(lens, capacity);
    greedy_blocks_fill_the_capacity(lens, capacity);
    let n = lens.len() - 1;
    let d = lens.last() as int;
    assert(lens[n as int] > 0);
    let take = if d <= capacity {
        d
    } else {
        capacity
    };
    let init = lens.drop_last();
    let rest = greedy_blocks(init, capacity / take);
    assert(chunks == rest.push(take as u64));
    assert(all_positive(init)) by {
        assert forall|i: int| 0 <= i < init.len() implies #[trigger] init[i] > 0 by {
            assert(lens[i] > 0);
        }
    }
    assert(0 < capacity / take <= capacity) by (nonlinear_arith)
        requires
            0 < take <= capacity,
    ;
    greedy_blocks_fill_the_capacity(init, capacity / take);
    if init.len() == 0 {
        assert(row_chunks(chunks, lens, 0));
    } else if take < d {
        // Nothing is left for the axes before this one.
        assert(capacity / take == 1) by (nonlinear_arith)
            requires
                take == capacity,
                take > 0,
        ;
        lemma_greedy_ones(init);
        assert forall|i: int| 0 <= i < n implies #[trigger] chunks[i] == 1 by {
            assert(rest[i] == 1);
        }
        assert(row_chunks(chunks, lens, n as int));
    } else {
        lemma_greedy_rows(init, capacity / take);
        let cut = choose|cut: int| #[trigger] row_chunks(rest, init, cut);
        assert forall|i: int| 0 <= i < cut implies #[trigger] chunks[i] == 1 by {
            assert(rest[i] == 1);
        }
        assert forall|i: int| cut < i < lens.len() implies #[trigger] chunks[i] == lens[i] by {
            if i < n {
                assert(rest[i] == init[i]);
            }
        }
        assert(row_chunks(chunks, lens, cut));
    }
}

proof fn lemma_greedy_ones(lens: Seq<u64>)
    requires
        all_positive(lens),
    ensures
        greedy_blocks(lens, 1).len() == lens.len(),
        forall|i: int| 0 <= i < lens.len() ==> #[trigger] greedy_blocks(lens, 1)[i] == 1,
    decreases lens.len(),
{
    if lens.len() > 0 {
        let n = lens.len() - 1;
        assert(lens[n as int] > 0);
        let init = lens.drop_last();
        assert(all_positive(init)) by {
            assert forall|i: int| 0 <= i < init.len() implies #[trigger] init[i] > 0 by {
                assert(lens[i] > 0);
            }
        }
        assert(1int / 1 == 1);
        lemma_greedy_ones(init);
        assert forall|i: int| 0 <= i < lens.len() implies #[trigger] greedy_blocks(lens, 1)[i]
            == 1 by {
            if i < n {
                assert(greedy_blocks(init, 1)[i] == 1);
            }
        }
    }
}

/// How much of each axis the chunk at some origins takes.
pub open spec fn chunk_lens(chunks: Seq<u64>, lens: Seq<u64>, origins: Seq<u64>) -> Seq<u64> {
    Seq::new(
        lens.len(),
        |i: int|
            if chunks[i] <= lens[i] - origins[i] {
                chunks[i]
            } else {
                (lens[i] - origins[i]) as u64
            },
    )
}

/// Some consecutive places of an axis.
pub open spec fn sub_axis(axis: Selection, from: int, len: u64) -> Selection {
    match axis {
        Selection::Span { start, step, .. } => Selection::Span {
            start: (start + step * from) as u64,
            step,
            len,
        },
        Selection::Selected(values) => Selection::Selected(values.subrange(from, from + len)),
    }
}

/// The box of a chunk.
pub open spec fn sub_box(
    axes: Seq<Selection>,
    chunks: Seq<u64>,
    origins: Seq<u64>,
) -> Seq<Selection> {
    Seq::new(
        axes.len(),
        |i: int|
            sub_axis(
                axes[i],
                origins[i] as int,
                chunk_lens(chunks, axes_lens(axes), origins)[i],
            ),
    )
}

proof fn lemma_sub_axis(axis: Selection, dim: u64, from: int, len: u64)
    requires
        axis_fits(axis, dim),
        0 <= from,
        0 < len,
        from + len <= axis_len(axis),
    ensures
        axis_fits(sub_axis(axis, from, len), dim),
        axis_len(sub_axis(axis, from, len)) == len,
        forall|i: int|
            0 <= i < len ==> #[trigger] axis_at(sub_axis(axis, from, len), i) == axis_at(
                axis,
                from + i,
            ),
{
    let part = sub_axis(axis, from, len);
    lemma_axis_at(axis, dim, from);
    lemma_axis_at(axis, dim, from + len - 1);
    match axis {
        Selection::Span { start, step, len: all } => {
            assert(step * (from + len - 1) == step * from + step * (len - 1)) by (nonlinear_arith);
            assert forall|i: int| 0 <= i < len implies #[trigger] axis_at(part, i) == axis_at(
                axis,
                from + i,
            ) by {
                assert(step * (from + i) == step * from + step * i) by (nonlinear_arith);
            }
        },
        Selection::Selected(values) => {
            let some = values.subrange(from, from + len);
            assert forall|i: int| 0 <= i < some.len() implies #[trigger] some[i] < dim by {
                assert(values[from + i] < dim);
            }
            assert(crate::validate::each_below(some, dim));
        },
    }
}

/// The places of a chunk stand together in the row-major order.
proof fn lemma_chunk_place(
    chunks: Seq<u64>,
    lens: Seq<u64>,
    origins: Seq<u64>,
    cut: int,
    place: Seq<u64>,
)
    requires
        row_chunks(chunks, lens, cut),
        all_positive(lens),
        in_box(origins, lens),
        forall|i: int| cut < i < lens.len() ==> #[trigger] origins[i] == 0,
        in_box(place, chunk_lens(chunks, lens, origins)),
    ensures
        ({
            let to = Seq::new(lens.len(), |i: int| (origins[i] + place[i]) as u64);
            let parts = chunk_lens(chunks, lens, origins);
            &&& in_box(to, lens)
            &&& forall|i: int| 0 <= i < lens.len() ==> #[trigger] to[i] == origins[i] + place[i]
            &&& position_of(to, lens) == position_of(origins, lens) + position_of(place, parts)
        }),
{
    let parts = chunk_lens(chunks, lens, origins);
    let to = Seq::new(lens.len(), |i: int| (origins[i] + place[i]) as u64);
    assert forall|i: int| 0 <= i < lens.len() implies #[trigger] to[i] == origins[i] + place[i]
        && to[i] < lens[i] by {
        assert(place[i] < parts[i]);
        assert(origins[i] < lens[i]);
    }
    let wide = row_major_strides(lens);
    let narrow = row_major_strides(parts);
    lemma_position_weighted(to, lens);
    lemma_position_weighted(origins, lens);
    lemma_position_weighted(place, parts);
    assert forall|i: int| 0 <= i < lens.len() implies #[trigger] place[i] == 0 || narrow[i]
        == wide[i] by {
        if i < cut {
            assert(chunks[i] == 1);
            assert(place[i] < parts[i]);
        } else {
            assert(parts.skip(i + 1) =~= lens.skip(i + 1)) by {
                assert forall|j: int| i + 1 <= j < lens.len() implies parts[j] == lens[j] by {
                    assert(chunks[j] == lens[j]);
                    assert(origins[j] == 0);
                }
            }
        }
    }
    lemma_weighted_add(origins, place, to, wide);
    lemma_weighted_same(place, narrow, wide);
}

proof fn lemma_weighted_add(left: Seq<u64>, right: Seq<u64>, both: Seq<u64>, weights: Seq<int>)
    requires
        left.len() == right.len() == both.len() == weights.len(),
        forall|i: int| 0 <= i < left.len() ==> #[trigger] both[i] == left[i] + right[i],
    ensures
        weighted_sum(both, weights) == weighted_sum(left, weights) + weighted_sum(right, weights),
    decreases left.len(),
{
    if left.len() > 0 {
        assert forall|i: int| 0 <= i < left.drop_last().len() implies #[trigger] both.drop_last()[i]
            == left.drop_last()[i] + right.drop_last()[i] by {
            assert(both[i] == left[i] + right[i]);
        }
        lemma_weighted_add(
            left.drop_last(),
            right.drop_last(),
            both.drop_last(),
            weights.drop_last(),
        );
        let n = left.len() - 1;
        assert(both[n] == left[n] + right[n]);
        let a = left.last() as int;
        let b = right.last() as int;
        let w = weights.last();
        assert((a + b) * w == a * w + b * w) by (nonlinear_arith);
    }
}

proof fn lemma_weighted_same(coord: Seq<u64>, some: Seq<int>, other: Seq<int>)
    requires
        coord.len() == some.len() == other.len(),
        forall|i: int| 0 <= i < coord.len() ==> #[trigger] coord[i] == 0 || some[i] == other[i],
    ensures
        weighted_sum(coord, some) == weighted_sum(coord, other),
    decreases coord.len(),
{
    if coord.len() > 0 {
        assert forall|i: int| 0 <= i < coord.drop_last().len() implies
            #[trigger] coord.drop_last()[i] == 0 || some.drop_last()[i] == other.drop_last()[i] by {
            assert(coord[i] == 0 || some[i] == other[i]);
        }
        lemma_weighted_same(coord.drop_last(), some.drop_last(), other.drop_last());
        let n = coord.len() - 1;
        assert(coord[n] == 0 || some[n] == other[n]);
        if coord.last() == 0 {
            assert(0 * some.last() == 0 && 0 * other.last() == 0);
        }
    }
}

/// A chunk holds the next coordinates of the selection, in order.
proof fn lemma_chunk(
    axes: Seq<Selection>,
    shape: Seq<u64>,
    chunks: Seq<u64>,
    origins: Seq<u64>,
    cut: int,
)
    requires
        axes_fit(axes, shape),
        lens_fit(axes),
        all_positive(axes_lens(axes)),
        row_chunks(chunks, axes_lens(axes), cut),
        in_box(origins, axes_lens(axes)),
        forall|i: int| cut < i < axes.len() ==> #[trigger] origins[i] == 0,
    ensures
        ({
            let part = sub_box(axes, chunks, origins);
            let from = position_of(origins, axes_lens(axes));
            &&& axes_fit(part, shape)
            &&& lens_fit(part)
            &&& axes_lens(part) == chunk_lens(chunks, axes_lens(axes), origins)
            &&& all_positive(axes_lens(part))
            &&& 0 <= from
            &&& 1 <= axes_volume(part)
            &&& from + axes_volume(part) <= axes_volume(axes)
            &&& box_coords(part) == box_coords(axes).subrange(from, from + axes_volume(part))
        }),
{
    let lens = axes_lens(axes);
    let parts = chunk_lens(chunks, lens, origins);
    let part = sub_box(axes, chunks, origins);
    let from = position_of(origins, lens);
    lemma_position_bound(origins, lens);
    assert forall|i: int| 0 <= i < axes.len() implies axis_fits(#[trigger] part[i], shape[i])
        && axis_len(part[i]) == parts[i] && parts[i] > 0 && forall|k: int|
        0 <= k < parts[i] ==> #[trigger] axis_at(part[i], k) == axis_at(axes[i], origins[i]
            + k) by {
        assert(axis_fits(axes[i], shape[i]));
        assert(axis_len(axes[i]) <= u64::MAX);
        assert(origins[i] < lens[i]);
        if i < cut {
            assert(chunks[i] == 1);
        } else if i > cut {
            assert(chunks[i] == lens[i]);
            assert(lens[i] > 0);
        }
        lemma_sub_axis(axes[i], shape[i], origins[i] as int, parts[i]);
    }
    assert(axes_lens(part) =~= parts);
    assert(all_positive(parts)) by {
        assert forall|i: int| 0 <= i < parts.len() implies #[trigger] parts[i] > 0 by {
            assert(axis_len(part[i]) == parts[i]);
        }
    }
    lemma_volume_positive(parts);
    let count = axes_volume(part);
    let all = box_coords(axes);
    let some = box_coords(part);
    assert forall|k: int| 0 <= k < count implies from + k < axes_volume(axes) && #[trigger] some[k]
        == all[from + k] by {
        lemma_coordinate_position(k, parts);
        let place = coordinate_at(k, parts);
        lemma_chunk_place(chunks, lens, origins, cut, place);
        let to = Seq::new(lens.len(), |i: int| (origins[i] + place[i]) as u64);
        lemma_position_bound(to, lens);
        lemma_position_coordinate(to, lens);
        assert(some[k] =~= all[from + k]) by {
            assert forall|i: int| 0 <= i < axes.len() implies some[k][i] == all[from + k][i] by {
                assert(axis_len(part[i]) == parts[i]);
                assert(place[i] < parts[i]);
                assert(axis_at(part[i], place[i] as int) == axis_at(
                    axes[i],
                    origins[i] + place[i],
                ));
                assert(to[i] == origins[i] + place[i]);
            }
        }
    }
    assert(some[count - 1] == all[from + (count - 1)]);
    assert(some =~= all.subrange(from, from + count));
}

/// The box of a selection that starts at a position: as many elements of the last axes as fit a
/// batch.
pub open spec fn chunk_box(axes: Seq<Selection>, from: int) -> Seq<Selection> {
    let lens = axes_lens(axes);
    sub_box(axes, greedy_blocks(lens, MAX_BATCH_ELEMENTS as int), coordinate_at(from, lens))
}

/// The requests that read a selection.
#[derive(Debug)]
pub struct SliceRequests {
    slice: Slice,
    chunks: Shape,
    origins: Coord,
    done: bool,
}

impl SliceRequests {
    pub closed spec fn spec_axes(&self) -> Seq<Selection> {
        self.slice@
    }

    pub closed spec fn spec_shape(&self) -> Seq<u64> {
        self.slice.spec_shape()
    }

    /// How many elements were requested.
    pub closed spec fn spec_position(&self) -> int {
        if self.done {
            axes_volume(self.slice@)
        } else {
            position_of(self.origins@, axes_lens(self.slice@))
        }
    }

    pub closed spec fn wf(&self) -> bool {
        let lens = axes_lens(self.slice@);
        &&& self.slice.wf()
        &&& !self.done ==> {
            &&& all_positive(lens)
            &&& in_box(self.origins@, lens)
            &&& self.chunks@ == greedy_blocks(lens, MAX_BATCH_ELEMENTS as int)
            &&& self.chunks@.len() == lens.len()
            &&& all_positive(self.chunks@)
            &&& volume(self.chunks@) <= MAX_BATCH_ELEMENTS
            &&& lens.len() == 0 || aligned(self.chunks@, lens, self.origins@)
        }
    }

    /// The box of the next chunk.
    fn chunk(&self) -> (rectangle: Cartesian)
        requires
            self.wf(),
            !self.done,
        ensures
            rectangle.wf(),
            rectangle@ == sub_box(self.slice@, self.chunks@, self.origins@),
            rectangle@ == chunk_box(self.slice@, self.spec_position()),
            axes_lens(rectangle@) == chunk_lens(
                self.chunks@,
                axes_lens(self.slice@),
                self.origins@,
            ),
            axes_fit(rectangle@, self.slice.spec_shape()),
            1 <= axes_volume(rectangle@) <= MAX_BATCH_ELEMENTS,
            self.spec_position() >= 0,
            self.spec_position() + axes_volume(rectangle@) <= axes_volume(self.slice@),
            box_coords(rectangle@) == box_coords(self.slice@).subrange(
                self.spec_position(),
                self.spec_position() + axes_volume(rectangle@),
            ),
    {
        let ghost view = self.slice@;
        let ghost lens = axes_lens(view);
        let ghost part = sub_box(view, self.chunks@, self.origins@);
        let ghost parts = chunk_lens(self.chunks@, lens, self.origins@);
        let origins = self.origins.as_slice();
        let chunks = self.chunks.as_slice();
        proof {
            if lens.len() > 0 {
                let cut = choose|cut: int|
                    #![trigger row_chunks(chunks@, lens, cut)]
                    row_chunks(chunks@, lens, cut) && zeros_behind(origins@, cut);
                assert forall|i: int| cut < i < view.len() implies #[trigger] origins@[i] == 0 by {}
                lemma_chunk(view, self.slice.spec_shape(), chunks@, origins@, cut);
            } else {
                assert(part =~= view);
                assert(parts =~= lens);
                assert(box_coords(view).subrange(0, 1) =~= box_coords(view));
                assert(volume(lens) == 1);
                assert(axes_lens(part) =~= parts);
            }
            lemma_position_coordinate(origins@, lens);
            assert forall|i: int| 0 <= i < parts.len() implies #[trigger] parts[i]
                <= chunks@[i] by {}
            lemma_volume_monotone(parts, chunks@);
        }
        let mut axes: Vec<Axis> = Vec::new();
        let mut i: usize = 0;
        while i < self.slice.axes.len()
            invariant
                i <= self.slice.axes.len(),
                self.wf(),
                !self.done,
                view == self.slice@,
                lens == axes_lens(view),
                origins@ == self.origins@,
                chunks@ == self.chunks@,
                part == sub_box(view, chunks@, origins@),
                parts == chunk_lens(chunks@, lens, origins@),
                axes_fit(part, self.slice.spec_shape()),
                axes_lens(part) == parts,
                lens_fit(part),
                axes.len() == i,
                forall|j: int| 0 <= j < i ==> (#[trigger] axes@[j])@ == part[j],
            decreases self.slice.axes.len() - i,
        {
            let axis = &self.slice.axes[i];
            proof {
                assert(view[i as int] == axis@);
                assert(axis_len(view[i as int]) <= u64::MAX);
                assert(origins@[i as int] < lens[i as int]);
                assert(axis_fits(view[i as int], self.slice.spec_shape()[i as int]));
                lemma_axis_at(
                    axis@,
                    self.slice.spec_shape()[i as int],
                    origins@[i as int] as int,
                );
            }
            let origin: u64 = origins[i];
            let left: u64 = axis.len() - origin;
            let len: u64 = smaller(chunks[i], left);
            assert(len == parts[i as int]);
            let piece = match axis {
                Axis::Span { start, step, .. } => {
                    proof {
                        vstd::arithmetic::mul::lemma_mul_nonnegative(*step as int, origin as int);
                    }
                    Axis::Span { start: *start + *step * origin, step: *step, len }
                },
                Axis::Selected(values) => {
                    assert(values.len() == values@.len());
                    Axis::Selected(
                        slice_to_vec(
                            slice_subrange(
                                values.as_slice(),
                                origin as usize,
                                (origin + len) as usize,
                            ),
                        ),
                    )
                },
            };
            assert(piece@ == part[i as int]);
            axes.push(piece);
            i += 1;
        }
        proof {
            assert(axes_of(axes@) =~= part);
            assert(lists_bounded(part)) by {
                assert forall|j: int| 0 <= j < part.len() implies ((
                #[trigger] part[j]) matches Selection::Selected(values) ==> values.len()
                    <= MAX_BATCH_ELEMENTS) by {
                    lemma_dim_below_volume(chunks@, j);
                    assert(axes_lens(part)[j] == parts[j]);
                    assert(axis_len(part[j]) <= u64::MAX);
                    assert(parts[j] <= chunks@[j]);
                }
            }
        }
        let rectangle = Cartesian::new(axes);
        assert(rectangle is Ok);
        match rectangle {
            Ok(rectangle) => rectangle,
            Err(_) => vstd::pervasive::unreached(),
        }
    }

    /// The next box of the selection, in row-major order, until all of it is requested.
    pub fn next_rectangle(&mut self) -> (rectangle: Option<Cartesian>)
        requires
            old(self).wf(),
        ensures
            final(self).wf(),
            final(self).spec_axes() == old(self).spec_axes(),
            final(self).spec_shape() == old(self).spec_shape(),
            match rectangle {
                Some(rectangle) => {
                    let from = old(self).spec_position();
                    let to = from + rectangle.spec_len();
                    &&& rectangle.wf()
                    &&& axes_fit(rectangle@, old(self).spec_shape())
                    &&& 1 <= rectangle.spec_len() <= MAX_BATCH_ELEMENTS
                    &&& 0 <= from
                    &&& to <= axes_volume(old(self).spec_axes())
                    &&& final(self).spec_position() == to
                    &&& rectangle@ == chunk_box(old(self).spec_axes(), from)
                    &&& box_coords(rectangle@) == box_coords(old(self).spec_axes()).subrange(
                        from,
                        to,
                    )
                },
                None => {
                    &&& old(self).spec_position() == axes_volume(old(self).spec_axes())
                    &&& final(self).spec_position() == old(self).spec_position()
                },
            },
    {
        if self.done {
            return None;
        }
        let ghost view = self.slice@;
        let ghost lens = axes_lens(view);
        let ghost chunks = self.chunks@;
        let ghost start = self.origins@;
        let ghost parts = chunk_lens(chunks, lens, start);
        let ghost from = position_of(start, lens);
        let rectangle = self.chunk();
        let ghost count = axes_volume(rectangle@);
        // The last coordinate of the chunk.
        let ghost last = Seq::new(lens.len(), |i: int| (start[i] + (parts[i] - 1)) as u64);
        let ghost cut = choose|cut: int|
            #![trigger row_chunks(chunks, lens, cut)]
            row_chunks(chunks, lens, cut) && zeros_behind(start, cut);
        proof {
            lemma_volume_positive(parts);
            let place = Seq::new(lens.len(), |i: int| (parts[i] - 1) as u64);
            assert forall|i: int| 0 <= i < parts.len() implies #[trigger] parts[i] > 0 by {
                assert(start[i] < lens[i]);
                assert(chunks[i] > 0);
            }
            assert(in_box(place, parts)) by {
                assert forall|i: int| 0 <= i < parts.len() implies #[trigger] place[i]
                    < parts[i] by {
                    assert(parts[i] > 0);
                }
            }
            lemma_position_bound(place, parts);
            lemma_position_coordinate(place, parts);
            assert(position_of(place, parts) == count - 1) by {
                assert forall|i: int| 0 <= i < parts.len() implies #[trigger] coordinate_at(
                    position_of(place, parts),
                    parts,
                )[i] + 1 == parts[i] by {
                    assert(parts[i] > 0);
                }
                lemma_last_coordinate(position_of(place, parts), parts);
            }
            if lens.len() > 0 {
                assert forall|i: int| cut < i < lens.len() implies #[trigger] start[i] == 0 by {}
                lemma_chunk_place(chunks, lens, start, cut, place);
                assert(last =~= Seq::new(lens.len(), |i: int| (start[i] + place[i]) as u64));
                lemma_position_coordinate(last, lens);
            }
        }
        proof {
            if lens.len() == 0 {
                assert(parts =~= lens);
            }
        }
        self.done = true;
        let mut axis: usize = self.slice.axes.len();
        while axis > 0
            invariant_except_break
                self.done,
                axis == 0 ==> from + count == volume(lens),
                forall|i: int| axis <= i < lens.len() ==> #[trigger] last[i] + 1 == lens[i],
                forall|i: int|
                    0 <= i < lens.len() ==> #[trigger] self.origins@[i] == if i < axis {
                        start[i]
                    } else {
                        0
                    },
            invariant
                self.slice.wf(),
                self.slice@ == view,
                self.slice@ == old(self).slice@,
                self.slice.spec_shape() == old(self).slice.spec_shape(),
                self.chunks@ == chunks,
                chunks == greedy_blocks(lens, MAX_BATCH_ELEMENTS as int),
                lens == axes_lens(view),
                axis <= lens.len(),
                lens.len() == self.slice.axes@.len(),
                chunks.len() == lens.len(),
                self.origins@.len() == lens.len(),
                start.len() == lens.len(),
                last.len() == lens.len(),
                parts == chunk_lens(chunks, lens, start),
                all_positive(lens),
                all_positive(chunks),
                volume(chunks) <= MAX_BATCH_ELEMENTS,
                in_box(start, lens),
                in_box(last, lens),
                forall|i: int|
                    0 <= i < lens.len() ==> #[trigger] last[i] == start[i] + (parts[i] - 1),
                lens.len() > 0 ==> row_chunks(chunks, lens, cut) && zeros_behind(start, cut),
                lens.len() > 0 ==> coordinate_at(from + count - 1, lens) == last,
                0 <= from,
                1 <= count,
                from + count <= volume(lens),
            ensures
                self.wf(),
                self.spec_position() == from + count,
            decreases axis,
        {
            axis -= 1;
            proof {
                assert(view[axis as int] == self.slice.axes@[axis as int]@);
                assert(axis_len(view[axis as int]) <= u64::MAX);
                assert(self.origins@[axis as int] == start[axis as int]);
                assert(start[axis as int] < lens[axis as int]);
                assert(last[axis as int] == start[axis as int] + (parts[axis as int] - 1));
            }
            let origin: u64 = self.origins.as_slice()[axis];
            let remaining: u64 = self.slice.axes[axis].len() - origin;
            let chunk: u64 = self.chunks.as_slice()[axis];
            if chunk < remaining {
                self.origins.set(axis, origin + chunk);
                self.done = false;
                proof {
                    lemma_next_coordinate(from + count - 1, lens, axis as int);
                    let next = carried(last, axis as int);
                    assert(self.origins@ =~= next) by {
                        assert forall|i: int| 0 <= i < lens.len() implies self.origins@[i]
                            == next[i] by {
                            assert(last[i] == start[i] + (parts[i] - 1));
                            if i < axis {
                                // An axis before the one that steps is taken one by one.
                                if i >= cut {
                                    assert(chunks[axis as int] == lens[axis as int]);
                                    assert(start[axis as int] == 0);
                                }
                                assert(chunks[i] == 1);
                                assert(chunks[i] > 0);
                            }
                        }
                    }
                    lemma_coordinate_position(from + count, lens);
                    assert(zeros_behind(self.origins@, cut)) by {
                        assert forall|i: int| cut < i < self.origins@.len() implies
                            #[trigger] self.origins@[i] == 0 by {
                            assert(start[i] == 0);
                            if i == axis {
                                assert(chunks[i] == lens[i]);
                            }
                        }
                    }
                    assert(aligned(self.chunks@, lens, self.origins@));
                }
                break ;
            }
            self.origins.set(axis, 0);
            proof {
                assert(parts[axis as int] == lens[axis as int] - start[axis as int]);
            }
            if axis == 0 {
                proof {
                    lemma_last_coordinate(from + count - 1, lens);
                }
            }
        }
        Some(rectangle)
    }

    /// The next request of the selection, in row-major order, until all of it is requested.
    pub fn next(&mut self) -> (request: Option<BatchRequest>)
        requires
            old(self).wf(),
        ensures
            final(self).wf(),
            final(self).spec_axes() == old(self).spec_axes(),
            final(self).spec_shape() == old(self).spec_shape(),
            match request {
                Some(request) => {
                    let from = old(self).spec_position();
                    let to = from + request.spec_len();
                    &&& request.wf()
                    &&& 1 <= request.spec_len() <= MAX_BATCH_ELEMENTS
                    &&& 0 <= from
                    &&& to <= axes_volume(old(self).spec_axes())
                    &&& final(self).spec_position() == to
                    &&& request@ == Requested::Rectangles(
                        seq![chunk_box(old(self).spec_axes(), from)],
                    )
                    &&& request_fits(request@, old(self).spec_shape())
                    &&& request_coords(request@, old(self).spec_shape()) == box_coords(
                        old(self).spec_axes(),
                    ).subrange(from, to)
                },
                None => {
                    &&& old(self).spec_position() == axes_volume(old(self).spec_axes())
                    &&& final(self).spec_position() == old(self).spec_position()
                },
            },
    {
        match self.next_rectangle() {
            Some(rectangle) => {
                let ghost axes = rectangle@;
                let rectangles = vec![rectangle];
                proof {
                    let boxes = boxes_of(rectangles@);
                    assert(boxes =~= seq![axes]);
                    assert(boxes.drop_last() =~= Seq::<Seq<Selection>>::empty());
                    assert(boxes_len(boxes.drop_last()) == 0);
                    assert(boxes_coords(boxes.drop_last()) =~= Seq::<Seq<u64>>::empty());
                    assert(boxes_len(boxes) == axes_volume(axes));
                    assert(boxes_coords(boxes) =~= box_coords(axes));
                    assert(boxes_fit(boxes, old(self).spec_shape()));
                }
                let request = BatchRequest::rectangles(rectangles);
                assert(request is Ok);
                match request {
                    Ok(request) => {
                        proof {
                            request.lemma_wf();
                        }
                        Some(request)
                    },
                    Err(_) => None,
                }
            },
            None => None,
        }
    }
}

/// The origins behind the axis that is cut are zero.
pub open spec fn zeros_behind(origins: Seq<u64>, cut: int) -> bool {
    forall|i: int| cut < i < origins.len() ==> #[trigger] origins[i] == 0
}

/// A chunk at these origins follows the row-major order.
pub open spec fn aligned(chunks: Seq<u64>, lens: Seq<u64>, origins: Seq<u64>) -> bool {
    exists|cut: int|
        #![trigger row_chunks(chunks, lens, cut)]
        row_chunks(chunks, lens, cut) && zeros_behind(origins, cut)
}

proof fn lemma_dim_below_volume(shape: Seq<u64>, axis: int)
    requires
        all_positive(shape),
        0 <= axis < shape.len(),
    ensures
        shape[axis] <= volume(shape),
{
    crate::geometry::lemma_volume_suffix_bound(shape, axis);
    let tail = shape.skip(axis);
    assert(tail[0] == shape[axis]);
    assert(all_positive(tail.skip(1))) by {
        assert forall|i: int| 0 <= i < tail.skip(1).len() implies #[trigger] tail.skip(1)[i]
            > 0 by {
            assert(shape[axis + 1 + i] > 0);
        }
    }
    lemma_volume_positive(tail.skip(1));
    let d = tail[0] as int;
    let v = volume(tail.skip(1));
    assert(d <= d * v) by (nonlinear_arith)
        requires
            d >= 0,
            v >= 1,
    ;
}

impl Slice {
    /// Read the selection by bounded requests, in row-major order.
    pub fn requests(self) -> (requests: SliceRequests)
        requires
            self.wf(),
        ensures
            requests.wf(),
            requests.spec_axes() == self@,
            requests.spec_shape() == self.spec_shape(),
            requests.spec_position() == 0,
    {
        let ghost lens = axes_lens(self@);
        let rank: usize = self.axes.len();
        let done = self.len == 0;
        let mut chunks: Vec<u64> = vec![1; rank];
        let origins = Shape::from_vec(vec![0; rank]);
        proof {
            lemma_volume_positive(lens);
        }
        let mut remaining: u64 = MAX_BATCH_ELEMENTS as u64;
        let mut i: usize = rank;
        if !done {
            proof {
                assert(lens.take(rank as int) =~= lens);
                assert(greedy_blocks(lens, remaining as int) + chunks@.skip(rank as int)
                    =~= greedy_blocks(lens, MAX_BATCH_ELEMENTS as int));
            }
            while i > 0
                invariant
                    i <= rank,
                    rank == self.axes.len(),
                    self.wf(),
                    lens == axes_lens(self@),
                    all_positive(lens),
                    chunks.len() == rank,
                    0 < remaining,
                    greedy_blocks(lens.take(i as int), remaining as int) + chunks@.skip(i as int)
                        == greedy_blocks(lens, MAX_BATCH_ELEMENTS as int),
                decreases i,
            {
                let ghost head = lens.take(i as int);
                let ghost before = chunks@.skip(i as int);
                i -= 1;
                proof {
                    assert(self@[i as int] == self.axes@[i as int]@);
                    assert(axis_len(self@[i as int]) <= u64::MAX);
                    assert(lens[i as int] > 0);
                }
                let chunk: u64 = smaller(self.axes[i].len(), remaining);
                chunks[i] = chunk;
                proof {
                    assert(head.last() == lens[i as int]);
                    assert(head.drop_last() =~= lens.take(i as int));
                    assert(remaining / chunk > 0) by (nonlinear_arith)
                        requires
                            0 < chunk <= remaining,
                    ;
                    assert(chunks@.skip(i as int) =~= seq![chunk] + before);
                    assert(greedy_blocks(
                        lens.take(i as int),
                        (remaining / chunk) as int,
                    ).push(chunk) + before =~= greedy_blocks(
                        lens.take(i as int),
                        (remaining / chunk) as int,
                    ) + chunks@.skip(i as int));
                }
                remaining = remaining / chunk;
            }
            proof {
                assert(greedy_blocks(lens.take(0), remaining as int) =~= Seq::<u64>::empty());
                assert(chunks@.skip(0) =~= chunks@);
                assert(chunks@ =~= greedy_blocks(lens, MAX_BATCH_ELEMENTS as int));
                greedy_blocks_fill_the_capacity(lens, MAX_BATCH_ELEMENTS as int);
                lemma_coordinate_zero(lens);
                assert(origins@ =~= coordinate_at(0, lens));
                lemma_coordinate_position(0, lens);
                if rank > 0 {
                    lemma_greedy_rows(lens, MAX_BATCH_ELEMENTS as int);
                    let cut = choose|cut: int| #[trigger] row_chunks(chunks@, lens, cut);
                    assert(zeros_behind(origins@, cut));
                    assert(aligned(chunks@, lens, origins@));
                }
            }
        }
        SliceRequests { origins, chunks: Shape::from_vec(chunks), done, slice: self }
    }
}

} // verus!
