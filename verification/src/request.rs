//! Compact, bounded requests for coordinates. Coordinates are listed only for callers that
//! need them one by one; cursors reuse one rank-sized buffer.

use vstd::prelude::*;
use vstd::arithmetic::div_mod::{lemma_fundamental_div_mod, lemma_mod_bound};
use vstd::arithmetic::mul::lemma_mul_is_commutative;
use vstd::slice::slice_to_vec;
use vstd::string::StringExecFns;
use crate::error::{Error, Result, shows};
use crate::expression::MAX_BATCH_ELEMENTS;
use crate::geometry::{
    all_positive, coordinate_at, in_box, lemma_coordinate_last, lemma_coordinate_len,
    lemma_coordinate_position, lemma_position_bound, lemma_position_coordinate,
    lemma_volume_positive, lemma_volume_push, position_of, volume,
};
use crate::inline::{Coord, Shape};
use crate::matmul_plan::TILE_SIDE;
use crate::schema::{
    ceil_div, checked_product, div_ceil, lemma_ceil_div, lemma_product_fits, product_fits,
    row_major, row_major_coords, RowMajorCoords, valid_dims, validate_shape_dims,
};
use crate::validate::{each_below, validate_coord};

verus! {

/// The coordinate at a row-major position, into a buffer that is used again.
pub fn decode_flat(flat: u64, shape: &[u64], out: &mut Coord) -> (result: Result<()>)
    ensures
        result is Ok <==> all_positive(shape@) && flat < volume(shape@),
        result is Ok ==> final(out)@ == coordinate_at(flat as int, shape@),
        result matches Err(Error::InvalidSchema(_)) <==> !all_positive(shape@),
        result matches Err(error) ==> error is InvalidSchema || error is InvalidCoord,
{
    let mut rest: u64 = flat;
    out.resize(shape.len(), 0);
    let mut i: usize = shape.len();
    proof {
        assert(shape@.take(i as int) =~= shape@);
        assert(coordinate_at(rest as int, shape@) + out@.skip(i as int) =~= coordinate_at(
            flat as int,
            shape@,
        )) by {
            lemma_coordinate_len(flat as int, shape@);
        }
    }
    while i > 0
        invariant
            i <= shape.len(),
            out@.len() == shape.len(),
            forall|j: int| i <= j < shape.len() ==> #[trigger] shape@[j] > 0,
            all_positive(shape@.take(i as int)) ==> (flat < volume(shape@) <==> rest < volume(
                shape@.take(i as int),
            )),
            all_positive(shape@.take(i as int)) && flat < volume(shape@) ==> coordinate_at(
                rest as int,
                shape@.take(i as int),
            ) + out@.skip(i as int) == coordinate_at(flat as int, shape@),
        decreases i,
    {
        let ghost head = shape@.take(i as int);
        let ghost tail = out@.skip(i as int);
        i -= 1;
        let dim: u64 = shape[i];
        if dim == 0 {
            return Err(Error::InvalidSchema("zero dimension in coordinate decoding".to_string()));
        }
        out.set(i, rest % dim);
        proof {
            let init = shape@.take(i as int);
            assert(head =~= init.push(dim));
            assert(head.drop_last() =~= init);
            assert(head.last() == dim);
            lemma_volume_push(init, dim);
            let q = rest as int / dim as int;
            let r = rest as int % dim as int;
            lemma_fundamental_div_mod(rest as int, dim as int);
            lemma_mod_bound(rest as int, dim as int);
            if all_positive(init) {
                assert(all_positive(head)) by {
                    assert forall|j: int| 0 <= j < head.len() implies #[trigger] head[j] > 0 by {
                        if j < i {
                            assert(init[j] > 0);
                        }
                    }
                }
                assert(rest < volume(head) <==> q < volume(init)) by (nonlinear_arith)
                    requires
                        rest == dim * q + r,
                        0 <= r < dim,
                        volume(head) == volume(init) * dim,
                ;
                if flat < volume(shape@) {
                    lemma_coordinate_last(rest as int, head);
                    assert(out@.skip(i as int) =~= seq![r as u64] + tail);
                    assert(coordinate_at(q, init).push(r as u64) + tail =~= coordinate_at(q, init)
                        + out@.skip(i as int));
                }
            }
        }
        rest = rest / dim;
    }
    proof {
        assert(all_positive(shape@));
        assert(all_positive(shape@.take(0)));
        assert(volume(shape@.take(0)) == 1);
        assert(out@.skip(0) =~= out@);
        assert(coordinate_at(rest as int, shape@.take(0)) + out@.skip(0) =~= out@);
    }
    if rest != 0 {
        return Err(Error::InvalidCoord("flat coordinate out of bounds".to_string()));
    }
    Ok(())
}

/// The parts of a span of positions that lie in one row each, in order: where the part starts
/// in the tensor and in the span, and how long it is.
pub struct LinearSegments {
    start: u64,
    len: usize,
    width: u64,
    done: usize,
}

impl LinearSegments {
    pub closed spec fn spec_start(&self) -> int {
        self.start as int
    }

    pub closed spec fn spec_len(&self) -> int {
        self.len as int
    }

    pub closed spec fn spec_width(&self) -> int {
        self.width as int
    }

    /// How much of the span was handed out.
    pub closed spec fn spec_done(&self) -> int {
        self.done as int
    }

    pub open spec fn wf(&self) -> bool {
        &&& self.spec_width() > 0
        &&& 0 <= self.spec_done() <= self.spec_len()
        &&& self.spec_start() + self.spec_len() <= u64::MAX
    }

    /// The same span, whatever was handed out of it.
    pub open spec fn same_span(&self, other: &Self) -> bool {
        &&& self.spec_start() == other.spec_start()
        &&& self.spec_len() == other.spec_len()
        &&& self.spec_width() == other.spec_width()
    }

    /// The next part: as much as the span and the row still hold.
    pub fn next(&mut self) -> (segment: Option<(u64, usize, usize)>)
        requires
            old(self).wf(),
        ensures
            final(self).wf(),
            final(self).same_span(old(self)),
            match segment {
                Some((flat, offset, count)) => {
                    let row_left = old(self).spec_width() - flat as int % old(self).spec_width();
                    &&& offset == old(self).spec_done() < old(self).spec_len()
                    &&& flat == old(self).spec_start() + offset
                    &&& count == if old(self).spec_len() - offset <= row_left {
                        old(self).spec_len() - offset
                    } else {
                        row_left
                    }
                    &&& count > 0
                    &&& final(self).spec_done() == offset + count
                },
                None => {
                    &&& old(self).spec_done() == old(self).spec_len()
                    &&& final(self).spec_done() == old(self).spec_done()
                },
            },
    {
        if self.done == self.len {
            return None;
        }
        let flat: u64 = self.start + self.done as u64;
        let left: u64 = (self.len - self.done) as u64;
        proof {
            lemma_mod_bound(flat as int, self.width as int);
        }
        let row: u64 = self.width - flat % self.width;
        let count: usize = if left <= row {
            left as usize
        } else {
            row as usize
        };
        let offset: usize = self.done;
        self.done = offset + count;
        Some((flat, offset, count))
    }
}

pub fn linear_segments(start: u64, len: usize, width: u64) -> (result: Result<LinearSegments>)
    ensures
        result is Ok <==> width > 0 && start + len <= u64::MAX,
        result matches Ok(segments) ==> {
            &&& segments.wf()
            &&& segments.spec_start() == start
            &&& segments.spec_len() == len
            &&& segments.spec_width() == width
            &&& segments.spec_done() == 0
        },
        result matches Err(error) ==> error is InvalidCoord,
{
    if width == 0 || start.checked_add(len as u64).is_none() {
        return Err(Error::InvalidCoord("invalid linear segment bounds".to_string()));
    }
    Ok(LinearSegments { start, len, width, done: 0 })
}

/// The indices that a request takes along one axis.
#[derive(Debug)]
pub enum Axis {
    Span { start: u64, step: u64, len: u64 },
    Selected(Vec<u64>),
}

/// The indices along one axis, by their contents.
pub enum Selection {
    Span { start: u64, step: u64, len: u64 },
    Selected(Seq<u64>),
}

impl View for Axis {
    type V = Selection;

    open spec fn view(&self) -> Selection {
        match *self {
            Axis::Span { start, step, len } => Selection::Span { start, step, len },
            Axis::Selected(values) => Selection::Selected(values@),
        }
    }
}

/// How many indices there are.
pub open spec fn axis_len(axis: Selection) -> int {
    match axis {
        Selection::Span { len, .. } => len as int,
        Selection::Selected(values) => values.len() as int,
    }
}

/// The index at a place.
pub open spec fn axis_at(axis: Selection, place: int) -> int {
    match axis {
        Selection::Span { start, step, .. } => start + step * place,
        Selection::Selected(values) => values[place] as int,
    }
}

/// The indices lie within the dimension. A span that holds none still starts within it, and
/// steps.
pub open spec fn axis_fits(axis: Selection, dim: u64) -> bool {
    match axis {
        Selection::Span { start, step, len } => {
            &&& step > 0
            &&& start <= dim
            &&& len > 0 ==> start + step * (len - 1) < dim
        },
        Selection::Selected(values) => each_below(values, dim),
    }
}

/// An axis that fits has all its indices below the dimension.
pub proof fn lemma_axis_at(axis: Selection, dim: u64, place: int)
    requires
        axis_fits(axis, dim),
        0 <= place < axis_len(axis),
    ensures
        0 <= axis_at(axis, place) < dim,
{
    if let Selection::Span { start, step, len } = axis {
        assert(0 <= step * place <= step * (len - 1)) by (nonlinear_arith)
            requires
                0 <= place <= len - 1,
                step > 0,
        ;
    }
}

impl Clone for Axis {
    fn clone(&self) -> (axis: Self)
        ensures
            axis@ == self@,
    {
        match self {
            Axis::Span { start, step, len } => Axis::Span { start: *start, step: *step, len: *len },
            Axis::Selected(values) => Axis::Selected(slice_to_vec(values.as_slice())),
        }
    }
}

impl Axis {
    /// Consecutive indices.
    pub fn range(start: u64, len: u64) -> (axis: Self)
        ensures
            axis@ == (Selection::Span { start, step: 1, len }),
    {
        Axis::Span { start, step: 1, len }
    }

    pub fn len(&self) -> (len: u64)
        ensures
            len == axis_len(self@),
    {
        match self {
            Axis::Span { len, .. } => *len,
            Axis::Selected(values) => values.len() as u64,
        }
    }

    pub fn at(&self, index: u64) -> (value: u64)
        requires
            index < axis_len(self@),
            axis_at(self@, index as int) <= u64::MAX,
        ensures
            value == axis_at(self@, index as int),
    {
        match self {
            Axis::Span { start, step, .. } => {
                proof {
                    lemma_mul_is_commutative(*step as int, index as int);
                    vstd::arithmetic::mul::lemma_mul_nonnegative(*step as int, index as int);
                }
                *start + *step * index
            },
            Axis::Selected(values) => {
                assert(values.len() == values@.len());
                values[index as usize]
            },
        }
    }

    /// The indices as runs of a constant step, in order.
    pub fn segments(&self) -> (segments: AxisSegments<'_>)
        ensures
            segments.spec_axis() == self@,
            segments.spec_done() == 0,
            segments.wf(),
    {
        AxisSegments { axis: self, done: 0 }
    }

    pub fn validate(&self, dim: u64) -> (result: Result<()>)
        ensures
            axis_fits(self@, dim) ==> result is Ok,
            !axis_fits(self@, dim) ==> result matches Err(Error::InvalidCoord(_)),
    {
        match self {
            Axis::Span { start, step, len } => {
                if *step == 0 || *start > dim {
                    return Err(Error::InvalidCoord("invalid slice start or step".to_string()));
                }
                if *len > 0 {
                    let last: Option<u64> = match step.checked_mul(*len - 1) {
                        Some(span) => start.checked_add(span),
                        None => None,
                    };
                    match last {
                        Some(last) => {
                            if last >= dim {
                                return Err(
                                    Error::InvalidCoord("request axis out of bounds".to_string()),
                                );
                            }
                        },
                        None => {
                            return Err(Error::InvalidCoord("request axis overflow".to_string()));
                        },
                    }
                }
            },
            Axis::Selected(values) => {
                let mut i: usize = 0;
                while i < values.len()
                    invariant
                        i <= values.len(),
                        self@ == Selection::Selected(values@),
                        forall|j: int| 0 <= j < i ==> #[trigger] values@[j] < dim,
                    decreases values.len() - i,
                {
                    if values[i] >= dim {
                        assert(!each_below(values@, dim));
                        return Err(
                            Error::InvalidCoord("request selection out of bounds".to_string()),
                        );
                    }
                    i += 1;
                }
                assert(each_below(values@, dim));
            },
        }
        Ok(())
    }
}

/// Where a run of a constant step ends in a list, from a place of it on.
pub open spec fn run_end(values: Seq<u64>, step: int, end: int) -> int
    decreases values.len() - end,
{
    if 0 < end < values.len() && values[end] - values[end - 1] == step {
        run_end(values, step, end + 1)
    } else {
        end
    }
}

/// The run of a constant step that starts at a place of an axis: its step and its length. A span is
/// one run. Of a list, the step is the one to the next index, or zero behind the last one.
pub open spec fn segment_at(axis: Selection, place: int) -> (int, int) {
    match axis {
        Selection::Span { step, len, .. } => (step as int, len as int),
        Selection::Selected(values) => {
            let step = if place + 1 < values.len() {
                values[place + 1] - values[place]
            } else {
                0
            };
            (step, run_end(values, step, place + 1) - place)
        },
    }
}

/// The indices of one axis, cut into runs of a constant step.
pub struct AxisSegments<'a> {
    axis: &'a Axis,
    done: u64,
}

impl<'a> AxisSegments<'a> {
    pub closed spec fn spec_axis(&self) -> Selection {
        self.axis@
    }

    /// How many indices were handed out.
    pub closed spec fn spec_done(&self) -> int {
        self.done as int
    }

    /// A span is handed out whole or not yet at all.
    pub open spec fn wf(&self) -> bool {
        &&& 0 <= self.spec_done() <= axis_len(self.spec_axis())
        &&& self.spec_axis() is Span ==> self.spec_done() == 0 || self.spec_done() == axis_len(
            self.spec_axis(),
        )
    }

    /// The next run: its first index, its step and its length. It is as long as the step
    /// stays the same.
    pub fn next(&mut self) -> (segment: Option<(u64, i128, u64)>)
        requires
            old(self).wf(),
        ensures
            final(self).wf(),
            final(self).spec_axis() == old(self).spec_axis(),
            match segment {
                Some((start, step, len)) => {
                    let axis = old(self).spec_axis();
                    let done = old(self).spec_done();
                    &&& done < axis_len(axis)
                    &&& 0 < len <= axis_len(axis) - done
                    &&& final(self).spec_done() == done + len
                    &&& -(u64::MAX as int) <= step <= u64::MAX
                    &&& segment_at(axis, done) == (step as int, len as int)
                    &&& forall|i: int|
                        0 <= i < len ==> #[trigger] axis_at(axis, done + i) == start + step * i
                    &&& axis matches Selection::Span { start: first, step: stride, len: all }
                        ==> start == first && step == stride && len == all
                    &&& axis is Selected ==> {
                        &&& done + 1 == axis_len(axis) ==> step == 0
                        &&& done + 1 < axis_len(axis) ==> len >= 2
                        &&& done + len < axis_len(axis) ==> axis_at(axis, done + len) != start
                            + step * len
                    }
                },
                None => {
                    &&& old(self).spec_done() == axis_len(old(self).spec_axis())
                    &&& final(self).spec_done() == old(self).spec_done()
                },
            },
    {
        let i: u64 = self.done;
        if i == self.axis.len() {
            return None;
        }
        match self.axis {
            Axis::Span { start, step, len } => {
                self.done = *len;
                proof {
                    assert forall|k: int| 0 <= k < *len implies #[trigger] axis_at(
                        self.axis@,
                        i + k,
                    ) == *start + *step * k by {}
                }
                Some((*start, *step as i128, *len))
            },
            Axis::Selected(values) => {
                let n: u64 = values.len() as u64;
                let ghost axis = self.axis@;
                let start: u64 = values[i as usize];
                let step: i128 = if i + 1 < n {
                    values[(i + 1) as usize] as i128 - start as i128
                } else {
                    0
                };
                let mut end: u64 = i + 1;
                proof {
                    assert forall|k: int| 0 <= k < end - i implies #[trigger] axis_at(axis, i + k)
                        == start + step * k by {
                        assert(k == 0);
                        assert(step * 0 == 0);
                    }
                }
                while end < n && values[end as usize] as i128 - values[(end - 1) as usize] as i128
                    == step
                    invariant
                        axis == Selection::Selected(values@),
                        n == values@.len(),
                        n == values.len(),
                        i < end <= n,
                        start == values@[i as int],
                        step == if i + 1 < n {
                            values@[i + 1] - start
                        } else {
                            0
                        },
                        end == i + 1 && end < n ==> values@[end as int] - values@[end - 1] == step,
                        run_end(values@, step as int, end as int) == run_end(
                            values@,
                            step as int,
                            i + 1,
                        ),
                        forall|k: int|
                            0 <= k < end - i ==> #[trigger] axis_at(axis, i + k) == start + step
                                * k,
                    decreases n - end,
                {
                    proof {
                        let k = end - i;
                        assert(axis_at(axis, i + (k - 1)) == start + step * (k - 1));
                        assert(step * k == step * (k - 1) + step) by (nonlinear_arith);
                    }
                    end += 1;
                }
                let len: u64 = end - i;
                proof {
                    if end < n {
                        let k = end - i;
                        assert(axis_at(axis, i + (k - 1)) == start + step * (k - 1));
                        assert(step * k == step * (k - 1) + step) by (nonlinear_arith);
                    }
                }
                self.done = end;
                Some((start, step, len))
            },
        }
    }
}

/// The contents of a list of axes.
pub open spec fn axes_of(axes: Seq<Axis>) -> Seq<Selection> {
    Seq::new(axes.len(), |i: int| axes[i]@)
}

/// How many indices each axis takes.
pub open spec fn axes_lens(axes: Seq<Selection>) -> Seq<u64> {
    Seq::new(axes.len(), |i: int| axis_len(axes[i]) as u64)
}

/// How many coordinates the axes span together.
pub open spec fn axes_volume(axes: Seq<Selection>) -> int {
    volume(axes_lens(axes))
}

/// The coordinate that stands at the given places of the axes.
pub open spec fn axes_select(axes: Seq<Selection>, places: Seq<u64>) -> Seq<u64> {
    Seq::new(axes.len(), |i: int| axis_at(axes[i], places[i] as int) as u64)
}

/// The coordinates that the axes span, the last axis fastest.
pub open spec fn box_coords(axes: Seq<Selection>) -> Seq<Seq<u64>> {
    Seq::new(
        axes_volume(axes) as nat,
        |k: int| axes_select(axes, coordinate_at(k, axes_lens(axes))),
    )
}

/// Each axis lies within its dimension.
pub open spec fn axes_fit(axes: Seq<Selection>, shape: Seq<u64>) -> bool {
    &&& axes.len() == shape.len()
    &&& forall|i: int| 0 <= i < shape.len() ==> axis_fits(#[trigger] axes[i], shape[i])
}

/// No axis takes more indices than a `u64` counts.
pub open spec fn lens_fit(axes: Seq<Selection>) -> bool {
    forall|i: int| 0 <= i < axes.len() ==> axis_len(#[trigger] axes[i]) <= u64::MAX
}

/// No list of indices is longer than a batch.
pub open spec fn lists_bounded(axes: Seq<Selection>) -> bool {
    forall|i: int|
        0 <= i < axes.len() ==> ((#[trigger] axes[i]) matches Selection::Selected(values)
            ==> values.len() <= MAX_BATCH_ELEMENTS)
}

/// Coordinates that axes span within a shape lie in that shape.
pub proof fn lemma_box_coord(axes: Seq<Selection>, shape: Seq<u64>, k: int)
    requires
        axes_fit(axes, shape),
        lens_fit(axes),
        0 <= k < axes_volume(axes),
    ensures
        all_positive(axes_lens(axes)),
        in_box(coordinate_at(k, axes_lens(axes)), axes_lens(axes)),
        in_box(box_coords(axes)[k], shape),
        forall|i: int|
            0 <= i < axes.len() ==> axis_at(
                #[trigger] axes[i],
                coordinate_at(k, axes_lens(axes))[i] as int,
            ) == box_coords(axes)[k][i],
{
    let lens = axes_lens(axes);
    lemma_volume_positive(lens);
    lemma_coordinate_position(k, lens);
    let places = coordinate_at(k, lens);
    let coord = box_coords(axes)[k];
    assert forall|i: int| 0 <= i < axes.len() implies axis_at(#[trigger] axes[i], places[i] as int)
        == coord[i] && coord[i] < shape[i] by {
        assert(places[i] < lens[i]);
        assert(axis_len(axes[i]) <= u64::MAX);
        assert(axis_fits(axes[i], shape[i]));
        assert(0 <= axis_len(axes[i]));
        lemma_axis_at(axes[i], shape[i], places[i] as int);
    }
    assert forall|i: int| 0 <= i < shape.len() implies #[trigger] coord[i] < shape[i] by {
        assert(axis_at(axes[i], places[i] as int) == coord[i]);
    }
}

/// An error text that tells the bound of a batch and a length beyond it.
fn at_most(context: &str, len: usize) -> (text: String)
    ensures
        exists|most: Seq<char>, got: Seq<char>| #[trigger]
            shows(MAX_BATCH_ELEMENTS, most) && #[trigger] shows(len, got) && text@ == context@
                + ": expected at most "@ + most + " elements, got "@ + got,
{
    let most = MAX_BATCH_ELEMENTS.to_string();
    let got = len.to_string();
    assert(shows(MAX_BATCH_ELEMENTS, most@));
    assert(shows(len, got@));
    context.to_string().concat(": expected at most ").concat(most.as_str()).concat(
        " elements, got ",
    ).concat(got.as_str())
}

fn bound(len: usize) -> (result: Result<()>)
    ensures
        len <= MAX_BATCH_ELEMENTS ==> result is Ok,
        len > MAX_BATCH_ELEMENTS ==> result matches Err(Error::InvalidLayout(_)),
{
    if len > MAX_BATCH_ELEMENTS {
        return Err(Error::InvalidLayout(at_most("coordinate batch", len)));
    }
    Ok(())
}

/// A box of coordinates, described by its axes and small enough for a batch.
#[derive(Debug)]
pub struct Cartesian {
    axes: Vec<Axis>,
    len: usize,
}

impl View for Cartesian {
    type V = Seq<Selection>;

    closed spec fn view(&self) -> Seq<Selection> {
        axes_of(self.axes@)
    }
}

impl Cartesian {
    pub closed spec fn spec_len(&self) -> int {
        self.len as int
    }

    pub open spec fn wf(&self) -> bool {
        &&& self.spec_len() == axes_volume(self@)
        &&& self.spec_len() <= MAX_BATCH_ELEMENTS
        &&& lists_bounded(self@)
        &&& lens_fit(self@)
    }

    pub fn new(axes: Vec<Axis>) -> (result: Result<Self>)
        ensures
            result is Ok <==> lists_bounded(axes_of(axes@)) && axes_volume(axes_of(axes@))
                <= MAX_BATCH_ELEMENTS,
            result matches Ok(rectangle) ==> rectangle.wf() && rectangle@ == axes_of(axes@),
            result matches Err(error) ==> error is InvalidLayout,
    {
        let ghost view = axes_of(axes@);
        let mut lens: Vec<u64> = Vec::new();
        let mut empty = false;
        let mut i: usize = 0;
        while i < axes.len()
            invariant
                i <= axes.len(),
                view == axes_of(axes@),
                lens.len() == i,
                forall|j: int|
                    0 <= j < i ==> ((#[trigger] view[j]) matches Selection::Selected(values)
                        ==> values.len() <= MAX_BATCH_ELEMENTS),
                forall|j: int| 0 <= j < i ==> axis_len(#[trigger] view[j]) <= u64::MAX,
                forall|j: int| 0 <= j < i ==> #[trigger] lens@[j] == axis_len(view[j]) as u64,
                empty <==> exists|j: int| 0 <= j < i && #[trigger] lens@[j] == 0,
            decreases axes.len() - i,
        {
            assert(view[i as int] == axes@[i as int]@);
            if let Axis::Selected(values) = &axes[i] {
                bound(values.len())?;
            }
            let len: u64 = axes[i].len();
            let ghost before = lens@;
            lens.push(len);
            proof {
                assert(forall|j: int| 0 <= j < i ==> #[trigger] lens@[j] == before[j]);
                assert(lens@[i as int] == len);
                if len == 0 || empty {
                    if empty {
                        let j = choose|j: int| 0 <= j < i && #[trigger] before[j] == 0;
                        assert(lens@[j] == 0);
                    }
                }
            }
            empty = empty || len == 0;
            i += 1;
        }
        proof {
            assert(lens@ =~= axes_lens(view));
            lemma_volume_positive(lens@);
            if !empty {
                lemma_product_fits(lens@);
            }
        }
        let len: u64 = if empty {
            0
        } else {
            match checked_product(lens.as_slice()) {
                Ok(len) => len,
                Err(_) => {
                    return Err(Error::InvalidLayout("request cardinality overflow".to_string()));
                },
            }
        };
        if len > usize::MAX as u64 {
            return Err(Error::InvalidLayout("request cardinality exceeds usize".to_string()));
        }
        let len: usize = len as usize;
        bound(len)?;
        Ok(Cartesian { axes, len })
    }

    pub fn axes(&self) -> (axes: &[Axis])
        ensures
            axes_of(axes@) == self@,
    {
        self.axes.as_slice()
    }

    pub fn len(&self) -> (len: usize)
        ensures
            len == self.spec_len(),
    {
        self.len
    }

    pub fn validate(&self, shape: &[u64]) -> (result: Result<()>)
        ensures
            axes_fit(self@, shape@) ==> result is Ok,
            !axes_fit(self@, shape@) ==> result matches Err(Error::InvalidCoord(_)),
    {
        if self.axes.len() != shape.len() {
            return Err(Error::InvalidCoord("request rank mismatch".to_string()));
        }
        let mut i: usize = 0;
        while i < shape.len()
            invariant
                i <= shape.len(),
                shape.len() == self.axes.len(),
                forall|j: int| 0 <= j < i ==> axis_fits(#[trigger] self@[j], shape@[j]),
            decreases shape.len() - i,
        {
            assert(self@[i as int] == self.axes@[i as int]@);
            self.axes[i].validate(shape[i])?;
            i += 1;
        }
        Ok(())
    }

    /// The coordinate at a place of the box, into a buffer that is used again.
    pub fn coordinate(&self, index: usize, out: &mut Coord)
        requires
            self.wf(),
            index < self.spec_len(),
            exists|shape: Seq<u64>| #[trigger] axes_fit(self@, shape),
        ensures
            final(out)@ == box_coords(self@)[index as int],
    {
        let ghost shape = choose|shape: Seq<u64>| #[trigger] axes_fit(self@, shape);
        let ghost lens = axes_lens(self@);
        let mut rest: usize = index;
        out.resize(self.axes.len(), 0);
        let mut i: usize = self.axes.len();
        let ghost places = coordinate_at(index as int, lens);
        proof {
            lemma_box_coord(self@, shape, index as int);
            assert(lens.take(i as int) =~= lens);
            assert(places.take(i as int) =~= places);
        }
        while i > 0
            invariant
                i <= self.axes.len(),
                self.wf(),
                axes_fit(self@, shape),
                lens == axes_lens(self@),
                0 <= index < axes_volume(self@),
                all_positive(lens),
                places == coordinate_at(index as int, lens),
                in_box(places, lens),
                out@.len() == self.axes.len(),
                0 <= rest < volume(lens.take(i as int)),
                coordinate_at(rest as int, lens.take(i as int)) == places.take(i as int),
                forall|j: int|
                    i <= j < self.axes.len() ==> #[trigger] out@[j] == axis_at(
                        self@[j],
                        places[j] as int,
                    ) as u64,
            decreases i,
        {
            let ghost head = lens.take(i as int);
            i -= 1;
            let axis = &self.axes[i];
            let len: u64 = axis.len();
            proof {
                assert(self@[i as int] == axis@);
                assert(lens[i as int] == len);
                assert(axis_fits(self@[i as int], shape[i as int]));
                assert(head =~= lens.take(i as int).push(len));
                assert(head.drop_last() =~= lens.take(i as int));
                assert(all_positive(head)) by {
                    assert forall|j: int| 0 <= j < head.len() implies #[trigger] head[j] > 0 by {
                        assert(lens[j] > 0);
                    }
                }
                lemma_coordinate_last(rest as int, head);
                let split = coordinate_at(rest as int / len as int, lens.take(i as int)).push(
                    (rest as int % len as int) as u64,
                );
                lemma_coordinate_len(rest as int / len as int, lens.take(i as int));
                lemma_mod_bound(rest as int, len as int);
                assert(split == places.take(i + 1));
                assert(places.take(i + 1)[i as int] == places[i as int]);
                assert(split[i as int] == (rest as int % len as int) as u64);
                assert(places[i as int] == rest as int % len as int);
                assert(coordinate_at(rest as int / len as int, lens.take(i as int))
                    =~= places.take(i as int)) by {
                    assert forall|j: int| 0 <= j < i implies #[trigger] coordinate_at(
                        rest as int / len as int,
                        lens.take(i as int),
                    )[j] == places[j] by {
                        assert(split[j] == places.take(i + 1)[j]);
                    }
                }
                lemma_axis_at(axis@, shape[i as int], places[i as int] as int);
            }
            out.set(i, axis.at(rest as u64 % len));
            rest = (rest as u64 / len) as usize;
        }
        proof {
            assert(out@ =~= box_coords(self@)[index as int]);
        }
    }
}

impl Clone for Cartesian {
    fn clone(&self) -> (rectangle: Self)
        ensures
            rectangle@ == self@,
            rectangle.spec_len() == self.spec_len(),
    {
        let axes = copy_axes(self.axes.as_slice());
        Cartesian { axes, len: self.len }
    }
}

/// The same axes once more.
pub(crate) fn copy_axes(axes: &[Axis]) -> (copy: Vec<Axis>)
    ensures
        axes_of(copy@) == axes_of(axes@),
        copy@.len() == axes@.len(),
{
    let mut copy: Vec<Axis> = Vec::new();
    let mut i: usize = 0;
    while i < axes.len()
        invariant
            i <= axes.len(),
            copy.len() == i,
            forall|j: int| 0 <= j < i ==> (#[trigger] copy@[j])@ == axes@[j]@,
        decreases axes.len() - i,
    {
        copy.push(axes[i].clone());
        i += 1;
    }
    proof {
        assert(axes_of(copy@) =~= axes_of(axes@));
    }
    copy
}

/// How a request names its coordinates.
#[derive(Debug)]
pub enum RequestKind {
    Linear { start: u64 },
    Rectangles(Vec<Cartesian>),
    Explicit(Vec<Vec<u64>>),
}

/// A request, by its contents.
pub enum Requested {
    Linear { start: u64, len: nat },
    Rectangles(Seq<Seq<Selection>>),
    Explicit(Seq<Seq<u64>>),
}

/// The contents of a list of boxes.
pub open spec fn boxes_of(rectangles: Seq<Cartesian>) -> Seq<Seq<Selection>> {
    Seq::new(rectangles.len(), |i: int| rectangles[i]@)
}

/// The contents of a list of coordinates.
pub open spec fn coords_of(coords: Seq<Vec<u64>>) -> Seq<Seq<u64>> {
    Seq::new(coords.len(), |i: int| coords[i]@)
}

/// How many coordinates the boxes hold together.
pub open spec fn boxes_len(boxes: Seq<Seq<Selection>>) -> int
    decreases boxes.len(),
{
    if boxes.len() == 0 {
        0
    } else {
        boxes_len(boxes.drop_last()) + axes_volume(boxes.last())
    }
}

/// The coordinates of the boxes, one box after the other.
pub open spec fn boxes_coords(boxes: Seq<Seq<Selection>>) -> Seq<Seq<u64>>
    decreases boxes.len(),
{
    if boxes.len() == 0 {
        Seq::empty()
    } else {
        boxes_coords(boxes.drop_last()) + box_coords(boxes.last())
    }
}

/// How many coordinates a request names.
pub open spec fn request_len(request: Requested) -> int {
    match request {
        Requested::Linear { len, .. } => len as int,
        Requested::Rectangles(boxes) => boxes_len(boxes),
        Requested::Explicit(coords) => coords.len() as int,
    }
}

/// The coordinates that a request names, in order, on a tensor of a shape.
pub open spec fn request_coords(request: Requested, shape: Seq<u64>) -> Seq<Seq<u64>> {
    match request {
        Requested::Linear { start, len } => Seq::new(len, |i: int| coordinate_at(start + i, shape)),
        Requested::Rectangles(boxes) => boxes_coords(boxes),
        Requested::Explicit(coords) => coords,
    }
}

/// Each box lies within the shape.
pub open spec fn boxes_fit(boxes: Seq<Seq<Selection>>, shape: Seq<u64>) -> bool {
    forall|i: int| 0 <= i < boxes.len() ==> axes_fit(#[trigger] boxes[i], shape)
}

/// Each coordinate lies within the shape.
pub open spec fn coords_fit(coords: Seq<Seq<u64>>, shape: Seq<u64>) -> bool {
    forall|i: int| 0 <= i < coords.len() ==> in_box(#[trigger] coords[i], shape)
}

/// Every coordinate that the request names, and every axis it is described by, lies within
/// the shape.
pub open spec fn request_fits(request: Requested, shape: Seq<u64>) -> bool {
    match request {
        Requested::Linear { start, len } => product_fits(shape) && start + len <= volume(shape),
        Requested::Rectangles(boxes) => boxes_fit(boxes, shape),
        Requested::Explicit(coords) => coords_fit(coords, shape),
    }
}

pub proof fn lemma_boxes_len(boxes: Seq<Seq<Selection>>)
    ensures
        0 <= boxes_len(boxes),
        boxes_coords(boxes).len() == boxes_len(boxes),
    decreases boxes.len(),
{
    if boxes.len() > 0 {
        lemma_boxes_len(boxes.drop_last());
        lemma_volume_positive(axes_lens(boxes.last()));
    }
}

/// The boxes before one hold no more than all of them.
pub proof fn lemma_boxes_prefix(boxes: Seq<Seq<Selection>>, r: int)
    requires
        0 <= r < boxes.len(),
    ensures
        boxes_len(boxes.take(r + 1)) == boxes_len(boxes.take(r)) + axes_volume(boxes[r]),
        0 <= boxes_len(boxes.take(r)),
        boxes_len(boxes.take(r + 1)) <= boxes_len(boxes),
    decreases boxes.len(),
{
    assert(boxes.take(r + 1).drop_last() =~= boxes.take(r));
    assert(boxes.take(r + 1).last() == boxes[r]);
    lemma_boxes_len(boxes.take(r));
    if r + 1 == boxes.len() {
        assert(boxes.take(r + 1) =~= boxes);
    } else {
        lemma_boxes_prefix(boxes.drop_last(), r);
        assert(boxes.drop_last().take(r + 1) =~= boxes.take(r + 1));
        lemma_volume_positive(axes_lens(boxes.last()));
    }
}

/// The coordinates of each box stand together, behind those of the boxes before it.
pub proof fn lemma_boxes_index(boxes: Seq<Seq<Selection>>, r: int, local: int)
    requires
        0 <= r < boxes.len(),
        0 <= local < axes_volume(boxes[r]),
    ensures
        0 <= boxes_len(boxes.take(r)) + local < boxes_len(boxes),
        boxes_coords(boxes)[boxes_len(boxes.take(r)) + local] == box_coords(boxes[r])[local],
    decreases boxes.len(),
{
    lemma_boxes_prefix(boxes, r);
    lemma_boxes_len(boxes);
    lemma_boxes_len(boxes.drop_last());
    if r + 1 == boxes.len() {
        assert(boxes.take(r) =~= boxes.drop_last());
    } else {
        lemma_boxes_index(boxes.drop_last(), r, local);
        assert(boxes.drop_last().take(r) =~= boxes.take(r));
    }
}

/// No coordinate of a request that fits lies outside the shape.
pub proof fn requested_coordinates_lie_in_the_shape(
    request: Requested,
    shape: Seq<u64>,
    i: int,
)
    requires
        request_fits(request, shape),
        request matches Requested::Rectangles(boxes) ==> forall|r: int|
            0 <= r < boxes.len() ==> lens_fit(#[trigger] boxes[r]),
        0 <= i < request_len(request),
    ensures
        request_coords(request, shape).len() == request_len(request),
        in_box(request_coords(request, shape)[i], shape),
{
    match request {
        Requested::Linear { start, len } => {
            lemma_volume_positive(shape);
            lemma_coordinate_position(start + i, shape);
        },
        Requested::Rectangles(boxes) => {
            lemma_boxes_fit(boxes, shape, i);
        },
        Requested::Explicit(coords) => {},
    }
}

pub proof fn lemma_boxes_fit(boxes: Seq<Seq<Selection>>, shape: Seq<u64>, i: int)
    requires
        forall|r: int| 0 <= r < boxes.len() ==> axes_fit(#[trigger] boxes[r], shape),
        forall|r: int| 0 <= r < boxes.len() ==> lens_fit(#[trigger] boxes[r]),
        0 <= i < boxes_len(boxes),
    ensures
        boxes_coords(boxes).len() == boxes_len(boxes),
        in_box(boxes_coords(boxes)[i], shape),
    decreases boxes.len(),
{
    lemma_boxes_len(boxes);
    if boxes.len() > 0 {
        let init = boxes.drop_last();
        lemma_boxes_len(init);
        if i < boxes_len(init) {
            assert forall|r: int| 0 <= r < init.len() implies axes_fit(#[trigger] init[r], shape)
                && lens_fit(init[r]) by {
                assert(axes_fit(boxes[r], shape));
            }
            lemma_boxes_fit(init, shape, i);
        } else {
            assert(axes_fit(boxes[boxes.len() - 1], shape));
            lemma_box_coord(boxes.last(), shape, i - boxes_len(init));
        }
    }
}

/// A bounded request for the elements at some coordinates.
#[derive(Debug)]
pub struct BatchRequest {
    kind: RequestKind,
    len: usize,
}

impl View for BatchRequest {
    type V = Requested;

    closed spec fn view(&self) -> Requested {
        match self.kind {
            RequestKind::Linear { start } => Requested::Linear { start, len: self.len as nat },
            RequestKind::Rectangles(rectangles) => Requested::Rectangles(boxes_of(rectangles@)),
            RequestKind::Explicit(coords) => Requested::Explicit(coords_of(coords@)),
        }
    }
}

impl BatchRequest {
    pub closed spec fn spec_len(&self) -> int {
        self.len as int
    }

    /// The request is within the bound of a batch, and so is its description.
    pub closed spec fn wf(&self) -> bool {
        &&& self.len == request_len(self@)
        &&& self.len <= MAX_BATCH_ELEMENTS
        &&& match self.kind {
            RequestKind::Linear { start } => start + self.len <= u64::MAX,
            RequestKind::Rectangles(rectangles) => {
                &&& rectangles@.len() <= MAX_BATCH_ELEMENTS
                &&& forall|i: int| 0 <= i < rectangles@.len() ==> (#[trigger] rectangles@[i]).wf()
            },
            RequestKind::Explicit(coords) => true,
        }
    }

    pub proof fn lemma_wf(&self)
        requires
            self.wf(),
        ensures
            0 <= self.spec_len() <= MAX_BATCH_ELEMENTS,
            self.spec_len() == request_len(self@),
            self@ matches Requested::Linear { start, len } ==> start + len <= u64::MAX,
            self@ matches Requested::Rectangles(boxes) ==> boxes.len() <= MAX_BATCH_ELEMENTS
                && forall|r: int|
                0 <= r < boxes.len() ==> lens_fit(#[trigger] boxes[r]) && lists_bounded(boxes[r])
                    && axes_volume(boxes[r]) <= MAX_BATCH_ELEMENTS,
    {
        if let RequestKind::Rectangles(rectangles) = self.kind {
            let boxes = boxes_of(rectangles@);
            assert forall|r: int| 0 <= r < boxes.len() implies lens_fit(#[trigger] boxes[r])
                && lists_bounded(boxes[r]) && axes_volume(boxes[r]) <= MAX_BATCH_ELEMENTS by {
                assert(rectangles@[r].wf());
            }
        }
    }

    /// Consecutive positions in row-major order.
    pub fn linear(start: u64, len: usize) -> (result: Result<Self>)
        ensures
            result is Ok <==> len <= MAX_BATCH_ELEMENTS && start + len <= u64::MAX,
            result matches Ok(request) ==> request.wf() && request@ == (Requested::Linear {
                start,
                len: len as nat,
            }),
            result matches Err(error) ==> error is InvalidLayout,
    {
        bound(len)?;
        if start.checked_add(len as u64).is_none() {
            return Err(Error::InvalidLayout("request span overflow".to_string()));
        }
        Ok(BatchRequest { kind: RequestKind::Linear { start }, len })
    }

    /// Boxes, one after the other.
    pub fn rectangles(rectangles: Vec<Cartesian>) -> (result: Result<Self>)
        requires
            forall|i: int| 0 <= i < rectangles@.len() ==> (#[trigger] rectangles@[i]).wf(),
        ensures
            result is Ok <==> rectangles@.len() <= MAX_BATCH_ELEMENTS && boxes_len(
                boxes_of(rectangles@),
            ) <= MAX_BATCH_ELEMENTS,
            result matches Ok(request) ==> request.wf() && request@ == Requested::Rectangles(
                boxes_of(rectangles@),
            ),
            result matches Err(error) ==> error is InvalidLayout,
    {
        bound(rectangles.len())?;
        let ghost boxes = boxes_of(rectangles@);
        let mut len: usize = 0;
        let mut i: usize = 0;
        proof {
            assert(boxes.take(0) =~= Seq::<Seq<Selection>>::empty());
        }
        while i < rectangles.len()
            invariant
                i <= rectangles.len() <= MAX_BATCH_ELEMENTS,
                boxes == boxes_of(rectangles@),
                forall|j: int| 0 <= j < rectangles@.len() ==> (#[trigger] rectangles@[j]).wf(),
                len == boxes_len(boxes.take(i as int)),
                len <= i * MAX_BATCH_ELEMENTS,
            decreases rectangles.len() - i,
        {
            proof {
                assert(rectangles@[i as int].wf());
                assert(boxes[i as int] == rectangles@[i as int]@);
                lemma_boxes_prefix(boxes, i as int);
            }
            len = len + rectangles[i].len();
            i += 1;
        }
        proof {
            assert(boxes.take(i as int) =~= boxes);
        }
        bound(len)?;
        Ok(BatchRequest { kind: RequestKind::Rectangles(rectangles), len })
    }

    /// Listed coordinates.
    pub fn explicit(coords: Vec<Vec<u64>>) -> (result: Result<Self>)
        ensures
            result is Ok <==> coords@.len() <= MAX_BATCH_ELEMENTS,
            result matches Ok(request) ==> request.wf() && request@ == Requested::Explicit(
                coords_of(coords@),
            ),
            result matches Err(error) ==> error is InvalidLayout,
    {
        bound(coords.len())?;
        Ok(BatchRequest { len: coords.len(), kind: RequestKind::Explicit(coords) })
    }

    /// One coordinate.
    pub fn point(coord: &[u64]) -> (request: Self)
        ensures
            request.wf(),
            request@ == Requested::Explicit(seq![coord@]),
    {
        let coords = vec![slice_to_vec(coord)];
        proof {
            assert(coords_of(coords@) =~= seq![coord@]);
        }
        BatchRequest { len: 1, kind: RequestKind::Explicit(coords) }
    }

    pub fn len(&self) -> (len: usize)
        ensures
            len == self.spec_len(),
            self.wf() ==> len == request_len(self@),
    {
        self.len
    }

    pub fn kind(&self) -> (kind: &RequestKind)
        requires
            self.wf(),
        ensures
            match *kind {
                RequestKind::Linear { start } => self@ == (Requested::Linear {
                    start,
                    len: self.spec_len() as nat,
                }),
                RequestKind::Rectangles(rectangles) => self@ == Requested::Rectangles(
                    boxes_of(rectangles@),
                ) && forall|i: int| 0 <= i < rectangles@.len() ==> (#[trigger] rectangles@[i]).wf(),
                RequestKind::Explicit(coords) => self@ == Requested::Explicit(coords_of(coords@)),
            },
    {
        &self.kind
    }

    pub fn validate(&self, shape: &[u64]) -> (result: Result<()>)
        requires
            self.wf(),
        ensures
            result is Ok <==> request_fits(self@, shape@),
            result matches Err(Error::InvalidSchema(_)) <==> self@ is Linear && !product_fits(
                shape@,
            ),
            result matches Err(error) ==> error is InvalidSchema || error is InvalidCoord,
    {
        match &self.kind {
            RequestKind::Linear { start } => {
                let total: u64 = checked_product(shape)?;
                if *start + self.len as u64 > total {
                    return Err(Error::InvalidCoord("request span out of bounds".to_string()));
                }
            },
            RequestKind::Rectangles(rectangles) => {
                let ghost boxes = boxes_of(rectangles@);
                let mut i: usize = 0;
                while i < rectangles.len()
                    invariant
                        i <= rectangles.len(),
                        boxes == boxes_of(rectangles@),
                        self@ == Requested::Rectangles(boxes),
                        forall|j: int| 0 <= j < i ==> axes_fit(#[trigger] boxes[j], shape@),
                    decreases rectangles.len() - i,
                {
                    assert(boxes[i as int] == rectangles@[i as int]@);
                    rectangles[i].validate(shape)?;
                    i += 1;
                }
                assert(boxes_fit(boxes, shape@));
            },
            RequestKind::Explicit(coords) => {
                let ghost listed = coords_of(coords@);
                let mut i: usize = 0;
                while i < coords.len()
                    invariant
                        i <= coords.len(),
                        listed == coords_of(coords@),
                        self@ == Requested::Explicit(listed),
                        forall|j: int| 0 <= j < i ==> in_box(#[trigger] listed[j], shape@),
                    decreases coords.len() - i,
                {
                    assert(listed[i as int] == coords@[i as int]@);
                    validate_coord(shape, coords[i].as_slice())?;
                    i += 1;
                }
                assert(coords_fit(listed, shape@));
            },
        }
        Ok(())
    }

    /// Walk over the coordinates, if they lie within the shape.
    pub fn cursor<'a>(&'a self, shape: &'a [u64]) -> (result: Result<Cursor<'a>>)
        requires
            self.wf(),
        ensures
            result is Ok <==> request_fits(self@, shape@),
            result matches Ok(cursor) ==> cursor.wf() && cursor.spec_request() == self@
                && cursor.spec_shape() == shape@ && cursor.spec_position() == 0,
            result matches Err(Error::InvalidSchema(_)) <==> self@ is Linear && !product_fits(
                shape@,
            ),
            result matches Err(error) ==> error is InvalidSchema || error is InvalidCoord,
    {
        self.validate(shape)?;
        proof {
            if let RequestKind::Rectangles(rectangles) = &self.kind {
                assert(boxes_of(rectangles@).take(0) =~= Seq::<Seq<Selection>>::empty());
            }
        }
        Ok(Cursor { request: self, shape, position: 0, rectangle: 0, local: 0 })
    }

    /// The coordinates of a request whose evaluation has already checked it. Listed
    /// coordinates are handed over as they are.
    pub fn into_coordinates(self, shape: &[u64]) -> (result: Result<Vec<Vec<u64>>>)
        requires
            self.wf(),
        ensures
            result is Ok <==> self@ is Explicit || request_fits(self@, shape@),
            result matches Ok(coords) ==> coords_of(coords@) == request_coords(self@, shape@),
            result matches Err(Error::InvalidSchema(_)) <==> self@ is Linear && !product_fits(
                shape@,
            ),
            result matches Err(error) ==> error is InvalidSchema || error is InvalidCoord,
    {
        match self.kind {
            RequestKind::Explicit(coords) => Ok(coords),
            kind => {
                let other = BatchRequest { kind, len: self.len };
                assert(other@ == self@);
                other.coordinates(shape)
            },
        }
    }

    /// List the coordinates.
    pub fn coordinates(&self, shape: &[u64]) -> (result: Result<Vec<Vec<u64>>>)
        requires
            self.wf(),
        ensures
            result is Ok <==> request_fits(self@, shape@),
            result matches Ok(coords) ==> coords_of(coords@) == request_coords(self@, shape@),
            result matches Err(Error::InvalidSchema(_)) <==> self@ is Linear && !product_fits(
                shape@,
            ),
            result matches Err(error) ==> error is InvalidSchema || error is InvalidCoord,
    {
        let mut cursor = self.cursor(shape)?;
        let ghost all = request_coords(self@, shape@);
        let mut scratch = Coord::new();
        let mut out: Vec<Vec<u64>> = Vec::with_capacity(self.len);
        let mut more = cursor.next_into(&mut scratch);
        while more
            invariant
                self.wf(),
                cursor.wf(),
                cursor.spec_request() == self@,
                cursor.spec_shape() == shape@,
                all == request_coords(self@, shape@),
                more ==> cursor.spec_position() == out@.len() + 1 && out@.len() < all.len()
                    && scratch@ == all[out@.len() as int],
                !more ==> out@.len() == all.len(),
                forall|j: int| 0 <= j < out@.len() ==> (#[trigger] out@[j])@ == all[j],
            decreases all.len() - out@.len(),
        {
            out.push(slice_to_vec(scratch.as_slice()));
            more = cursor.next_into(&mut scratch);
        }
        proof {
            assert(coords_of(out@) =~= all);
        }
        Ok(out)
    }
}

/// A request names as many coordinates as it counts.
pub proof fn lemma_request_len(request: Requested, shape: Seq<u64>)
    ensures
        request_coords(request, shape).len() == request_len(request),
{
    if let Requested::Rectangles(boxes) = request {
        lemma_boxes_len(boxes);
    }
}

/// A walk over the coordinates of a request.
#[derive(Debug)]
pub struct Cursor<'a> {
    request: &'a BatchRequest,
    shape: &'a [u64],
    position: usize,
    rectangle: usize,
    local: usize,
}

impl<'a> Cursor<'a> {
    pub closed spec fn spec_request(&self) -> Requested {
        self.request@
    }

    pub closed spec fn spec_shape(&self) -> Seq<u64> {
        self.shape@
    }

    /// How many coordinates were handed out.
    pub closed spec fn spec_position(&self) -> int {
        self.position as int
    }

    pub closed spec fn wf(&self) -> bool {
        &&& self.request.wf()
        &&& request_fits(self.request@, self.shape@)
        &&& self.position <= self.request.len
        &&& self.request.kind matches RequestKind::Rectangles(rectangles) ==> {
            let boxes = boxes_of(rectangles@);
            &&& self.rectangle <= boxes.len()
            &&& self.position == boxes_len(boxes.take(self.rectangle as int)) + self.local
            &&& self.rectangle < boxes.len() ==> self.local <= axes_volume(
                boxes[self.rectangle as int],
            )
            &&& self.rectangle == boxes.len() ==> self.local == 0
        }
    }

    /// The next coordinate, into a buffer that is used again, until none is left.
    pub fn next_into(&mut self, out: &mut Coord) -> (more: bool)
        requires
            old(self).wf(),
        ensures
            final(self).wf(),
            final(self).spec_request() == old(self).spec_request(),
            final(self).spec_shape() == old(self).spec_shape(),
            request_coords(old(self).spec_request(), old(self).spec_shape()).len() == request_len(
                old(self).spec_request(),
            ),
            more <==> old(self).spec_position() < request_len(old(self).spec_request()),
            more ==> {
                &&& final(self).spec_position() == old(self).spec_position() + 1
                &&& final(out)@ == request_coords(
                    old(self).spec_request(),
                    old(self).spec_shape(),
                )[old(self).spec_position()]
                &&& in_box(final(out)@, old(self).spec_shape())
            },
            !more ==> {
                &&& old(self).spec_position() == request_len(old(self).spec_request())
                &&& final(self).spec_position() == old(self).spec_position()
                &&& final(out)@ == old(out)@
            },
    {
        proof {
            if let Requested::Rectangles(boxes) = self.request@ {
                lemma_boxes_len(boxes);
            }
        }
        if self.position == self.request.len {
            return false;
        }
        let request: &BatchRequest = self.request;
        proof {
            request.lemma_wf();
            requested_coordinates_lie_in_the_shape(
                request@,
                self.shape@,
                self.position as int,
            );
        }
        match &request.kind {
            RequestKind::Linear { start } => {
                proof {
                    lemma_volume_positive(self.shape@);
                }
                let decoded = decode_flat(*start + self.position as u64, self.shape, out);
                assert(decoded is Ok);
            },
            RequestKind::Rectangles(rectangles) => {
                let ghost boxes = boxes_of(rectangles@);
                let mut rectangle: usize = self.rectangle;
                let mut local: usize = self.local;
                proof {
                    if rectangle == boxes.len() {
                        assert(boxes.take(rectangle as int) =~= boxes);
                    }
                }
                while local == rectangles[rectangle].len()
                    invariant
                        request.wf(),
                        request.kind == RequestKind::Rectangles(*rectangles),
                        boxes == boxes_of(rectangles@),
                        rectangle < boxes.len(),
                        local <= axes_volume(boxes[rectangle as int]),
                        self.position == boxes_len(boxes.take(rectangle as int)) + local,
                        self.position < boxes_len(boxes),
                    decreases boxes.len() - rectangle,
                {
                    proof {
                        assert(rectangles@[rectangle as int].wf());
                        lemma_boxes_prefix(boxes, rectangle as int);
                        if rectangle + 1 == boxes.len() {
                            assert(boxes.take(rectangle + 1) =~= boxes);
                        } else {
                            lemma_volume_positive(axes_lens(boxes[rectangle + 1]));
                        }
                    }
                    rectangle += 1;
                    local = 0;
                }
                proof {
                    assert(rectangles@[rectangle as int].wf());
                    assert(axes_fit(boxes[rectangle as int], self.shape@));
                    lemma_boxes_index(boxes, rectangle as int, local as int);
                }
                rectangles[rectangle].coordinate(local, out);
                self.rectangle = rectangle;
                self.local = local + 1;
            },
            RequestKind::Explicit(coords) => {
                out.clear();
                out.extend_from_slice(coords[self.position].as_slice());
                assert(out@ =~= coords@[self.position as int]@);
            },
        }
        self.position = self.position + 1;
        true
    }
}

/// A whole tensor as consecutive spans of positions.
pub struct LinearRequests {
    start: u64,
    total: u64,
}

impl LinearRequests {
    /// The position that comes next.
    pub closed spec fn spec_start(&self) -> int {
        self.start as int
    }

    pub closed spec fn spec_total(&self) -> int {
        self.total as int
    }

    pub open spec fn wf(&self) -> bool {
        0 <= self.spec_start() <= self.spec_total()
    }

    /// The next span, as long as a batch may be, until all positions are requested.
    pub fn next(&mut self) -> (request: Option<BatchRequest>)
        requires
            old(self).wf(),
        ensures
            final(self).wf(),
            final(self).spec_total() == old(self).spec_total(),
            match request {
                Some(request) => {
                    let left = old(self).spec_total() - old(self).spec_start();
                    let len = if left <= MAX_BATCH_ELEMENTS {
                        left
                    } else {
                        MAX_BATCH_ELEMENTS as int
                    };
                    &&& left > 0
                    &&& request.wf()
                    &&& request@ == (Requested::Linear {
                        start: old(self).spec_start() as u64,
                        len: len as nat,
                    })
                    &&& final(self).spec_start() == old(self).spec_start() + len
                },
                None => {
                    &&& old(self).spec_start() == old(self).spec_total()
                    &&& final(self).spec_start() == old(self).spec_start()
                },
            },
    {
        if self.start == self.total {
            return None;
        }
        let start: u64 = self.start;
        let left: u64 = self.total - start;
        let len: u64 = if left <= MAX_BATCH_ELEMENTS as u64 {
            left
        } else {
            MAX_BATCH_ELEMENTS as u64
        };
        self.start = start + len;
        Some(BatchRequest { kind: RequestKind::Linear { start }, len: len as usize })
    }
}

/// Request every element of a shape in row-major order.
pub fn linear_requests(shape: &[u64]) -> (result: Result<LinearRequests>)
    ensures
        result is Ok <==> valid_dims(shape@) && volume(shape@) <= u64::MAX,
        result matches Ok(requests) ==> requests.wf() && requests.spec_start() == 0
            && requests.spec_total() == volume(shape@),
        result matches Err(error) ==> error is InvalidSchema,
{
    validate_shape_dims(shape)?;
    proof {
        lemma_product_fits(shape@);
    }
    let total: u64 = checked_product(shape)?;
    Ok(LinearRequests { start: 0, total })
}

/// The spans of a tensor, put one after the other, are its row-major walk: each one names the
/// next stretch of it.
pub proof fn linear_requests_follow_the_row_major_walk(shape: Seq<u64>, start: u64, len: nat)
    requires
        valid_dims(shape),
        start + len <= volume(shape),
    ensures
        request_coords(Requested::Linear { start, len }, shape) == row_major(shape).subrange(
            start as int,
            start + len,
        ),
{
    lemma_volume_positive(shape);
    assert(request_coords(Requested::Linear { start, len }, shape) =~= row_major(shape).subrange(
        start as int,
        start + len,
    ));
}

/// The sides of a spatial tile: the last two axes are cut, the others go one by one.
pub open spec fn tile_side(rank: nat, axis: int) -> int {
    if axis + 2 >= rank {
        TILE_SIDE as int
    } else {
        1
    }
}

/// How many tiles lie along each axis.
pub open spec fn tile_grid(shape: Seq<u64>) -> Seq<u64> {
    Seq::new(
        shape.len(),
        |i: int| ceil_div(shape[i] as int, tile_side(shape.len(), i)) as u64,
    )
}

/// The box that a tile takes up: its sides, cut off at the tensor's edge.
pub open spec fn tile_box(shape: Seq<u64>, tile: Seq<u64>) -> Seq<Selection> {
    Seq::new(
        shape.len(),
        |i: int|
            {
                let side = tile_side(shape.len(), i);
                let start = tile[i] * side;
                Selection::Span {
                    start: start as u64,
                    step: 1,
                    len: (if shape[i] - start <= side {
                        shape[i] - start
                    } else {
                        side
                    }) as u64,
                }
            },
    )
}

/// The tiles from one place of the row-major walk over the grid to another.
pub open spec fn tiles(shape: Seq<u64>, from: int, to: int) -> Seq<Seq<Selection>> {
    Seq::new(
        (to - from) as nat,
        |k: int| tile_box(shape, coordinate_at(from + k, tile_grid(shape))),
    )
}

pub proof fn lemma_tile_grid(shape: Seq<u64>)
    requires
        valid_dims(shape),
    ensures
        valid_dims(tile_grid(shape)),
        forall|i: int|
            0 <= i < shape.len() ==> {
                let side = tile_side(shape.len(), i);
                let count = (#[trigger] tile_grid(shape)[i]) as int;
                &&& 0 < count <= shape[i]
                &&& (count - 1) * side < shape[i] <= count * side
            },
{
    let grid = tile_grid(shape);
    assert forall|i: int| 0 <= i < shape.len() implies {
        let side = tile_side(shape.len(), i);
        let count = (#[trigger] grid[i]) as int;
        &&& 0 < count <= shape[i]
        &&& (count - 1) * side < shape[i] <= count * side
    } by {
        assert(shape[i] > 0);
        lemma_ceil_div(shape[i] as int, tile_side(shape.len(), i));
    }
    assert forall|i: int| 0 <= i < grid.len() implies #[trigger] grid[i] > 0 by {}
}

/// A tile of the grid is a nonempty box of unit steps within the tensor, and fits a batch.
pub proof fn lemma_tile_box(shape: Seq<u64>, tile: Seq<u64>)
    requires
        valid_dims(shape),
        in_box(tile, tile_grid(shape)),
    ensures
        axes_fit(tile_box(shape, tile), shape),
        lens_fit(tile_box(shape, tile)),
        lists_bounded(tile_box(shape, tile)),
        forall|i: int|
            0 <= i < shape.len() ==> {
                let side = tile_side(shape.len(), i);
                &&& (#[trigger] tile_box(shape, tile)[i]) matches Selection::Span {
                    start,
                    step,
                    len,
                } && start == tile[i] * side && step == 1 && 0 < len <= side && len == if shape[i]
                    - start <= side {
                    shape[i] - start
                } else {
                    side
                }
            },
        1 <= axes_volume(tile_box(shape, tile)) <= TILE_SIDE * TILE_SIDE,
{
    let axes = tile_box(shape, tile);
    lemma_tile_grid(shape);
    let grid = tile_grid(shape);
    assert forall|i: int| 0 <= i < shape.len() implies {
        let side = tile_side(shape.len(), i);
        &&& (#[trigger] axes[i]) matches Selection::Span { start, step, len } && start == tile[i]
            * side && step == 1 && 0 < len <= side && len == if shape[i] - start <= side {
            shape[i] - start
        } else {
            side
        }
        &&& axis_fits(axes[i], shape[i])
    } by {
        let side = tile_side(shape.len(), i);
        let count = grid[i] as int;
        assert(tile[i] < grid[i]);
        assert(0 <= tile[i] * side <= (count - 1) * side) by (nonlinear_arith)
            requires
                0 <= tile[i] <= count - 1,
                side > 0,
        ;
    }
    let lens = axes_lens(axes);
    assert forall|i: int| 0 <= i < lens.len() implies #[trigger] lens[i] > 0 && lens[i]
        <= tile_side(shape.len(), i) by {
        assert(axes[i] is Span);
    }
    lemma_volume_positive(lens);
    lemma_tile_volume(lens, shape.len());
}

/// A box with at most a tile's side on its last two axes, and one on the others, is no larger
/// than a square tile.
proof fn lemma_tile_volume(lens: Seq<u64>, rank: nat)
    requires
        lens.len() <= rank,
        forall|i: int|
            0 <= i < lens.len() ==> 0 < #[trigger] lens[i] <= tile_side(
                rank,
                i + (rank - lens.len()),
            ),
    ensures
        1 <= volume(lens) <= TILE_SIDE * TILE_SIDE,
        lens.len() <= 1 ==> volume(lens) <= TILE_SIDE,
    decreases lens.len(),
{
    if lens.len() > 0 {
        let rest = lens.skip(1);
        assert forall|i: int| 0 <= i < rest.len() implies 0 < #[trigger] rest[i] <= tile_side(
            rank,
            i + (rank - rest.len()),
        ) by {
            assert(rest[i] == lens[i + 1]);
        }
        lemma_tile_volume(rest, rank);
        let a = lens[0] as int;
        let v = volume(rest);
        assert(lens[0] <= tile_side(rank, rank - lens.len()));
        if lens.len() > 2 {
            assert(a == 1);
            assert(a * v == v) by (nonlinear_arith)
                requires
                    a == 1,
            ;
        } else if lens.len() == 2 {
            assert(1 <= a * v <= TILE_SIDE * TILE_SIDE) by (nonlinear_arith)
                requires
                    1 <= a <= TILE_SIDE,
                    1 <= v <= TILE_SIDE,
            ;
        } else {
            assert(rest =~= Seq::<u64>::empty());
            assert(v == 1);
            assert(a * v == a) by (nonlinear_arith)
                requires
                    v == 1,
            ;
        }
    }
}

/// A whole tensor as batches of spatial tiles.
pub struct TiledRequests {
    shape: Shape,
    tiles: RowMajorCoords,
    next: Option<Vec<u64>>,
}

impl TiledRequests {
    pub closed spec fn spec_shape(&self) -> Seq<u64> {
        self.shape@
    }

    /// The place, in the walk over the grid, of the tile that comes next.
    pub closed spec fn spec_position(&self) -> int {
        if self.next is Some {
            self.tiles.position() - 1
        } else {
            self.tiles.position()
        }
    }

    pub closed spec fn wf(&self) -> bool {
        &&& valid_dims(self.shape@)
        &&& self.tiles.wf()
        &&& self.tiles.spec_shape() == tile_grid(self.shape@)
        &&& match self.next {
            Some(tile) => {
                &&& self.tiles.position() > 0
                &&& tile@ == coordinate_at(self.tiles.position() - 1, tile_grid(self.shape@))
            },
            None => self.tiles.spec_remaining() == 0,
        }
    }

    /// The box of the tile that comes next.
    fn peek(&self) -> (tile: Option<Cartesian>)
        requires
            self.wf(),
        ensures
            match tile {
                Some(tile) => {
                    &&& 0 <= self.spec_position() < volume(tile_grid(self.spec_shape()))
                    &&& tile.wf()
                    &&& tile@ == tile_box(
                        self.spec_shape(),
                        coordinate_at(self.spec_position(), tile_grid(self.spec_shape())),
                    )
                    &&& 1 <= tile.spec_len() <= TILE_SIDE * TILE_SIDE
                },
                None => self.spec_position() == volume(tile_grid(self.spec_shape())),
            },
    {
        proof {
            lemma_tile_grid(self.shape@);
            self.tiles.lemma_bounds();
        }
        let shape = self.shape.as_slice();
        let rank: usize = shape.len();
        match &self.next {
            Some(tile) => {
                let ghost box_ = tile_box(shape@, tile@);
                proof {
                    lemma_coordinate_position(self.spec_position(), tile_grid(shape@));
                    lemma_tile_box(shape@, tile@);
                }
                let mut axes: Vec<Axis> = Vec::new();
                let mut i: usize = 0;
                while i < rank
                    invariant
                        i <= rank,
                        rank == shape.len(),
                        tile@.len() == rank,
                        box_ == tile_box(shape@, tile@),
                        axes_fit(box_, shape@),
                        axes.len() == i,
                        in_box(tile@, tile_grid(shape@)),
                        valid_dims(shape@),
                        forall|j: int| 0 <= j < i ==> (#[trigger] axes@[j])@ == box_[j],
                    decreases rank - i,
                {
                    let side: u64 = if rank - i <= 2 {
                        TILE_SIDE as u64
                    } else {
                        1
                    };
                    proof {
                        lemma_tile_box(shape@, tile@);
                        assert(side == tile_side(rank as nat, i as int));
                        assert(box_[i as int] is Span);
                        assert(axis_fits(box_[i as int], shape@[i as int]));
                        assert(0 <= tile@[i as int] * side) by (nonlinear_arith)
                            requires
                                tile@[i as int] >= 0,
                                side >= 0,
                        ;
                    }
                    let start: u64 = tile[i] * side;
                    let left: u64 = shape[i] - start;
                    let len: u64 = if left <= side {
                        left
                    } else {
                        side
                    };
                    axes.push(Axis::range(start, len));
                    i += 1;
                }
                proof {
                    assert(axes_of(axes@) =~= box_);
                }
                let rectangle = Cartesian::new(axes);
                assert(rectangle is Ok);
                match rectangle {
                    Ok(rectangle) => Some(rectangle),
                    Err(_) => None,
                }
            },
            None => None,
        }
    }

    /// The next batch: as many whole tiles as fit it, until all tiles are requested.
    pub fn next(&mut self) -> (request: Option<BatchRequest>)
        requires
            old(self).wf(),
        ensures
            final(self).wf(),
            final(self).spec_shape() == old(self).spec_shape(),
            match request {
                Some(request) => {
                    let shape = old(self).spec_shape();
                    let from = old(self).spec_position();
                    let to = final(self).spec_position();
                    &&& 0 <= from < to <= volume(tile_grid(shape))
                    &&& request.wf()
                    &&& request@ == Requested::Rectangles(tiles(shape, from, to))
                    &&& to < volume(tile_grid(shape)) ==> boxes_len(tiles(shape, from, to + 1))
                        > MAX_BATCH_ELEMENTS
                },
                None => {
                    &&& old(self).spec_position() == volume(tile_grid(old(self).spec_shape()))
                    &&& final(self).spec_position() == old(self).spec_position()
                },
            },
    {
        let ghost shape = self.shape@;
        let ghost from = self.spec_position();
        let mut rectangles: Vec<Cartesian> = Vec::new();
        let mut size: usize = 0;
        let mut tile = self.peek();
        proof {
            self.tiles.lemma_bounds();
            lemma_tile_grid(shape);
            lemma_volume_positive(tile_grid(shape));
            assert(boxes_of(rectangles@) =~= tiles(shape, from, from));
        }
        loop
            invariant
                self.wf(),
                self.shape@ == shape,
                valid_dims(shape),
                0 <= from,
                rectangles@.len() == self.spec_position() - from,
                boxes_of(rectangles@) == tiles(shape, from, self.spec_position()),
                forall|j: int| 0 <= j < rectangles@.len() ==> (#[trigger] rectangles@[j]).wf(),
                size == boxes_len(boxes_of(rectangles@)),
                rectangles@.len() <= size <= MAX_BATCH_ELEMENTS,
                match tile {
                    Some(tile) => {
                        &&& self.spec_position() < volume(tile_grid(shape))
                        &&& tile.wf()
                        &&& tile@ == tile_box(
                            shape,
                            coordinate_at(self.spec_position(), tile_grid(shape)),
                        )
                        &&& 1 <= tile.spec_len() <= TILE_SIDE * TILE_SIDE
                    },
                    None => self.spec_position() == volume(tile_grid(shape)),
                },
            ensures
                rectangles@.len() == 0 ==> self.spec_position() == volume(tile_grid(shape)),
                self.spec_position() <= volume(tile_grid(shape)),
                self.spec_position() < volume(tile_grid(shape)) ==> boxes_len(
                    tiles(shape, from, self.spec_position() + 1),
                ) > MAX_BATCH_ELEMENTS,
            decreases volume(tile_grid(shape)) - self.spec_position(),
        {
            let ghost place = self.spec_position();
            let ghost before = boxes_of(rectangles@);
            match tile {
                None => {
                    break ;
                },
                Some(rectangle) => {
                    proof {
                        assert(tiles(shape, from, place + 1) =~= before.push(rectangle@));
                        assert(before.push(rectangle@).drop_last() =~= before);
                    }
                    if size + rectangle.len() > MAX_BATCH_ELEMENTS {
                        break ;
                    }
                    size = size + rectangle.len();
                    rectangles.push(rectangle);
                    proof {
                        assert(boxes_of(rectangles@) =~= before.push(rectangle@));
                    }
                    self.next = self.tiles.next();
                    tile = self.peek();
                },
            }
        }
        if rectangles.len() == 0 {
            return None;
        }
        let request = BatchRequest::rectangles(rectangles);
        assert(request is Ok);
        match request {
            Ok(request) => Some(request),
            Err(_) => None,
        }
    }
}

/// Request every element of a shape tile by tile.
pub fn tiled_requests(shape: &[u64]) -> (result: Result<TiledRequests>)
    ensures
        result is Ok <==> valid_dims(shape@) && volume(tile_grid(shape@)) <= u64::MAX,
        result matches Ok(requests) ==> requests.wf() && requests.spec_shape() == shape@
            && requests.spec_position() == 0,
        result matches Err(error) ==> error is InvalidSchema,
{
    validate_shape_dims(shape)?;
    let rank: usize = shape.len();
    let mut grid: Vec<u64> = Vec::new();
    let mut i: usize = 0;
    while i < rank
        invariant
            i <= rank,
            rank == shape.len(),
            grid.len() == i,
            forall|j: int| 0 <= j < i ==> #[trigger] grid@[j] == tile_grid(shape@)[j],
        decreases rank - i,
    {
        let side: u64 = if rank - i <= 2 {
            TILE_SIDE as u64
        } else {
            1
        };
        assert(side == tile_side(rank as nat, i as int));
        grid.push(div_ceil(shape[i], side));
        i += 1;
    }
    proof {
        assert(grid@ =~= tile_grid(shape@));
        lemma_tile_grid(shape@);
        lemma_product_fits(grid@);
        lemma_volume_positive(grid@);
    }
    let mut tiles = row_major_coords(grid.as_slice())?;
    let next = tiles.next();
    Ok(TiledRequests { shape: Shape::from_slice(shape), tiles, next })
}

/// Every axis is a span of consecutive indices.
pub open spec fn unit_steps(axes: Seq<Selection>) -> bool {
    forall|i: int|
        0 <= i < axes.len() ==> ((#[trigger] axes[i]) matches Selection::Span { step, .. } && step
            == 1)
}

/// The component lies in the span.
pub open spec fn within(axis: Selection, value: u64) -> bool {
    axis matches Selection::Span { start, step, len } && start <= value < start + len
}

/// A box of consecutive indices holds exactly the coordinates between its bounds, each once.
pub proof fn lemma_unit_box(axes: Seq<Selection>, shape: Seq<u64>, coord: Seq<u64>)
    requires
        axes_fit(axes, shape),
        lens_fit(axes),
        unit_steps(axes),
    ensures
        box_coords(axes).contains(coord) <==> coord.len() == axes.len() && forall|i: int|
            0 <= i < axes.len() ==> within(#[trigger] axes[i], coord[i]),
        box_coords(axes).no_duplicates(),
{
    let lens = axes_lens(axes);
    let coords = box_coords(axes);
    lemma_volume_positive(lens);
    assert forall|k: int| 0 <= k < coords.len() implies {
        &&& (#[trigger] coords[k]).len() == axes.len()
        &&& forall|i: int| 0 <= i < axes.len() ==> within(#[trigger] axes[i], coords[k][i])
        &&& position_of(coordinate_at(k, lens), lens) == k
        &&& forall|i: int|
            0 <= i < axes.len() ==> coordinate_at(k, lens)[i] == coords[k][i] - axis_at(
                #[trigger] axes[i],
                0,
            )
    } by {
        lemma_box_coord(axes, shape, k);
        lemma_coordinate_position(k, lens);
        let places = coordinate_at(k, lens);
        assert forall|i: int| 0 <= i < axes.len() implies within(#[trigger] axes[i], coords[k][i])
            && places[i] == coords[k][i] - axis_at(axes[i], 0) by {
            assert(axis_at(axes[i], places[i] as int) == coords[k][i]);
            assert(places[i] < lens[i]);
            assert(axes[i] matches Selection::Span { step, .. } && step == 1);
            assert(1 * places[i] == places[i]);
        }
    }
    assert(coords.no_duplicates()) by {
        assert forall|k: int, l: int|
            0 <= k < coords.len() && 0 <= l < coords.len() && coords[k] == coords[l] implies k
            == l by {
            let a = coordinate_at(k, lens);
            let b = coordinate_at(l, lens);
            lemma_coordinate_len(k, lens);
            lemma_coordinate_len(l, lens);
            assert forall|i: int| 0 <= i < axes.len() implies a[i] == b[i] by {
                assert(a[i] == coords[k][i] - axis_at(axes[i], 0));
                assert(b[i] == coords[l][i] - axis_at(axes[i], 0));
            }
            assert(a =~= b);
        }
    }
    if coord.len() == axes.len() && forall|i: int|
        0 <= i < axes.len() ==> within(#[trigger] axes[i], coord[i]) {
        let places = Seq::new(axes.len(), |i: int| (coord[i] - axis_at(axes[i], 0)) as u64);
        assert(in_box(places, lens)) by {
            assert forall|i: int| 0 <= i < lens.len() implies #[trigger] places[i] < lens[i] by {
                assert(within(axes[i], coord[i]));
                assert(axis_len(axes[i]) <= u64::MAX);
            }
        }
        lemma_position_bound(places, lens);
        lemma_position_coordinate(places, lens);
        let k = position_of(places, lens);
        assert(coords[k] =~= coord) by {
            assert forall|i: int| 0 <= i < axes.len() implies coords[k][i] == coord[i] by {
                assert(within(axes[i], coord[i]));
                assert(places[i] == coord[i] - axis_at(axes[i], 0));
                assert(coordinate_at(k, lens)[i] == coords[k][i] - axis_at(axes[i], 0));
            }
        }
        assert(coords.contains(coord));
    }
}

/// The tile of the grid that holds a coordinate.
pub open spec fn tile_of(shape: Seq<u64>, coord: Seq<u64>) -> Seq<u64> {
    Seq::new(shape.len(), |i: int| (coord[i] as int / tile_side(shape.len(), i)) as u64)
}

/// The tiles divide up the tensor: every coordinate is in exactly one of them, and there
/// exactly once.
pub proof fn tiles_partition_the_shape(shape: Seq<u64>, coord: Seq<u64>, tile: Seq<u64>)
    requires
        valid_dims(shape),
        in_box(coord, shape),
        in_box(tile, tile_grid(shape)),
    ensures
        in_box(tile_of(shape, coord), tile_grid(shape)),
        box_coords(tile_box(shape, tile)).contains(coord) <==> tile == tile_of(shape, coord),
        box_coords(tile_box(shape, tile)).no_duplicates(),
{
    let grid = tile_grid(shape);
    let home = tile_of(shape, coord);
    let axes = tile_box(shape, tile);
    lemma_tile_grid(shape);
    lemma_tile_box(shape, tile);
    assert(unit_steps(axes)) by {
        assert forall|i: int| 0 <= i < axes.len() implies ((
        #[trigger] axes[i]) matches Selection::Span { step, .. } && step == 1) by {}
    }
    lemma_unit_box(axes, shape, coord);
    assert forall|i: int| 0 <= i < shape.len() implies {
        &&& #[trigger] home[i] < grid[i]
        &&& within(axes[i], coord[i]) <==> tile[i] == home[i]
    } by {
        let side = tile_side(shape.len(), i);
        let c = coord[i] as int;
        let count = grid[i] as int;
        let q = c / side;
        let t = tile[i] as int;
        lemma_fundamental_div_mod(c, side);
        lemma_mod_bound(c, side);
        assert(coord[i] < shape[i]);
        assert(0 <= q < count) by (nonlinear_arith)
            requires
                c == side * q + c % side,
                0 <= c % side < side,
                0 <= c < count * side,
        ;
        assert(t * side <= c < t * side + side <==> t == q) by (nonlinear_arith)
            requires
                c == side * q + c % side,
                0 <= c % side < side,
        ;
        assert(axes[i] is Span);
    }
    if forall|i: int| 0 <= i < axes.len() ==> within(#[trigger] axes[i], coord[i]) {
        assert(tile =~= home) by {
            assert forall|i: int| 0 <= i < shape.len() implies tile[i] == home[i] by {
                assert(within(axes[i], coord[i]));
            }
        }
    }
    if tile == home {
        assert forall|i: int| 0 <= i < axes.len() implies within(#[trigger] axes[i], coord[i]) by {
            assert(home[i] < grid[i]);
        }
    }
}

} // verus!
