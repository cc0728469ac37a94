//! Checks on coordinates, matrix shapes and ranges.

use vstd::prelude::*;
use vstd::slice::slice_subrange;
use vstd::string::StringExecFns;
use crate::error::{axis_message, Error, Result};
use crate::geometry::{
    advance, all_positive, coordinate_at, in_box, lemma_coordinate_position, lemma_coordinate_zero,
    lemma_volume_positive, volume,
};
use crate::inline::{AxisRange, Bound, bounds_of, Coord, Range, Shape};
use crate::schema::{
    ceil_div, checked_product, div_ceil, lemma_ceil_div, lemma_product_fits, row_major, valid_dims,
    validate_shape_dims,
};

verus! {

pub fn validate_coord(shape: &[u64], coord: &[u64]) -> (result: Result<()>)
    ensures
        in_box(coord@, shape@) ==> result is Ok,
        !in_box(coord@, shape@) ==> result matches Err(Error::InvalidCoord(_)),
{
    if coord.len() != shape.len() {
        return Err(Error::InvalidCoord("incorrect number of coordinates".to_string()));
    }
    let mut i: usize = 0;
    while i < shape.len()
        invariant
            i <= shape.len(),
            coord.len() == shape.len(),
            forall|j: int| 0 <= j < i ==> #[trigger] coord@[j] < shape@[j],
        decreases shape.len() - i,
    {
        if coord[i] >= shape[i] {
            return Err(
                Error::InvalidCoord(axis_message("coordinate at axis ", i, " is out of bounds")),
            );
        }
        i += 1;
    }
    Ok(())
}

pub fn ensure_offset_in_bounds(offset: usize, block_len: usize) -> (result: Result<()>)
    ensures
        offset < block_len ==> result is Ok,
        offset >= block_len ==> result matches Err(Error::InvalidLayout(_)),
{
    if offset < block_len {
        Ok(())
    } else {
        Err(Error::InvalidLayout("block offset out of bounds".to_string()))
    }
}

/// The shape of a matrix product: the common batch axes, the rows of the left and the columns
/// of the right.
pub open spec fn product_shape(left: Seq<u64>, right: Seq<u64>) -> Seq<u64> {
    left.drop_last().push(right.last())
}

/// Matrices of these shapes can be multiplied: the batch axes agree, and so do the columns of
/// the left with the rows of the right.
pub open spec fn conformable(left: Seq<u64>, right: Seq<u64>) -> bool {
    &&& left.len() >= 2
    &&& right.len() >= 2
    &&& left.last() == right[right.len() - 2]
    &&& left.take(left.len() - 2) == right.take(right.len() - 2)
}

/// How `Debug` writes a shape.
pub uninterp spec fn dims_listed(dims: Seq<u64>) -> Seq<char>;

/// `std::fmt`'s `{:?}` on a slice of numbers. What it writes is named, not spelled out.
#[verifier::external_body]
pub(crate) fn list_dims(dims: &[u64]) -> (text: String)
    ensures
        text@ == dims_listed(dims@),
{
    format!("{:?}", dims)
}

/// An error text that tells two shapes.
fn shapes_message(before: &str, left: &[u64], right: &[u64], after: &str) -> (text: String)
    ensures
        text@ == before@ + "left="@ + dims_listed(left@) + ", right="@ + dims_listed(right@)
            + after@,
{
    before.to_string().concat("left=").concat(list_dims(left).as_str()).concat(", right=").concat(
        list_dims(right).as_str(),
    ).concat(after)
}

pub(crate) fn same_dims(left: &[u64], right: &[u64]) -> (same: bool)
    ensures
        same == (left@ == right@),
{
    if left.len() != right.len() {
        return false;
    }
    let mut i: usize = 0;
    while i < left.len()
        invariant
            i <= left.len(),
            left.len() == right.len(),
            forall|j: int| 0 <= j < i ==> #[trigger] left@[j] == right@[j],
        decreases left.len() - i,
    {
        if left[i] != right[i] {
            return false;
        }
        i += 1;
    }
    proof {
        assert(left@ =~= right@);
    }
    true
}

pub fn matmul_output_shape(left: &[u64], right: &[u64]) -> (result: Result<Shape>)
    ensures
        result is Ok <==> {
            &&& conformable(left@, right@)
            &&& all_positive(left@) && volume(left@) <= u64::MAX
            &&& all_positive(right@) && volume(right@) <= u64::MAX
            &&& volume(product_shape(left@, right@)) <= u64::MAX
        },
        result matches Ok(shape) ==> shape@ == product_shape(left@, right@) && valid_dims(shape@),
        result matches Err(Error::InvalidSchema(_)) <==> {
            &&& left@.len() >= 2
            &&& right@.len() >= 2
            &&& !all_positive(left@) || (volume(left@) <= u64::MAX && !all_positive(right@))
        },
        result matches Err(error) ==> error is InvalidSchema || error is InvalidLayout,
{
    if left.len() < 2 || right.len() < 2 {
        return Err(
            Error::InvalidLayout(
                shapes_message(
                    "invalid dimensions for matrix multiply: ",
                    left,
                    right,
                    " (expected rank >= 2)",
                ),
            ),
        );
    }
    validate_shape_dims(left)?;
    proof {
        lemma_product_fits(left@);
    }
    if checked_product(left).is_err() {
        return Err(Error::InvalidLayout("matrix input size overflow".to_string()));
    }
    validate_shape_dims(right)?;
    proof {
        lemma_product_fits(right@);
    }
    if checked_product(right).is_err() {
        return Err(Error::InvalidLayout("matrix input size overflow".to_string()));
    }
    let l_rank: usize = left.len();
    let r_rank: usize = right.len();
    let l_inner: u64 = left[l_rank - 1];
    let r_inner: u64 = right[r_rank - 2];
    if l_inner != r_inner {
        let reason = " (inner dimensions ".to_string().concat(l_inner.to_string().as_str()).concat(
            " and ",
        ).concat(r_inner.to_string().as_str()).concat(" do not match)");
        return Err(
            Error::InvalidLayout(
                shapes_message(
                    "invalid dimensions for matrix multiply: ",
                    left,
                    right,
                    reason.as_str(),
                ),
            ),
        );
    }
    let l_batch = slice_subrange(left, 0, l_rank - 2);
    let r_batch = slice_subrange(right, 0, r_rank - 2);
    if !same_dims(l_batch, r_batch) {
        return Err(
            Error::InvalidLayout(
                shapes_message(
                    "invalid batch dimensions for matrix multiply: ",
                    left,
                    right,
                    "",
                ),
            ),
        );
    }
    let mut shape = Shape::from_slice(l_batch);
    shape.push(left[l_rank - 2]);
    shape.push(right[r_rank - 1]);
    proof {
        assert(shape@ =~= product_shape(left@, right@));
        assert forall|i: int| 0 <= i < shape@.len() implies #[trigger] shape@[i] > 0 by {
            if i < l_rank - 1 {
                assert(left@[i] > 0);
            } else {
                assert(right@[r_rank - 1] > 0);
            }
        }
        lemma_product_fits(shape@);
    }
    if checked_product(shape.as_slice()).is_err() {
        return Err(Error::InvalidLayout("matrix output size overflow".to_string()));
    }
    Ok(shape)
}

/// Every index is below the dimension.
pub open spec fn each_below(indices: Seq<u64>, dim: u64) -> bool {
    forall|i: int| 0 <= i < indices.len() ==> #[trigger] indices[i] < dim
}

/// The bound lies within the dimension.
pub open spec fn bound_fits(bound: Bound, dim: u64) -> bool {
    match bound {
        Bound::At(index) => index < dim,
        Bound::In(start, stop, step) => step > 0 && start <= stop <= dim,
        Bound::Of(indices) => each_below(indices, dim),
    }
}

/// How many indices a bound selects.
pub open spec fn bound_len(bound: Bound) -> int {
    match bound {
        Bound::At(_) => 1,
        Bound::In(start, stop, step) => ceil_div(stop - start, step as int),
        Bound::Of(indices) => indices.len() as int,
    }
}

/// The index that a bound selects at a place.
pub open spec fn bound_at(bound: Bound, place: int) -> int {
    match bound {
        Bound::At(index) => index as int,
        Bound::In(start, _, step) => start + place * step,
        Bound::Of(indices) => indices[place] as int,
    }
}

/// Each bound of the range lies within its dimension.
pub open spec fn range_fits(range: Seq<Bound>, shape: Seq<u64>) -> bool {
    &&& range.len() == shape.len()
    &&& forall|i: int| 0 <= i < shape.len() ==> bound_fits(#[trigger] range[i], shape[i])
}

/// How many indices each bound selects.
pub open spec fn range_lens(range: Seq<Bound>) -> Seq<u64> {
    Seq::new(range.len(), |i: int| bound_len(range[i]) as u64)
}

/// How many coordinates a range selects.
pub open spec fn range_volume(range: Seq<Bound>) -> int {
    volume(range_lens(range))
}

/// The coordinate that stands at the given places of the bounds.
pub open spec fn range_select(range: Seq<Bound>, places: Seq<u64>) -> Seq<u64> {
    Seq::new(range.len(), |i: int| bound_at(range[i], places[i] as int) as u64)
}

/// The coordinates that a range selects, the last axis fastest.
pub open spec fn range_coords(range: Seq<Bound>) -> Seq<Seq<u64>> {
    Seq::new(
        range_volume(range) as nat,
        |k: int| range_select(range, coordinate_at(k, range_lens(range))),
    )
}

/// Every place of a bound that fits is an index below the dimension.
pub proof fn lemma_bound_at(bound: Bound, dim: u64, place: int)
    requires
        bound_fits(bound, dim),
        0 <= place < bound_len(bound),
    ensures
        0 <= bound_at(bound, place) < dim,
        bound matches Bound::In(_, stop, step) ==> bound_at(bound, place) < stop && place * step
            <= u64::MAX,
{
    if let Bound::In(start, stop, step) = bound {
        let n = stop - start;
        lemma_ceil_div(n, step as int);
        let q = ceil_div(n, step as int);
        assert(place * step <= (q - 1) * step && 0 <= place * step) by (nonlinear_arith)
            requires
                0 <= place <= q - 1,
                step > 0,
        ;
    }
}

pub proof fn lemma_bound_len(bound: Bound, dim: u64)
    requires
        bound_fits(bound, dim),
        bound matches Bound::Of(indices) ==> indices.len() <= u64::MAX,
    ensures
        0 <= bound_len(bound) <= u64::MAX,
        !(bound is Of) ==> bound_len(bound) <= dim,
{
    if let Bound::In(start, stop, step) = bound {
        lemma_ceil_div(stop - start, step as int);
    }
}

/// Whatever a range selects lies in the box that the range was checked against.
pub proof fn selected_coordinates_lie_in_the_shape(range: Seq<Bound>, shape: Seq<u64>, k: int)
    requires
        range_fits(range, shape),
        forall|i: int| 0 <= i < range.len() ==> bound_len(#[trigger] range[i]) <= u64::MAX,
        0 <= k < range_volume(range),
    ensures
        in_box(range_coords(range)[k], shape),
{
    let lens = range_lens(range);
    assert forall|i: int| 0 <= i < range.len() implies 0 <= bound_len(#[trigger] range[i])
        <= u64::MAX by {
        lemma_bound_len(range[i], shape[i]);
    }
    lemma_volume_positive(lens);
    lemma_coordinate_position(k, lens);
    let places = coordinate_at(k, lens);
    let coord = range_coords(range)[k];
    assert forall|i: int| 0 <= i < shape.len() implies #[trigger] coord[i] < shape[i] by {
        assert(places[i] < lens[i]);
        assert(bound_fits(range[i], shape[i]));
        lemma_bound_at(range[i], shape[i], places[i] as int);
    }
}

/// How many indices a bound selects, if it lies within the dimension.
fn count(bound: &AxisRange, dim: u64) -> (len: Option<u64>)
    ensures
        len is Some <==> bound_fits(bound@, dim),
        len matches Some(len) ==> len == bound_len(bound@),
{
    match bound {
        AxisRange::At(index) => if *index < dim {
            Some(1)
        } else {
            None
        },
        AxisRange::In(start, stop, step) => if *step > 0 && *start <= *stop && *stop <= dim {
            Some(div_ceil(*stop - *start, *step))
        } else {
            None
        },
        AxisRange::Of(indices) => if all_below(indices.as_slice(), dim) {
            Some(indices.len() as u64)
        } else {
            None
        },
    }
}

/// The index that a bound selects at a place.
fn pick(bound: &AxisRange, place: u64) -> (index: u64)
    requires
        exists|dim: u64| #[trigger] bound_fits(bound@, dim),
        place < bound_len(bound@),
    ensures
        index == bound_at(bound@, place as int),
{
    proof {
        let dim = choose|dim: u64| #[trigger] bound_fits(bound@, dim);
        lemma_bound_at(bound@, dim, place as int);
    }
    match bound {
        AxisRange::At(index) => *index,
        AxisRange::In(start, _, step) => *start + place * *step,
        AxisRange::Of(indices) => {
            assert(indices.len() == indices@.len());
            indices[place as usize]
        },
    }
}

/// A walk over the coordinates that a range selects, without listing them.
pub struct RangeCoords {
    range: Range,
    lengths: Shape,
    coord: Coord,
    remaining: u64,
}

impl RangeCoords {
    pub closed spec fn spec_range(&self) -> Seq<Bound> {
        self.range@
    }

    /// How many coordinates are left.
    pub closed spec fn spec_remaining(&self) -> int {
        self.remaining as int
    }

    /// How many coordinates were handed out.
    pub open spec fn position(&self) -> int {
        range_volume(self.spec_range()) - self.spec_remaining()
    }

    pub closed spec fn wf(&self) -> bool {
        &&& self.lengths@ == range_lens(self.range@)
        &&& 0 <= self.remaining <= range_volume(self.range@)
        &&& exists|shape: Seq<u64>| #[trigger] range_fits(self.range@, shape)
        &&& forall|i: int|
            0 <= i < self.range@.len() ==> bound_len(#[trigger] self.range@[i]) <= u64::MAX
        &&& self.remaining > 0 ==> {
            &&& all_positive(self.lengths@)
            &&& self.coord@ == coordinate_at(self.position(), self.lengths@)
        }
    }

    pub proof fn lemma_position(&self)
        requires
            self.wf(),
        ensures
            0 <= self.position() <= range_volume(self.spec_range()),
            range_coords(self.spec_range()).len() == range_volume(self.spec_range()),
    {
    }

    /// How many coordinates are left, known without visiting them.
    pub fn remaining(&self) -> (remaining: u64)
        ensures
            remaining == self.spec_remaining(),
    {
        self.remaining
    }

    /// The next coordinate, until none is left.
    pub fn next(&mut self) -> (coord: Option<Vec<u64>>)
        requires
            old(self).wf(),
        ensures
            final(self).wf(),
            final(self).spec_range() == old(self).spec_range(),
            match coord {
                Some(coord) => {
                    &&& 0 <= old(self).position() < range_volume(old(self).spec_range())
                    &&& coord@ == range_coords(old(self).spec_range())[old(self).position()]
                    &&& final(self).spec_remaining() == old(self).spec_remaining() - 1
                },
                None => {
                    &&& old(self).spec_remaining() == 0
                    &&& final(self).spec_remaining() == 0
                },
            },
    {
        if self.remaining == 0 {
            return None;
        }
        let ghost k = self.position();
        let ghost shape = choose|shape: Seq<u64>| #[trigger] range_fits(self.range@, shape);
        proof {
            lemma_coordinate_position(k, self.lengths@);
        }
        let bounds = self.range.as_slice();
        let places = self.coord.as_slice();
        let mut out: Vec<u64> = Vec::new();
        let mut i: usize = 0;
        while i < bounds.len()
            invariant
                i <= bounds.len(),
                bounds.len() == places.len(),
                bounds_of(bounds@) == self.range@,
                range_fits(self.range@, shape),
                in_box(places@, self.lengths@),
                self.lengths@ == range_lens(self.range@),
                forall|j: int|
                    0 <= j < self.range@.len() ==> bound_len(#[trigger] self.range@[j]) <= u64::MAX,
                out.len() == i,
                forall|j: int|
                    0 <= j < i ==> #[trigger] out@[j] == bound_at(
                        self.range@[j],
                        places@[j] as int,
                    ) as u64,
            decreases bounds.len() - i,
        {
            proof {
                let bound = self.range@[i as int];
                assert(bound == bounds@[i as int]@);
                assert(bound_fits(self.range@[i as int], shape[i as int]));
                lemma_bound_len(bound, shape[i as int]);
                assert(places@[i as int] < self.lengths@[i as int]);
                lemma_bound_at(bound, shape[i as int], places@[i as int] as int);
            }
            out.push(pick(&bounds[i], places[i]));
            i += 1;
        }
        proof {
            assert(out@ =~= range_coords(self.range@)[k]);
        }
        self.remaining = self.remaining - 1;
        if self.remaining > 0 {
            advance(&mut self.coord, self.lengths.as_slice());
        }
        Some(out)
    }
}

/// Check a range against a shape, and walk over what it selects.
pub fn iter_range_coords(shape: &[u64], range: &Range) -> (result: Result<RangeCoords>)
    ensures
        result is Ok <==> {
            &&& range_fits(range@, shape@)
            &&& range_volume(range@) <= u64::MAX
        },
        result matches Ok(walk) ==> walk.wf() && walk.spec_range() == range@ && walk.spec_remaining()
            == range_volume(range@),
        result matches Err(error) ==> error is InvalidLayout,
{
    let bounds = range.as_slice();
    if bounds.len() != shape.len() {
        return Err(Error::InvalidLayout("range rank must match tensor rank".to_string()));
    }
    let mut lengths: Vec<u64> = Vec::new();
    let mut empty = false;
    let mut axis: usize = 0;
    while axis < bounds.len()
        invariant
            axis <= bounds.len(),
            bounds.len() == shape.len(),
            bounds_of(bounds@) == range@,
            lengths.len() == axis,
            forall|j: int| 0 <= j < axis ==> bound_fits(#[trigger] range@[j], shape@[j]),
            forall|j: int| 0 <= j < axis ==> bound_len(#[trigger] range@[j]) <= u64::MAX,
            forall|j: int| 0 <= j < axis ==> #[trigger] lengths@[j] == bound_len(range@[j]),
            !empty <==> all_positive(lengths@),
        decreases bounds.len() - axis,
    {
        let dim: u64 = shape[axis];
        assert(range@[axis as int] == bounds@[axis as int]@);
        match count(&bounds[axis], dim) {
            Some(len) => {
                let ghost before = lengths@;
                lengths.push(len);
                proof {
                    assert(all_positive(lengths@) <==> all_positive(before) && len > 0) by {
                        assert(lengths@[axis as int] == len);
                        assert(forall|j: int| 0 <= j < axis ==> #[trigger] lengths@[j] == before[j]);
                        if all_positive(before) && len > 0 {
                            assert forall|j: int| 0 <= j < lengths@.len() implies
                                #[trigger] lengths@[j] > 0 by {
                                if j < axis {
                                    assert(before[j] > 0);
                                }
                            }
                        }
                        if all_positive(lengths@) {
                            assert forall|j: int| 0 <= j < before.len() implies #[trigger] before[j]
                                > 0 by {
                                assert(lengths@[j] > 0);
                            }
                        }
                    }
                }
                empty = empty || len == 0;
            },
            None => {
                return Err(
                    Error::InvalidLayout(
                        axis_message("range bound at axis ", axis, " is out of bounds"),
                    ),
                );
            },
        }
        axis += 1;
    }
    proof {
        assert(lengths@ =~= range_lens(range@));
        lemma_volume_positive(lengths@);
        if !empty {
            lemma_product_fits(lengths@);
        }
    }
    let remaining: u64 = if empty {
        0
    } else {
        match checked_product(lengths.as_slice()) {
            Ok(total) => total,
            Err(_) => {
                return Err(Error::InvalidLayout("range size overflow".to_string()));
            },
        }
    };
    let coord = Shape::from_vec(vec![0; bounds.len()]);
    proof {
        assert(range_fits(range@, shape@));
        if remaining > 0 {
            lemma_coordinate_zero(lengths@);
            assert(coord@ =~= coordinate_at(0, lengths@));
        }
    }
    Ok(RangeCoords { range: range.clone(), lengths: Shape::from_vec(lengths), coord, remaining })
}

pub(crate) fn all_below(indices: &[u64], dim: u64) -> (below: bool)
    ensures
        below == each_below(indices@, dim),
{
    let mut i: usize = 0;
    while i < indices.len()
        invariant
            i <= indices.len(),
            forall|j: int| 0 <= j < i ==> #[trigger] indices@[j] < dim,
        decreases indices.len() - i,
    {
        if indices[i] >= dim {
            return false;
        }
        i += 1;
    }
    true
}

/// The range that selects every coordinate of a shape.
pub open spec fn full_bounds(shape: Seq<u64>) -> Seq<Bound> {
    Seq::new(shape.len(), |i: int| Bound::In(0, shape[i], 1))
}

pub fn full_range(shape: &[u64]) -> (range: Range)
    ensures
        range@ == full_bounds(shape@),
{
    let mut bounds: Vec<AxisRange> = Vec::new();
    let mut i: usize = 0;
    while i < shape.len()
        invariant
            i <= shape.len(),
            bounds.len() == i,
            forall|j: int|
                0 <= j < i ==> (#[trigger] bounds@[j])@ == Bound::In(0, shape@[j], 1),
        decreases shape.len() - i,
    {
        bounds.push(AxisRange::In(0, shape[i], 1));
        i += 1;
    }
    proof {
        assert(bounds_of(bounds@) =~= full_bounds(shape@));
    }
    Range::from_vec(bounds)
}

/// The full range selects what a row-major walk visits, in the same order.
pub proof fn full_range_is_the_row_major_walk(shape: Seq<u64>)
    requires
        valid_dims(shape),
    ensures
        range_fits(full_bounds(shape), shape),
        range_coords(full_bounds(shape)) == row_major(shape),
{
    let range = full_bounds(shape);
    assert forall|i: int| 0 <= i < shape.len() implies bound_len(#[trigger] range[i])
        == shape[i] by {
        assert(shape[i] as int % 1 == 0);
        assert(shape[i] as int / 1 == shape[i]);
    }
    assert(range_lens(range) =~= shape);
    lemma_volume_positive(shape);
    assert forall|k: int| 0 <= k < volume(shape) implies #[trigger] range_coords(range)[k]
        == row_major(shape)[k] by {
        lemma_coordinate_position(k, shape);
        let places = coordinate_at(k, shape);
        assert forall|i: int| 0 <= i < shape.len() implies bound_at(
            #[trigger] range[i],
            places[i] as int,
        ) == places[i] by {
            assert(places[i] * 1 == places[i]);
        }
        assert(range_coords(range)[k] =~= places);
    }
    assert(range_coords(range) =~= row_major(shape));
}

} // verus!
