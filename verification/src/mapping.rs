//! Maps from view coordinates to offsets in a tensor, and the transforms of views.

use std::sync::Arc;
use vstd::prelude::*;
use vstd::arithmetic::mul::lemma_mul_is_commutative;
use vstd::slice::slice_to_vec;
use vstd::string::StringExecFns;
use crate::error::{axis_message, Error, Result};
use crate::geometry::{
    all_positive, coordinate_at, in_box, lemma_coordinate_component, lemma_coordinate_len,
    lemma_coordinate_position, lemma_position_bound, lemma_position_coordinate,
    lemma_position_weighted, lemma_volume_positive, lemma_volume_suffix_bound, position_of,
    row_major_strides, volume, weighted_sum,
};
use crate::inline::{Axes, AxisRange, Bound, bounds_of, Coord, Range, Shape};
use crate::schema::{
    are_strides, ceil_div, checked_product, contiguous_strides, div_ceil, lemma_ceil_div,
    lemma_product_fits, product_fits, valid_dims,
};
use crate::validate::{
    all_below, bound_fits, bound_len, each_below, lemma_bound_at, range_fits, same_dims,
    validate_coord,
};

verus! {

/// The number is one that offsets are computed in.
pub open spec fn fits(value: int) -> bool {
    i128::MIN <= value <= i128::MAX
}

/// Offsets that an axis picks out of a table. Slices and reversals share the table.
#[derive(Debug)]
pub struct GatherOffsets {
    pub offsets: Arc<Vec<i128>>,
    pub start: usize,
    pub step: usize,
    pub reversed: bool,
    pub len: usize,
}

/// `Arc::clone`: another handle on the same table.
#[verifier::external_body]
fn share(offsets: &Arc<Vec<i128>>) -> (shared: Arc<Vec<i128>>)
    ensures
        shared == *offsets,
{
    Arc::clone(offsets)
}

impl From<Vec<i128>> for GatherOffsets {
    fn from(offsets: Vec<i128>) -> (gather: Self) {
        let len: usize = offsets.len();
        GatherOffsets { offsets: Arc::new(offsets), start: 0, step: 1, reversed: false, len }
    }
}

impl vstd::std_specs::convert::FromSpecImpl<Vec<i128>> for GatherOffsets {
    open spec fn obeys_from_spec() -> bool {
        true
    }

    open spec fn from_spec(offsets: Vec<i128>) -> Self {
        GatherOffsets {
            offsets: Arc::new(offsets),
            start: 0,
            step: 1,
            reversed: false,
            len: vstd::std_specs::vec::spec_vec_len(&offsets),
        }
    }
}

impl GatherOffsets {
    /// Where in the table the entry at a place stands.
    pub open spec fn place(&self, index: int) -> int {
        if self.reversed {
            self.start - index * self.step
        } else {
            self.start + index * self.step
        }
    }

    /// Every entry stands in the table.
    pub open spec fn wf(&self) -> bool {
        forall|i: int| 0 <= i < self.len ==> 0 <= #[trigger] self.place(i) < self.offsets@.len()
    }

    /// The entries in order.
    pub open spec fn entries(&self) -> Seq<i128> {
        Seq::new(self.len as nat, |i: int| self.offsets@[self.place(i)])
    }

    fn index(&self, index: usize) -> (place: Option<usize>)
        requires
            self.wf(),
        ensures
            place is Some <==> index < self.len,
            place matches Some(place) ==> place == self.place(index as int) && place
                < self.offsets@.len(),
    {
        if index >= self.len {
            return None;
        }
        proof {
            assert(0 <= self.place(index as int) < self.offsets@.len());
            assert(self.offsets.len() == self.offsets@.len());
        }
        match index.checked_mul(self.step) {
            Some(delta) => {
                if self.reversed {
                    self.start.checked_sub(delta)
                } else {
                    self.start.checked_add(delta)
                }
            },
            None => None,
        }
    }

    pub fn get(&self, index: usize) -> (offset: Option<&i128>)
        requires
            self.wf(),
        ensures
            offset is Some <==> index < self.len,
            offset matches Some(offset) ==> *offset == self.entries()[index as int],
    {
        match self.index(index) {
            Some(place) => Some(&self.offsets[place]),
            None => None,
        }
    }

    pub fn first(&self) -> (offset: Option<&i128>)
        requires
            self.wf(),
        ensures
            offset is Some <==> 0 < self.len,
            offset matches Some(offset) ==> *offset == self.entries()[0],
    {
        self.get(0)
    }

    /// Every `step`-th entry from `start` on.
    pub fn slice(&self, start: usize, step: usize, len: usize) -> (result: Result<Self>)
        requires
            self.wf(),
        ensures
            result is Ok <==> (len == 0 || start < self.len) && (len <= 1 || self.step * step
                <= usize::MAX),
            result matches Ok(slice) ==> {
                &&& slice.offsets == self.offsets
                &&& slice.len == len
                &&& forall|i: int|
                    0 <= i < len ==> #[trigger] slice.place(i) == self.place(start + i * step)
                &&& (len == 0 || start + (len - 1) * step < self.len) ==> slice.wf()
                    && slice.entries() == Seq::new(
                    len as nat,
                    |i: int| self.entries()[start + i * step],
                )
            },
            result matches Err(error) ==> error is InvalidLayout,
    {
        let from: usize = if len == 0 {
            self.start
        } else {
            match self.index(start) {
                Some(from) => from,
                None => {
                    return Err(Error::InvalidLayout("gather slice out of bounds".to_string()));
                },
            }
        };
        let by: usize = if len <= 1 {
            1
        } else {
            match self.step.checked_mul(step) {
                Some(by) => by,
                None => {
                    return Err(Error::InvalidLayout("gather stride overflow".to_string()));
                },
            }
        };
        let slice = GatherOffsets {
            offsets: share(&self.offsets),
            start: from,
            step: by,
            reversed: self.reversed,
            len,
        };
        proof {
            assert forall|i: int| 0 <= i < len implies #[trigger] slice.place(i) == self.place(
                start + i * step,
            ) by {
                if len == 1 {
                    assert(i == 0);
                    assert(0 * step == 0);
                    assert(0 * by == 0);
                } else {
                    assert(i * (self.step * step) + start * self.step == (start + i * step)
                        * self.step) by (nonlinear_arith);
                }
            }
            if len == 0 || start + (len - 1) * step < self.len {
                assert forall|i: int| 0 <= i < len implies 0 <= #[trigger] slice.place(i)
                    < slice.offsets@.len() && slice.entries()[i] == self.entries()[start + i
                    * step] by {
                    assert(0 <= i * step <= (len - 1) * step) by (nonlinear_arith)
                        requires
                            0 <= i <= len - 1,
                            step >= 0,
                    ;
                    assert(0 <= self.place(start + i * step) < self.offsets@.len());
                }
                assert(slice.entries() =~= Seq::new(
                    len as nat,
                    |i: int| self.entries()[start + i * step],
                ));
            }
        }
        Ok(slice)
    }

    /// The entries from the last to the first.
    pub fn flipped(&self) -> (flipped: Self)
        requires
            self.wf(),
        ensures
            flipped.offsets == self.offsets,
            flipped.len == self.len,
            flipped.wf(),
            flipped.entries() == self.entries().reverse(),
    {
        let start: usize = if self.len == 0 {
            self.start
        } else {
            match self.index(self.len - 1) {
                Some(start) => start,
                None => self.start,
            }
        };
        let flipped = GatherOffsets {
            offsets: share(&self.offsets),
            start,
            step: self.step,
            reversed: !self.reversed,
            len: self.len,
        };
        proof {
            assert forall|i: int| 0 <= i < self.len implies #[trigger] flipped.place(i)
                == self.place(self.len - 1 - i) by {
                assert((self.len - 1 - i) * self.step == (self.len - 1) * self.step - i * self.step)
                    by (nonlinear_arith);
            }
            assert forall|i: int| 0 <= i < self.len implies 0 <= #[trigger] flipped.place(i)
                < flipped.offsets@.len() by {
                assert(0 <= self.place(self.len - 1 - i) < self.offsets@.len());
            }
            assert(flipped.entries() =~= self.entries().reverse());
        }
        flipped
    }
}

impl Clone for GatherOffsets {
    fn clone(&self) -> (gather: Self)
        ensures
            gather == *self,
    {
        GatherOffsets {
            offsets: share(&self.offsets),
            start: self.start,
            step: self.step,
            reversed: self.reversed,
            len: self.len,
        }
    }
}

/// A table as it is handed in lists its own offsets.
pub proof fn lemma_gather_from(offsets: Vec<i128>)
    ensures
        <GatherOffsets as vstd::std_specs::convert::FromSpec<Vec<i128>>>::from_spec(offsets).wf(),
        <GatherOffsets as vstd::std_specs::convert::FromSpec<Vec<i128>>>::from_spec(
            offsets,
        ).entries() == offsets@,
{
    let gather = <GatherOffsets as vstd::std_specs::convert::FromSpec<Vec<i128>>>::from_spec(
        offsets,
    );
    assert(gather.len == offsets@.len());
    assert forall|i: int| 0 <= i < gather.len implies #[trigger] gather.place(i) == i by {
        assert(i * 1 == i);
    }
    assert(gather.entries() =~= offsets@);
}

/// Flipping a table twice gives it back.
pub proof fn flipping_a_table_twice_gives_it_back(entries: Seq<i128>)
    ensures
        entries.reverse().reverse() == entries,
{
    assert(entries.reverse().reverse() =~= entries);
}

/// What one axis of a view adds to the offset of an element.
#[derive(Debug)]
pub enum AxisContrib {
    /// The index times a stride.
    Stride(i128),
    /// The table's entry at the index.
    Gather(GatherOffsets),
    /// A constant, whatever the index.
    Broadcast(i128),
}

/// What an axis adds, by its contents.
pub enum Contribution {
    Stride(int),
    Gather(Seq<i128>),
    Broadcast(int),
}

impl View for AxisContrib {
    type V = Contribution;

    open spec fn view(&self) -> Contribution {
        match *self {
            AxisContrib::Stride(stride) => Contribution::Stride(stride as int),
            AxisContrib::Gather(gather) => Contribution::Gather(gather.entries()),
            AxisContrib::Broadcast(constant) => Contribution::Broadcast(constant as int),
        }
    }
}

impl AxisContrib {
    pub open spec fn wf(&self) -> bool {
        *self matches AxisContrib::Gather(gather) ==> gather.wf()
    }
}

impl Clone for AxisContrib {
    fn clone(&self) -> (axis: Self)
        ensures
            axis == *self,
    {
        match self {
            AxisContrib::Stride(stride) => AxisContrib::Stride(*stride),
            AxisContrib::Gather(gather) => AxisContrib::Gather(gather.clone()),
            AxisContrib::Broadcast(constant) => AxisContrib::Broadcast(*constant),
        }
    }
}

/// What an axis adds at an index.
pub open spec fn contribution(axis: Contribution, index: int) -> int {
    match axis {
        Contribution::Stride(stride) => stride * index,
        Contribution::Gather(entries) => entries[index] as int,
        Contribution::Broadcast(constant) => constant,
    }
}

/// What the axes add together at a coordinate.
pub open spec fn total(axes: Seq<Contribution>, coord: Seq<u64>) -> int
    decreases axes.len(),
{
    if axes.len() == 0 {
        0
    } else {
        total(axes.drop_last(), coord.drop_last()) + contribution(axes.last(), coord.last() as int)
    }
}

/// A map from the coordinates of a view to offsets, by its contents.
pub struct Mapping {
    pub base: int,
    pub axes: Seq<Contribution>,
    pub shape: Seq<u64>,
}

/// There is one axis per dimension, and each table has one entry per index.
pub open spec fn mapping_wf(map: Mapping) -> bool {
    &&& map.axes.len() == map.shape.len()
    &&& forall|i: int|
        0 <= i < map.axes.len() ==> axis_has_extent(#[trigger] map.axes[i], map.shape[i])
}

/// A table has one entry per index.
pub open spec fn axis_has_extent(axis: Contribution, dim: u64) -> bool {
    axis matches Contribution::Gather(entries) ==> entries.len() == dim
}

/// The offset of the element at a coordinate.
pub open spec fn offset_at(map: Mapping, coord: Seq<u64>) -> int {
    map.base + total(map.axes, coord)
}

/// The index is one that the axis has something to add for.
pub open spec fn index_known(axis: Contribution, index: u64) -> bool {
    axis matches Contribution::Gather(entries) ==> index < entries.len()
}

/// The offset can be computed, axis by axis, without leaving the range of offsets.
pub open spec fn offset_fits(map: Mapping, coord: Seq<u64>) -> bool {
    &&& coord.len() == map.axes.len()
    &&& forall|i: int|
        0 <= i < map.axes.len() ==> {
            &&& index_known(#[trigger] map.axes[i], coord[i])
            &&& fits(contribution(map.axes[i], coord[i] as int))
            &&& fits(map.base + total(map.axes.take(i + 1), coord.take(i + 1)))
        }
}

/// A map from the coordinates of a view to offsets in the tensor under it.
#[derive(Debug)]
pub struct CoordinateMap {
    pub base_offset: i128,
    pub axes: Vec<AxisContrib>,
    pub shape: Shape,
}

/// The contents of a list of axes.
pub open spec fn contributions(axes: Seq<AxisContrib>) -> Seq<Contribution> {
    Seq::new(axes.len(), |i: int| axes[i]@)
}

impl View for CoordinateMap {
    type V = Mapping;

    open spec fn view(&self) -> Mapping {
        Mapping {
            base: self.base_offset as int,
            axes: contributions(self.axes@),
            shape: self.shape@,
        }
    }
}

impl Clone for CoordinateMap {
    fn clone(&self) -> (map: Self)
        ensures
            map@ == self@,
            self.tables_wf() ==> map.tables_wf(),
            self.wf() ==> map.wf(),
    {
        let mut axes: Vec<AxisContrib> = Vec::new();
        let mut i: usize = 0;
        while i < self.axes.len()
            invariant
                i <= self.axes.len(),
                axes.len() == i,
                forall|j: int| 0 <= j < i ==> #[trigger] axes@[j] == self.axes@[j],
            decreases self.axes.len() - i,
        {
            axes.push(self.axes[i].clone());
            i += 1;
        }
        proof {
            assert(axes@ =~= self.axes@);
        }
        CoordinateMap { base_offset: self.base_offset, axes, shape: self.shape.clone() }
    }
}

/// Strides as the axes of a map.
pub open spec fn stride_axes(strides: Seq<u64>) -> Seq<Contribution> {
    Seq::new(strides.len(), |i: int| Contribution::Stride(strides[i] as int))
}

/// The map of a tensor onto itself.
pub open spec fn identity_map(shape: Seq<u64>, strides: Seq<u64>) -> Mapping {
    Mapping { base: 0, axes: stride_axes(strides), shape }
}

/// The coordinate that an offset is read off to by strides and dimensions.
pub open spec fn unravel(offset: int, shape: Seq<u64>, strides: Seq<u64>) -> Seq<u64> {
    Seq::new(
        strides.len(),
        |i: int| ((offset / strides[i] as int) % shape[i] as int) as u64,
    )
}

/// The element of the view stands in a tensor of this shape.
pub open spec fn resolves(
    map: Mapping,
    coord: Seq<u64>,
    shape: Seq<u64>,
    strides: Seq<u64>,
) -> bool {
    &&& in_box(coord, map.shape)
    &&& offset_fits(map, coord)
    &&& product_fits(shape)
    &&& 0 <= offset_at(map, coord) < volume(shape)
    &&& strides.len() == shape.len()
    &&& all_positive(strides)
}

impl CoordinateMap {
    /// Every table holds all its entries.
    pub open spec fn tables_wf(&self) -> bool {
        forall|i: int| 0 <= i < self.axes@.len() ==> (#[trigger] self.axes@[i]).wf()
    }

    pub open spec fn wf(&self) -> bool {
        &&& self.tables_wf()
        &&& mapping_wf(self@)
    }

    pub fn identity(shape: Shape, strides: &[u64]) -> (map: Self)
        ensures
            map@ == identity_map(shape@, strides@),
            map.tables_wf(),
            shape@.len() == strides@.len() ==> map.wf(),
    {
        let axes = strided(strides);
        CoordinateMap { base_offset: 0, axes, shape }
    }

    /// The map is, as it is written down, that of the tensor onto itself.
    pub fn is_identity(&self, shape: &[u64], strides: &[u64]) -> (identity: bool)
        ensures
            identity == (self@ == identity_map(shape@, strides@)),
    {
        if self.base_offset != 0 || self.axes.len() != strides.len() || !same_dims(
            self.shape.as_slice(),
            shape,
        ) {
            proof {
                assert(stride_axes(strides@).len() == strides@.len());
            }
            return false;
        }
        let mut i: usize = 0;
        while i < strides.len()
            invariant
                i <= strides.len(),
                strides.len() == self.axes.len(),
                forall|j: int|
                    0 <= j < i ==> #[trigger] contributions(self.axes@)[j] == stride_axes(
                        strides@,
                    )[j],
            decreases strides.len() - i,
        {
            let same = match &self.axes[i] {
                AxisContrib::Stride(stride) => *stride == strides[i] as i128,
                _ => false,
            };
            proof {
                assert(contributions(self.axes@)[i as int] == self.axes@[i as int]@);
                assert(stride_axes(strides@)[i as int] == Contribution::Stride(
                    strides@[i as int] as int,
                ));
            }
            if !same {
                return false;
            }
            i += 1;
        }
        proof {
            assert(contributions(self.axes@) =~= stride_axes(strides@));
        }
        true
    }

    pub fn flat_offset(&self, coord: &[u64]) -> (result: Result<i128>)
        requires
            self.tables_wf(),
        ensures
            result is Ok <==> offset_fits(self@, coord@),
            result matches Ok(offset) ==> offset == offset_at(self@, coord@),
            result matches Err(error) ==> error is InvalidCoord,
    {
        if coord.len() != self.axes.len() {
            return Err(Error::InvalidCoord("incorrect number of coordinates".to_string()));
        }
        let ghost axes = self@.axes;
        let mut offset: i128 = self.base_offset;
        let mut i: usize = 0;
        while i < coord.len()
            invariant
                i <= coord.len(),
                coord.len() == self.axes.len(),
                axes == self@.axes,
                self.tables_wf(),
                offset == self.base_offset + total(axes.take(i as int), coord@.take(i as int)),
                forall|j: int|
                    0 <= j < i ==> {
                        &&& index_known(#[trigger] axes[j], coord@[j])
                        &&& fits(contribution(axes[j], coord@[j] as int))
                        &&& fits(self.base_offset + total(axes.take(j + 1), coord@.take(j + 1)))
                    },
            decreases coord.len() - i,
        {
            let c: u64 = coord[i];
            proof {
                assert(axes[i as int] == self.axes@[i as int]@);
                assert(self.axes@[i as int].wf());
                lemma_total_take(axes, coord@, i as int);
            }
            let delta: Option<i128> = match &self.axes[i] {
                AxisContrib::Stride(stride) => {
                    proof {
                        lemma_mul_is_commutative(c as int, *stride as int);
                    }
                    (c as i128).checked_mul(*stride)
                },
                AxisContrib::Broadcast(constant) => Some(*constant),
                AxisContrib::Gather(offsets) => {
                    if c > usize::MAX as u64 {
                        return Err(Error::InvalidCoord("coord overflows usize".to_string()));
                    }
                    match offsets.get(c as usize) {
                        Some(offset) => Some(*offset),
                        None => {
                            return Err(
                                Error::InvalidCoord("coord out of bounds for gather".to_string()),
                            );
                        },
                    }
                },
            };
            let next: Option<i128> = match delta {
                Some(delta) => offset.checked_add(delta),
                None => None,
            };
            match next {
                Some(next) => {
                    offset = next;
                },
                None => {
                    return Err(Error::InvalidCoord("mapping offset overflow".to_string()));
                },
            }
            i += 1;
        }
        proof {
            assert(axes.take(i as int) =~= axes);
            assert(coord@.take(i as int) =~= coord@);
        }
        Ok(offset)
    }

    /// The coordinate, in the tensor under the view, of the element at a coordinate of the
    /// view, into a buffer that is used again.
    pub fn resolve_into(
        &self,
        coord: &[u64],
        shape: &[u64],
        strides: &[u64],
        out: &mut Coord,
    ) -> (result: Result<()>)
        requires
            self.tables_wf(),
        ensures
            result is Ok <==> resolves(self@, coord@, shape@, strides@),
            result is Ok ==> final(out)@ == unravel(offset_at(self@, coord@), shape@, strides@),
            result is Err ==> final(out)@ == old(out)@,
            result matches Err(error) ==> error is InvalidCoord,
    {
        validate_coord(self.shape.as_slice(), coord)?;
        let offset: i128 = self.flat_offset(coord)?;
        if offset < 0 || offset > u64::MAX as i128 {
            proof {
                assert(product_fits(shape@) ==> volume(shape@.take(shape@.len() as int))
                    <= u64::MAX);
                assert(shape@.take(shape@.len() as int) =~= shape@);
            }
            return Err(Error::InvalidCoord("negative linear offset".to_string()));
        }
        let offset: u64 = offset as u64;
        let size: u64 = match checked_product(shape) {
            Ok(size) => size,
            Err(_) => {
                return Err(Error::InvalidCoord("mapping size overflow".to_string()));
            },
        };
        if offset >= size || strides.len() != shape.len() || !no_zero(strides) {
            return Err(Error::InvalidCoord("mapped offset out of bounds".to_string()));
        }
        proof {
            lemma_volume_positive(shape@);
        }
        out.clear();
        let mut i: usize = 0;
        while i < strides.len()
            invariant
                i <= strides.len(),
                strides.len() == shape.len(),
                all_positive(shape@),
                all_positive(strides@),
                out@.len() == i,
                forall|j: int|
                    0 <= j < i ==> #[trigger] out@[j] == unravel(
                        offset as int,
                        shape@,
                        strides@,
                    )[j],
            decreases strides.len() - i,
        {
            out.push((offset / strides[i]) % shape[i]);
            i += 1;
        }
        proof {
            assert(out@ =~= unravel(offset as int, shape@, strides@));
        }
        Ok(())
    }

    pub fn resolve(&self, coord: &[u64], shape: &[u64], strides: &[u64]) -> (result: Result<
        Vec<u64>,
    >)
        requires
            self.tables_wf(),
        ensures
            result is Ok <==> resolves(self@, coord@, shape@, strides@),
            result matches Ok(out) ==> out@ == unravel(
                offset_at(self@, coord@),
                shape@,
                strides@,
            ),
            result matches Err(error) ==> error is InvalidCoord,
    {
        let mut out = Coord::new();
        self.resolve_into(coord, shape, strides, &mut out)?;
        Ok(slice_to_vec(out.as_slice()))
    }
}

fn strided(strides: &[u64]) -> (axes: Vec<AxisContrib>)
    ensures
        contributions(axes@) == stride_axes(strides@),
        forall|i: int| 0 <= i < axes@.len() ==> (#[trigger] axes@[i]) is Stride,
{
    let mut axes: Vec<AxisContrib> = Vec::new();
    let mut i: usize = 0;
    while i < strides.len()
        invariant
            i <= strides.len(),
            axes.len() == i,
            forall|j: int|
                0 <= j < i ==> #[trigger] axes@[j] == AxisContrib::Stride(strides@[j] as i128),
        decreases strides.len() - i,
    {
        axes.push(AxisContrib::Stride(strides[i] as i128));
        i += 1;
    }
    proof {
        assert(contributions(axes@) =~= stride_axes(strides@));
    }
    axes
}

fn no_zero(strides: &[u64]) -> (positive: bool)
    ensures
        positive == all_positive(strides@),
{
    let mut i: usize = 0;
    while i < strides.len()
        invariant
            i <= strides.len(),
            forall|j: int| 0 <= j < i ==> #[trigger] strides@[j] > 0,
        decreases strides.len() - i,
    {
        if strides[i] == 0 {
            return false;
        }
        i += 1;
    }
    true
}

pub proof fn lemma_total_take(axes: Seq<Contribution>, coord: Seq<u64>, i: int)
    requires
        0 <= i < axes.len(),
        axes.len() == coord.len(),
    ensures
        total(axes.take(i + 1), coord.take(i + 1)) == total(axes.take(i), coord.take(i))
            + contribution(axes[i], coord[i] as int),
{
    assert(axes.take(i + 1).drop_last() =~= axes.take(i));
    assert(coord.take(i + 1).drop_last() =~= coord.take(i));
}

/// Strides add up what their weighted sum does.
pub proof fn lemma_total_strides(strides: Seq<u64>, coord: Seq<u64>, weights: Seq<int>)
    requires
        strides.len() == coord.len() == weights.len(),
        forall|i: int| 0 <= i < strides.len() ==> #[trigger] weights[i] == strides[i],
    ensures
        total(stride_axes(strides), coord) == weighted_sum(coord, weights),
    decreases strides.len(),
{
    if strides.len() > 0 {
        assert(stride_axes(strides).drop_last() =~= stride_axes(strides.drop_last()));
        assert forall|i: int| 0 <= i < strides.drop_last().len() implies
            #[trigger] weights.drop_last()[i] == strides.drop_last()[i] by {
            assert(weights[i] == strides[i]);
        }
        lemma_total_strides(strides.drop_last(), coord.drop_last(), weights.drop_last());
        assert(weights.last() == strides.last());
        lemma_mul_is_commutative(strides.last() as int, coord.last() as int);
    }
}

/// Row-major strides map each coordinate to its position.
pub proof fn lemma_identity_offset(shape: Seq<u64>, strides: Seq<u64>, coord: Seq<u64>)
    requires
        are_strides(strides, shape),
        coord.len() == shape.len(),
    ensures
        offset_at(identity_map(shape, strides), coord) == position_of(coord, shape),
{
    let weights = row_major_strides(shape);
    assert forall|i: int| 0 <= i < strides.len() implies #[trigger] weights[i] == strides[i] by {}
    lemma_total_strides(strides, coord, weights);
    lemma_position_weighted(coord, shape);
}

/// An offset within a tensor is read off to the coordinate at that position.
pub proof fn lemma_unravel(offset: int, shape: Seq<u64>, strides: Seq<u64>)
    requires
        are_strides(strides, shape),
        all_positive(shape),
        0 <= offset < volume(shape),
    ensures
        unravel(offset, shape, strides) == coordinate_at(offset, shape),
{
    lemma_coordinate_len(offset, shape);
    assert forall|i: int| 0 <= i < shape.len() implies unravel(offset, shape, strides)[i]
        == coordinate_at(offset, shape)[i] by {
        lemma_coordinate_component(offset, shape, i);
        assert(strides[i] == volume(shape.skip(i + 1)));
    }
    assert(unravel(offset, shape, strides) =~= coordinate_at(offset, shape));
}

/// The map of a tensor onto itself leaves every coordinate where it is.
pub proof fn identity_resolves_to_itself(shape: Seq<u64>, strides: Seq<u64>, coord: Seq<u64>)
    requires
        are_strides(strides, shape),
        in_box(coord, shape),
    ensures
        unravel(offset_at(identity_map(shape, strides), coord), shape, strides) == coord,
{
    lemma_identity_offset(shape, strides, coord);
    lemma_position_bound(coord, shape);
    lemma_position_coordinate(coord, shape);
    lemma_volume_positive(shape);
    lemma_unravel(position_of(coord, shape), shape, strides);
}

/// The base offset with the constants of the axes added.
pub open spec fn constants(base: int, axes: Seq<Contribution>) -> int
    decreases axes.len(),
{
    if axes.len() == 0 {
        base
    } else {
        constants(base, axes.drop_last()) + match axes.last() {
            Contribution::Broadcast(constant) => constant,
            _ => 0,
        }
    }
}

/// The stride of each axis, where a constant has none.
pub open spec fn affine_strides(axes: Seq<Contribution>) -> Seq<int> {
    Seq::new(
        axes.len(),
        |i: int|
            match axes[i] {
                Contribution::Stride(stride) => stride,
                _ => 0,
            },
    )
}

/// None of the first `n` axes is a table, and the constants before the `n`-th add up.
pub open spec fn affine_up_to(map: Mapping, n: int) -> bool {
    &&& forall|i: int| 0 <= i < n ==> !((#[trigger] map.axes[i]) is Gather)
    &&& forall|k: int| 0 <= k <= n ==> fits(constants(map.base, #[trigger] map.axes.take(k)))
}

/// The map is an offset plus a stride per axis.
pub open spec fn is_affine(map: Mapping) -> bool {
    &&& map.axes.len() == map.shape.len()
    &&& affine_up_to(map, map.axes.len() as int)
}

/// A table stands on some axis, and nothing went wrong before it.
pub open spec fn has_table(map: Mapping) -> bool {
    &&& map.axes.len() == map.shape.len()
    &&& exists|g: int|
        0 <= g < map.axes.len() && (#[trigger] map.axes[g]) is Gather && affine_up_to(map, g)
}

/// The same numbers.
pub open spec fn same_numbers(exact: Seq<int>, numbers: Seq<i128>) -> bool {
    &&& exact.len() == numbers.len()
    &&& forall|i: int| 0 <= i < exact.len() ==> #[trigger] numbers[i] == exact[i]
}

/// An affine map is its constants plus the coordinate weighted by its strides.
pub proof fn affine_maps_are_weighted_sums(map: Mapping, coord: Seq<u64>)
    requires
        coord.len() == map.axes.len(),
        forall|i: int| 0 <= i < map.axes.len() ==> !((#[trigger] map.axes[i]) is Gather),
    ensures
        offset_at(map, coord) == constants(map.base, map.axes) + weighted_sum(
            coord,
            affine_strides(map.axes),
        ),
    decreases map.axes.len(),
{
    if map.axes.len() > 0 {
        let init = Mapping { base: map.base, axes: map.axes.drop_last(), shape: map.shape };
        assert forall|i: int| 0 <= i < init.axes.len() implies !((
        #[trigger] init.axes[i]) is Gather) by {
            assert(!(map.axes[i] is Gather));
        }
        affine_maps_are_weighted_sums(init, coord.drop_last());
        assert(affine_strides(map.axes).drop_last() =~= affine_strides(init.axes));
        assert(!(map.axes[map.axes.len() - 1] is Gather));
        let c = coord.last() as int;
        let w = affine_strides(map.axes).last();
        lemma_mul_is_commutative(c, w);
        if map.axes.last() is Broadcast {
            assert(c * 0 == 0);
        }
    }
}

/// The axes are the row-major strides of the shape.
pub open spec fn contiguous(map: Mapping) -> bool {
    &&& map.axes == contiguous_axes(map.shape)
    &&& valid_dims(map.shape)
    &&& volume(map.shape.skip(1)) <= u64::MAX
}

/// The row-major strides of a shape as the axes of a map.
pub open spec fn contiguous_axes(shape: Seq<u64>) -> Seq<Contribution> {
    Seq::new(shape.len(), |i: int| Contribution::Stride(volume(shape.skip(i + 1))))
}

pub proof fn lemma_contiguous_axes(shape: Seq<u64>, strides: Seq<u64>)
    requires
        are_strides(strides, shape),
    ensures
        stride_axes(strides) == contiguous_axes(shape),
{
    assert(stride_axes(strides) =~= contiguous_axes(shape)) by {
        assert forall|i: int| 0 <= i < shape.len() implies stride_axes(strides)[i]
            == contiguous_axes(shape)[i] by {
            assert(strides[i] == volume(shape.skip(i + 1)));
        }
    }
}

/// The view in another shape.
pub open spec fn reshaped(map: Mapping, shape: Seq<u64>) -> Mapping {
    Mapping { base: map.base, axes: contiguous_axes(shape), shape }
}

/// Reshaping keeps the row-major order: what stood at a position still stands there.
pub proof fn reshaping_keeps_positions(map: Mapping, shape: Seq<u64>, k: int)
    requires
        contiguous(map),
        valid_dims(shape),
        volume(shape) == volume(map.shape),
        0 <= k < volume(shape),
    ensures
        offset_at(reshaped(map, shape), coordinate_at(k, shape)) == offset_at(
            map,
            coordinate_at(k, map.shape),
        ),
        offset_at(map, coordinate_at(k, map.shape)) == map.base + k,
{
    lemma_contiguous_offset(map.shape, k);
    lemma_contiguous_offset(shape, k);
}

pub proof fn lemma_contiguous_offset(shape: Seq<u64>, k: int)
    requires
        all_positive(shape),
        0 <= k < volume(shape),
    ensures
        total(contiguous_axes(shape), coordinate_at(k, shape)) == k,
{
    let coord = coordinate_at(k, shape);
    lemma_coordinate_position(k, shape);
    lemma_position_weighted(coord, shape);
    lemma_total_weighted(contiguous_axes(shape), coord, row_major_strides(shape));
}

/// Strided axes add up the weighted coordinate.
pub proof fn lemma_total_weighted(axes: Seq<Contribution>, coord: Seq<u64>, weights: Seq<int>)
    requires
        axes.len() == coord.len() == weights.len(),
        forall|i: int| 0 <= i < axes.len() ==> #[trigger] axes[i] == Contribution::Stride(weights[i]),
    ensures
        total(axes, coord) == weighted_sum(coord, weights),
    decreases axes.len(),
{
    if axes.len() > 0 {
        assert forall|i: int| 0 <= i < axes.drop_last().len() implies #[trigger] axes.drop_last()[i]
            == Contribution::Stride(weights.drop_last()[i]) by {
            assert(axes[i] == Contribution::Stride(weights[i]));
        }
        lemma_total_weighted(axes.drop_last(), coord.drop_last(), weights.drop_last());
        assert(axes[axes.len() - 1] == Contribution::Stride(weights[axes.len() - 1]));
        lemma_mul_is_commutative(weights.last(), coord.last() as int);
    }
}

/// The axes in another order.
pub open spec fn transposed(map: Mapping, permutation: Seq<usize>) -> Mapping {
    Mapping {
        base: map.base,
        axes: Seq::new(permutation.len(), |i: int| map.axes[permutation[i] as int]),
        shape: Seq::new(permutation.len(), |i: int| map.shape[permutation[i] as int]),
    }
}

/// Each axis below the rank occurs exactly once.
pub open spec fn is_permutation(permutation: Seq<usize>, rank: nat) -> bool {
    &&& permutation.len() == rank
    &&& forall|i: int| 0 <= i < permutation.len() ==> #[trigger] permutation[i] < rank
    &&& permutation.no_duplicates()
}

/// The permutation that a transpose uses: the given one, or the axes from last to first.
pub open spec fn chosen_permutation(permutation: Option<Axes>, rank: nat) -> Seq<usize> {
    match permutation {
        Some(axes) => axes@,
        None => Seq::new(rank, |i: int| (rank - 1 - i) as usize),
    }
}

pub fn default_permutation(ndim: usize, permutation: Option<Axes>) -> (result: Result<Vec<usize>>)
    ensures
        result is Ok <==> chosen_permutation(permutation, ndim as nat).len() == ndim,
        result matches Ok(axes) ==> axes@ == chosen_permutation(permutation, ndim as nat),
        result matches Err(error) ==> error is InvalidLayout,
{
    let axes: Vec<usize> = match &permutation {
        Some(axes) => slice_to_vec(axes.as_slice()),
        None => {
            let mut axes: Vec<usize> = Vec::new();
            let mut i: usize = 0;
            while i < ndim
                invariant
                    i <= ndim,
                    axes.len() == i,
                    forall|j: int| 0 <= j < i ==> #[trigger] axes@[j] == ndim - 1 - j,
                decreases ndim - i,
            {
                axes.push(ndim - 1 - i);
                i += 1;
            }
            axes
        },
    };
    proof {
        assert(axes@ =~= chosen_permutation(permutation, ndim as nat));
    }
    if axes.len() != ndim {
        return Err(
            Error::InvalidLayout(
                "transpose permutation rank must match tensor rank".to_string(),
            ),
        );
    }
    Ok(axes)
}

/// An axis run backwards.
pub open spec fn flipped_axis(axis: Contribution) -> Contribution {
    match axis {
        Contribution::Stride(stride) => Contribution::Stride(-stride),
        Contribution::Broadcast(constant) => Contribution::Broadcast(constant),
        Contribution::Gather(entries) => Contribution::Gather(entries.reverse()),
    }
}

/// What the base offset gains when an axis is run backwards.
pub open spec fn flip_delta(axis: Contribution, dim: u64) -> int {
    match axis {
        Contribution::Stride(stride) => (dim - 1) * stride,
        _ => 0,
    }
}

/// One axis run backwards.
pub open spec fn flipped(map: Mapping, axis: int) -> Mapping {
    Mapping {
        base: map.base + flip_delta(map.axes[axis], map.shape[axis]),
        axes: map.axes.update(axis, flipped_axis(map.axes[axis])),
        shape: map.shape,
    }
}

/// Running an axis backwards stays within the range of offsets.
pub open spec fn flip_fits(map: Mapping, axis: int) -> bool {
    &&& fits(flip_delta(map.axes[axis], map.shape[axis]))
    &&& fits(map.base + flip_delta(map.axes[axis], map.shape[axis]))
    &&& map.axes[axis] matches Contribution::Stride(stride) ==> fits(-stride)
}

fn flip_axis_contrib(current: &AxisContrib, dim: u64) -> (result: (i128, AxisContrib))
    requires
        current.wf(),
        fits(flip_delta(current@, dim)),
        current@ matches Contribution::Stride(stride) ==> fits(-stride),
    ensures
        result.0 == flip_delta(current@, dim),
        result.1@ == flipped_axis(current@),
        result.1.wf(),
{
    match current {
        AxisContrib::Stride(stride) => {
            ((dim as i128 - 1) * *stride, AxisContrib::Stride(-*stride))
        },
        AxisContrib::Broadcast(constant) => (0, AxisContrib::Broadcast(*constant)),
        AxisContrib::Gather(gather) => (0, AxisContrib::Gather(gather.flipped())),
    }
}

impl CoordinateMap {
    /// The map as an offset and a stride per axis, unless a table stands on some axis.
    pub fn affine(&self) -> (result: Result<Option<(i128, Vec<i128>)>>)
        ensures
            match result {
                Ok(Some((offset, strides))) => {
                    &&& is_affine(self@)
                    &&& offset == constants(self@.base, self@.axes)
                    &&& same_numbers(affine_strides(self@.axes), strides@)
                },
                Ok(None) => has_table(self@),
                Err(error) => error is InvalidCoord && !is_affine(self@) && !has_table(self@),
            },
    {
        if self.axes.len() != self.shape.len() {
            return Err(Error::InvalidCoord("mapping rank mismatch".to_string()));
        }
        let ghost map = self@;
        let mut offset: i128 = self.base_offset;
        let mut strides: Vec<i128> = Vec::new();
        let mut i: usize = 0;
        proof {
            assert(map.axes.take(0) =~= Seq::<Contribution>::empty());
        }
        while i < self.axes.len()
            invariant
                i <= self.axes.len(),
                map == self@,
                self.axes@.len() == map.shape.len(),
                offset == constants(map.base, map.axes.take(i as int)),
                strides.len() == i,
                forall|j: int|
                    0 <= j < i ==> #[trigger] strides@[j] == affine_strides(map.axes)[j],
                affine_up_to(map, i as int),
            decreases self.axes.len() - i,
        {
            proof {
                assert(map.axes[i as int] == self.axes@[i as int]@);
                assert(map.axes.take(i + 1).drop_last() =~= map.axes.take(i as int));
                assert(map.axes.take(i + 1).last() == map.axes[i as int]);
            }
            match &self.axes[i] {
                AxisContrib::Stride(stride) => {
                    strides.push(*stride);
                },
                AxisContrib::Broadcast(constant) => {
                    match offset.checked_add(*constant) {
                        Some(next) => {
                            offset = next;
                        },
                        None => {
                            proof {
                                assert(!fits(constants(map.base, map.axes.take(i + 1))));
                                if has_table(map) {
                                    let g = choose|g: int|
                                        0 <= g < map.axes.len() && (#[trigger] map.axes[g]) is Gather
                                            && affine_up_to(map, g);
                                    assert(g > i);
                                    assert(fits(constants(map.base, map.axes.take(i + 1))));
                                }
                                if is_affine(map) {
                                    assert(fits(constants(map.base, map.axes.take(i + 1))));
                                }
                            }
                            return Err(
                                Error::InvalidCoord("mapping offset overflow".to_string()),
                            );
                        },
                    }
                    strides.push(0);
                },
                AxisContrib::Gather(_) => {
                    return Ok(None);
                },
            }
            i += 1;
        }
        proof {
            assert(map.axes.take(i as int) =~= map.axes);
        }
        Ok(Some((offset, strides)))
    }

    pub fn is_c_contiguous(&self) -> (result: bool)
        ensures
            result == contiguous(self@),
    {
        if self.axes.len() != self.shape.len() {
            assert(contiguous_axes(self.shape@).len() == self.shape@.len());
            return false;
        }
        let expected = match contiguous_strides(self.shape.as_slice()) {
            Ok(expected) => expected,
            Err(_) => {
                return false;
            },
        };
        let strides = expected.as_slice();
        proof {
            lemma_contiguous_axes(self.shape@, strides@);
        }
        let mut i: usize = 0;
        while i < strides.len()
            invariant
                i <= strides.len(),
                strides.len() == self.axes.len(),
                stride_axes(strides@) == contiguous_axes(self.shape@),
                forall|j: int|
                    0 <= j < i ==> #[trigger] self@.axes[j] == stride_axes(strides@)[j],
            decreases strides.len() - i,
        {
            let same = match &self.axes[i] {
                AxisContrib::Stride(stride) => *stride == strides[i] as i128,
                _ => false,
            };
            proof {
                assert(self@.axes[i as int] == self.axes@[i as int]@);
                assert(stride_axes(strides@)[i as int] == Contribution::Stride(
                    strides@[i as int] as int,
                ));
            }
            if !same {
                return false;
            }
            i += 1;
        }
        proof {
            assert(self@.axes =~= stride_axes(strides@));
        }
        true
    }

    /// The view in another shape of the same size.
    pub fn reshape(self, shape: Shape) -> (result: Result<Self>)
        requires
            product_fits(self@.shape),
            product_fits(shape@),
        ensures
            result is Ok <==> volume(shape@) == volume(self@.shape) && contiguous(self@)
                && valid_dims(shape@),
            result matches Ok(map) ==> map@ == reshaped(self@, shape@) && map.wf(),
            result matches Err(Error::InvalidLayout(_)) <==> volume(shape@) != volume(self@.shape),
            result matches Err(Error::Unsupported(_)) <==> volume(shape@) == volume(self@.shape)
                && !contiguous(self@),
            result matches Err(error) ==> error is InvalidLayout || error is Unsupported
                || error is InvalidSchema,
    {
        let old_size = checked_product(self.shape.as_slice())?;
        let new_size = checked_product(shape.as_slice())?;
        if old_size != new_size {
            return Err(
                Error::InvalidLayout("reshape requires an equal number of elements".to_string()),
            );
        }
        if !self.is_c_contiguous() {
            return Err(
                Error::Unsupported(
                    "reshape requires a C-contiguous view; copy the tensor before reshaping a transposed, flip, step-strided, or gather-sliced view".to_string(),
                ),
            );
        }
        proof {
            lemma_volume_positive(shape@);
            lemma_volume_positive(self.shape@);
            if shape@.len() > 0 {
                lemma_product_fits(shape@);
                lemma_volume_suffix_bound(shape@, 1);
            }
        }
        let strides = contiguous_strides(shape.as_slice())?;
        proof {
            lemma_contiguous_axes(shape@, strides@);
        }
        let axes = strided(strides.as_slice());
        Ok(CoordinateMap { base_offset: self.base_offset, axes, shape })
    }

    /// The view with its axes in another order.
    pub fn transpose(self, permutation: Option<Axes>) -> (result: Result<Self>)
        requires
            self.wf(),
        ensures
            result is Ok <==> is_permutation(
                chosen_permutation(permutation, self@.shape.len()),
                self@.shape.len(),
            ),
            result matches Ok(map) ==> map@ == transposed(
                self@,
                chosen_permutation(permutation, self@.shape.len()),
            ) && map.wf(),
            result matches Err(error) ==> error is InvalidLayout,
    {
        let ghost perm = chosen_permutation(permutation, self@.shape.len());
        let order = default_permutation(self.shape.len(), permutation)?;
        let rank: usize = self.axes.len();
        let dims = self.shape.as_slice();
        let mut seen: Vec<bool> = vec![false; rank];
        let mut axes: Vec<AxisContrib> = Vec::new();
        let mut shape: Vec<u64> = Vec::new();
        let mut i: usize = 0;
        while i < order.len()
            invariant
                i <= order.len(),
                perm == order@,
                perm == chosen_permutation(permutation, self@.shape.len()),
                order.len() == rank,
                rank == self.axes.len(),
                dims@ == self.shape@,
                self.wf(),
                seen.len() == rank,
                forall|j: int| 0 <= j < i ==> #[trigger] perm[j] < rank,
                forall|j: int, k: int| 0 <= j < k < i ==> perm[j] != perm[k],
                forall|a: int|
                    0 <= a < rank ==> (#[trigger] seen@[a] <==> exists|j: int|
                        0 <= j < i && perm[j] == a),
                axes.len() == i,
                shape.len() == i,
                forall|j: int| 0 <= j < i ==> #[trigger] axes@[j] == self.axes@[perm[j] as int],
                forall|j: int| 0 <= j < i ==> #[trigger] shape@[j] == self.shape@[perm[j] as int],
            decreases order.len() - i,
        {
            let axis: usize = order[i];
            if axis >= rank || seen[axis] {
                proof {
                    if is_permutation(perm, rank as nat) {
                        assert(perm[i as int] < rank);
                        assert(seen@[axis as int]);
                        let j = choose|j: int| 0 <= j < i && perm[j] == axis;
                        assert(perm[j] == perm[i as int]);
                    }
                }
                return Err(
                    Error::InvalidLayout(
                        "transpose permutation must be a valid axis permutation".to_string(),
                    ),
                );
            }
            let ghost before = seen@;
            seen.set(axis, true);
            axes.push(self.axes[axis].clone());
            shape.push(dims[axis]);
            i += 1;
            proof {
                assert(!before[axis as int]);
                assert forall|a: int| 0 <= a < rank implies (#[trigger] seen@[a] <==> exists|j: int|
                    0 <= j < i && perm[j] == a) by {
                    if a == axis {
                        assert(perm[i - 1] == a);
                    } else {
                        assert(seen@[a] == before[a]);
                        if before[a] {
                            let j = choose|j: int| 0 <= j < i - 1 && perm[j] == a;
                            assert(perm[j] == a);
                        }
                    }
                }
                assert forall|j: int, k: int| 0 <= j < k < i implies perm[j] != perm[k] by {
                    if k == i - 1 && perm[j] == perm[k] {
                        assert(before[axis as int]);
                    }
                }
            }
        }
        let shape = Shape::from_vec(shape);
        let map = CoordinateMap { base_offset: self.base_offset, axes, shape };
        proof {
            assert(perm.no_duplicates());
            assert(map@.axes =~= transposed(self@, perm).axes) by {
                assert forall|j: int| 0 <= j < rank implies map@.axes[j] == transposed(
                    self@,
                    perm,
                ).axes[j] by {
                    assert(axes@[j] == self.axes@[perm[j] as int]);
                }
            }
            assert(map@.shape =~= transposed(self@, perm).shape);
            assert forall|j: int| 0 <= j < map.axes@.len() implies (#[trigger] map.axes@[j]).wf() by {
                assert(axes@[j] == self.axes@[perm[j] as int]);
                assert(self.axes@[perm[j] as int].wf());
            }
            assert forall|j: int| 0 <= j < map@.axes.len() implies axis_has_extent(
                #[trigger] map@.axes[j],
                map@.shape[j],
            ) by {
                assert(axis_has_extent(self@.axes[perm[j] as int], self@.shape[perm[j] as int]));
                assert(shape@[j] == self.shape@[perm[j] as int]);
            }
        }
        Ok(map)
    }

    /// The view with one axis run backwards.
    pub fn flip(self, axis: usize) -> (result: Result<Self>)
        requires
            self.wf(),
            axis < self@.shape.len() ==> flip_fits(self@, axis as int),
        ensures
            result is Ok <==> axis < self@.shape.len(),
            result matches Ok(map) ==> map@ == flipped(self@, axis as int) && map.wf(),
            result matches Err(error) ==> error is InvalidLayout,
    {
        if axis >= self.shape.len() {
            return Err(
                Error::InvalidLayout(
                    axis_message("flip axis ", axis, " is out of bounds for rank ").concat(
                        self.shape.len().to_string().as_str(),
                    ),
                ),
            );
        }
        let ghost before = self;
        let dim: u64 = self.shape.as_slice()[axis];
        proof {
            assert(self.axes@[axis as int].wf());
            assert(self@.axes[axis as int] == self.axes@[axis as int]@);
            assert(axis_has_extent(self@.axes[axis as int], self@.shape[axis as int]));
        }
        let (delta, flipped_contrib) = flip_axis_contrib(&self.axes[axis], dim);
        let CoordinateMap { base_offset, axes, shape } = self;
        let mut axes = axes;
        axes.set(axis, flipped_contrib);
        let map = CoordinateMap { base_offset: base_offset + delta, axes, shape };
        proof {
            assert(map@.axes =~= flipped(before@, axis as int).axes);
            assert forall|j: int| 0 <= j < map.axes@.len() implies (#[trigger] map.axes@[j]).wf() by {
                if j != axis {
                    assert(before.axes@[j].wf());
                }
            }
            assert forall|j: int| 0 <= j < map@.axes.len() implies axis_has_extent(
                #[trigger] map@.axes[j],
                map@.shape[j],
            ) by {
                assert(axis_has_extent(before@.axes[j], before@.shape[j]));
            }
        }
        Ok(map)
    }
}

/// A shape can be spread over another: its axes, behind those that are new, keep their
/// dimension unless it is one.
pub open spec fn broadcast_fits(from: Seq<u64>, to: Seq<u64>) -> bool {
    &&& from.len() <= to.len()
    &&& forall|i: int|
        0 <= i < from.len() ==> #[trigger] from[i] == 1 || from[i] == to[i + (to.len()
            - from.len())]
}

/// The view spread over a larger shape.
pub open spec fn broadcasted(map: Mapping, shape: Seq<u64>) -> Mapping {
    let fresh = shape.len() - map.shape.len();
    Mapping {
        base: map.base,
        axes: Seq::new(
            shape.len(),
            |p: int|
                if p < fresh {
                    Contribution::Broadcast(0)
                } else if map.shape[p - fresh] == 1 {
                    Contribution::Broadcast(contribution(map.axes[p - fresh], 0))
                } else {
                    map.axes[p - fresh]
                },
        ),
        shape,
    }
}

/// What an index on the axis adds stays within the range of offsets.
pub open spec fn index_fits(axis: Contribution, index: int) -> bool {
    axis matches Contribution::Stride(stride) ==> fits(stride * index)
}

fn slice_bound_at(current: &AxisContrib, dim: u64, index: u64, axis_index: usize) -> (result:
    Result<i128>)
    requires
        current.wf(),
        axis_has_extent(current@, dim),
        index < dim ==> index_fits(current@, index as int),
    ensures
        result is Ok <==> index < dim,
        result matches Ok(delta) ==> delta == contribution(current@, index as int),
        result matches Err(error) ==> error is InvalidLayout,
{
    if index >= dim {
        return Err(
            Error::InvalidLayout(
                axis_message("slice bound at axis ", axis_index, " is out of bounds"),
            ),
        );
    }
    match current {
        AxisContrib::Stride(stride) => {
            proof {
                lemma_mul_is_commutative(*stride as int, index as int);
            }
            Ok(index as i128 * *stride)
        },
        AxisContrib::Broadcast(constant) => Ok(*constant),
        AxisContrib::Gather(gather) => match gather.get(index as usize) {
            Some(offset) => Ok(*offset),
            None => Err(
                Error::InvalidLayout(
                    axis_message("slice bound at axis ", axis_index, " out of bounds for gather"),
                ),
            ),
        },
    }
}

/// Every `step`-th index of an axis from `start` on.
pub open spec fn stepped(axis: Contribution, start: int, step: int, len: nat) -> Contribution {
    match axis {
        Contribution::Stride(stride) => Contribution::Stride(stride * step),
        Contribution::Broadcast(constant) => Contribution::Broadcast(constant),
        Contribution::Gather(entries) => Contribution::Gather(
            Seq::new(len, |i: int| entries[start + i * step]),
        ),
    }
}

/// What the base offset gains when an axis starts at a later index.
pub open spec fn start_delta(axis: Contribution, start: int) -> int {
    match axis {
        Contribution::Stride(stride) => stride * start,
        _ => 0,
    }
}

fn slice_bound_in(
    current: &AxisContrib,
    dim: u64,
    start: u64,
    stop: u64,
    step: u64,
    axis_index: usize,
) -> (result: Result<(i128, AxisContrib, u64)>)
    requires
        current.wf(),
        axis_has_extent(current@, dim),
        bound_fits(Bound::In(start, stop, step), dim) ==> index_fits(current@, start as int)
            && index_fits(current@, step as int),
    ensures
        result is Ok <==> bound_fits(Bound::In(start, stop, step), dim),
        result matches Ok((delta, axis, extent)) ==> {
            &&& extent == bound_len(Bound::In(start, stop, step))
            &&& delta == start_delta(current@, start as int)
            &&& axis@ == stepped(current@, start as int, step as int, extent as nat)
            &&& axis.wf()
            &&& axis_has_extent(axis@, extent)
        },
        result matches Err(error) ==> error is InvalidLayout,
{
    if step == 0 || start > stop || stop > dim {
        return Err(
            Error::InvalidLayout(
                axis_message("slice bound at axis ", axis_index, " is out of bounds"),
            ),
        );
    }
    let extent: u64 = div_ceil(stop - start, step);
    match current {
        AxisContrib::Stride(stride) => {
            proof {
                lemma_mul_is_commutative(*stride as int, start as int);
            }
            Ok(
                (
                    start as i128 * *stride,
                    AxisContrib::Stride(*stride * step as i128),
                    extent,
                ),
            )
        },
        AxisContrib::Broadcast(constant) => Ok((0, AxisContrib::Broadcast(*constant), extent)),
        AxisContrib::Gather(gather) => {
            let wide: usize = if step > usize::MAX as u64 {
                usize::MAX
            } else {
                step as usize
            };
            proof {
                lemma_ceil_div(stop - start, step as int);
                if extent > 0 {
                    lemma_bound_at(Bound::In(start, stop, step), dim, extent - 1);
                    if extent > 1 {
                        assert(step <= (extent - 1) * step) by (nonlinear_arith)
                            requires
                                extent > 1,
                                step > 0,
                        ;
                        assert(wide == step);
                        let a = gather.place(start as int);
                        let b = gather.place(start + step);
                        assert(0 <= a < gather.offsets@.len() && 0 <= b < gather.offsets@.len());
                        assert((start + step) * gather.step == start * gather.step + gather.step
                            * step) by (nonlinear_arith);
                        assert(gather.offsets.len() == gather.offsets@.len());
                    } else {
                        assert((extent - 1) * wide == 0) by (nonlinear_arith)
                            requires
                                extent == 1,
                        ;
                    }
                }
            }
            let slice = gather.slice(start as usize, wide, extent as usize)?;
            proof {
                assert(slice.entries() =~= Seq::new(
                    extent as nat,
                    |i: int| gather.entries()[start + i * step],
                )) by {
                    assert forall|i: int| 0 <= i < extent implies slice.entries()[i]
                        == gather.entries()[start + i * step] by {
                        if extent == 1 {
                            assert(0 * wide == 0 && 0 * step == 0);
                        }
                    }
                }
            }
            Ok((0, AxisContrib::Gather(slice), extent))
        },
    }
}

/// Listed indices of an axis.
pub open spec fn listed(axis: Contribution, indices: Seq<u64>) -> Contribution {
    match axis {
        Contribution::Broadcast(constant) => Contribution::Broadcast(constant),
        Contribution::Stride(stride) => Contribution::Gather(
            Seq::new(indices.len(), |i: int| (stride * indices[i]) as i128),
        ),
        Contribution::Gather(entries) => Contribution::Gather(
            Seq::new(indices.len(), |i: int| entries[indices[i] as int]),
        ),
    }
}

/// What each listed index adds stays within the range of offsets.
pub open spec fn indices_fit(axis: Contribution, indices: Seq<u64>) -> bool {
    forall|i: int| 0 <= i < indices.len() ==> index_fits(axis, (#[trigger] indices[i]) as int)
}

fn slice_bound_of(current: &AxisContrib, dim: u64, indices: &[u64], axis_index: usize) -> (result:
    Result<AxisContrib>)
    requires
        current.wf(),
        axis_has_extent(current@, dim),
        each_below(indices@, dim) ==> indices_fit(current@, indices@),
    ensures
        result is Ok <==> each_below(indices@, dim),
        result matches Ok(axis) ==> axis@ == listed(current@, indices@) && axis.wf() && (axis@
            matches Contribution::Gather(entries) ==> entries.len() == indices@.len()),
        result matches Err(error) ==> error is InvalidLayout,
{
    if !all_below(indices, dim) {
        return Err(
            Error::InvalidLayout(
                axis_message("slice bound at axis ", axis_index, " is out of bounds"),
            ),
        );
    }
    let mut offsets: Vec<i128> = Vec::new();
    match current {
        AxisContrib::Broadcast(constant) => {
            return Ok(AxisContrib::Broadcast(*constant));
        },
        AxisContrib::Stride(stride) => {
            let mut i: usize = 0;
            while i < indices.len()
                invariant
                    i <= indices.len(),
                    current@ == Contribution::Stride(*stride as int),
                    indices_fit(current@, indices@),
                    offsets.len() == i,
                    forall|j: int| 0 <= j < i ==> #[trigger] offsets@[j] == *stride * indices@[j],
                decreases indices.len() - i,
            {
                proof {
                    assert(index_fits(current@, indices@[i as int] as int));
                    lemma_mul_is_commutative(*stride as int, indices@[i as int] as int);
                }
                offsets.push(indices[i] as i128 * *stride);
                i += 1;
            }
        },
        AxisContrib::Gather(gather) => {
            let mut i: usize = 0;
            while i < indices.len()
                invariant
                    i <= indices.len(),
                    current@ == Contribution::Gather(gather.entries()),
                    gather.wf(),
                    gather.len == dim,
                    each_below(indices@, dim),
                    offsets.len() == i,
                    forall|j: int|
                        0 <= j < i ==> #[trigger] offsets@[j]
                            == gather.entries()[indices@[j] as int],
                decreases indices.len() - i,
            {
                assert(indices@[i as int] < dim);
                match gather.get(indices[i] as usize) {
                    Some(offset) => {
                        offsets.push(*offset);
                    },
                    None => {
                        return Err(
                            Error::InvalidLayout(
                                axis_message(
                                    "slice bound at axis ",
                                    axis_index,
                                    " out of bounds for gather",
                                ),
                            ),
                        );
                    },
                }
                i += 1;
            }
        },
    }
    proof {
        lemma_gather_from(offsets);
        if let Contribution::Gather(entries) = listed(current@, indices@) {
            assert(offsets@ =~= entries);
        }
    }
    Ok(AxisContrib::Gather(GatherOffsets::from(offsets)))
}

/// What a bound adds to the base offset.
pub open spec fn bound_delta(axis: Contribution, bound: Bound) -> int {
    match bound {
        Bound::At(index) => contribution(axis, index as int),
        Bound::In(start, _, _) => start_delta(axis, start as int),
        Bound::Of(_) => 0,
    }
}

/// What a bound makes of an axis, where it keeps it.
pub open spec fn bound_axis(axis: Contribution, bound: Bound) -> Contribution {
    match bound {
        Bound::At(_) => axis,
        Bound::In(start, _, step) => stepped(
            axis,
            start as int,
            step as int,
            bound_len(bound) as nat,
        ),
        Bound::Of(indices) => listed(axis, indices),
    }
}

/// The base offset of a slice.
pub open spec fn slice_base(base: int, axes: Seq<Contribution>, range: Seq<Bound>) -> int
    decreases range.len(),
{
    if range.len() == 0 {
        base
    } else {
        slice_base(base, axes.drop_last(), range.drop_last()) + bound_delta(
            axes.last(),
            range.last(),
        )
    }
}

/// The axes of a slice: those that are not fixed at one index.
pub open spec fn slice_axes(axes: Seq<Contribution>, range: Seq<Bound>) -> Seq<Contribution>
    decreases range.len(),
{
    if range.len() == 0 {
        Seq::empty()
    } else {
        let before = slice_axes(axes.drop_last(), range.drop_last());
        if range.last() is At {
            before
        } else {
            before.push(bound_axis(axes.last(), range.last()))
        }
    }
}

/// The shape of a slice.
pub open spec fn slice_shape(range: Seq<Bound>) -> Seq<u64>
    decreases range.len(),
{
    if range.len() == 0 {
        Seq::empty()
    } else {
        let before = slice_shape(range.drop_last());
        if range.last() is At {
            before
        } else {
            before.push(bound_len(range.last()) as u64)
        }
    }
}

/// The part of a view that a range selects.
pub open spec fn sliced(map: Mapping, range: Seq<Bound>) -> Mapping {
    Mapping {
        base: slice_base(map.base, map.axes, range),
        axes: slice_axes(map.axes, range),
        shape: slice_shape(range),
    }
}

/// Applying a bound stays within the range of offsets.
pub open spec fn bound_arith_fits(axis: Contribution, bound: Bound) -> bool {
    match bound {
        Bound::At(index) => index_fits(axis, index as int),
        Bound::In(start, _, step) => index_fits(axis, start as int) && index_fits(
            axis,
            step as int,
        ),
        Bound::Of(indices) => indices_fit(axis, indices),
    }
}

/// Applying the bounds, as far as they lie within the view, stays within the range of offsets.
pub open spec fn slice_fits(map: Mapping, range: Seq<Bound>) -> bool {
    forall|i: int|
        #![trigger range[i]]
        0 <= i < range.len() && range.len() == map.shape.len() && range_fits(
            range.take(i + 1),
            map.shape.take(i + 1),
        ) ==> {
            &&& bound_arith_fits(map.axes[i], range[i])
            &&& fits(slice_base(map.base, map.axes.take(i + 1), range.take(i + 1)))
        }
}

/// The machine can count what every bound selects.
pub open spec fn lens_known(range: Seq<Bound>) -> bool {
    forall|i: int| 0 <= i < range.len() ==> bound_len(#[trigger] range[i]) <= u64::MAX
}

/// No axis of the slice is empty.
pub open spec fn slice_nonempty(range: Seq<Bound>) -> bool {
    forall|i: int| 0 <= i < range.len() ==> bound_len(#[trigger] range[i]) > 0
}

impl CoordinateMap {
    /// The view spread over a larger shape.
    pub fn broadcast(self, shape: Shape) -> (result: Result<Self>)
        requires
            self.wf(),
        ensures
            result is Ok <==> broadcast_fits(self@.shape, shape@),
            result matches Ok(map) ==> map@ == broadcasted(self@, shape@) && map.wf(),
            result matches Err(error) ==> error is InvalidLayout,
    {
        let from = self.shape.as_slice();
        let to = shape.as_slice();
        if to.len() < from.len() {
            return Err(
                Error::InvalidLayout("cannot broadcast to a lower rank shape".to_string()),
            );
        }
        let fresh: usize = to.len() - from.len();
        let ghost target = broadcasted(self@, shape@);
        let mut axes: Vec<AxisContrib> = Vec::new();
        let mut p: usize = 0;
        while p < fresh
            invariant
                p <= fresh,
                fresh == to@.len() - self@.shape.len(),
                to@ == shape@,
                target == broadcasted(self@, shape@),
                axes.len() == p,
                forall|q: int| 0 <= q < p ==> (#[trigger] axes@[q])@ == target.axes[q],
                forall|q: int| 0 <= q < p ==> (#[trigger] axes@[q]).wf(),
            decreases fresh - p,
        {
            axes.push(AxisContrib::Broadcast(0));
            p += 1;
        }
        let mut i: usize = 0;
        while i < from.len()
            invariant
                i <= from.len(),
                from@ == self.shape@,
                to@ == shape@,
                from.len() <= to.len(),
                fresh == to.len() - from.len(),
                self.wf(),
                target == broadcasted(self@, shape@),
                axes.len() == fresh + i,
                forall|j: int|
                    0 <= j < i ==> #[trigger] from@[j] == 1 || from@[j] == to@[j + fresh],
                forall|q: int| 0 <= q < fresh + i ==> (#[trigger] axes@[q])@ == target.axes[q],
                forall|q: int| 0 <= q < fresh + i ==> (#[trigger] axes@[q]).wf(),
                forall|q: int|
                    0 <= q < fresh + i ==> axis_has_extent((#[trigger] axes@[q])@, to@[q]),
            decreases from.len() - i,
        {
            let old_dim: u64 = from[i];
            let new_dim: u64 = to[fresh + i];
            proof {
                assert(self.axes@[i as int].wf());
                assert(self@.axes[i as int] == self.axes@[i as int]@);
                assert(axis_has_extent(self@.axes[i as int], self@.shape[i as int]));
            }
            if old_dim != 1 && old_dim != new_dim {
                proof {
                    assert(from@[i as int] != 1);
                }
                return Err(
                    Error::InvalidLayout(
                        axis_message("cannot broadcast axis ", i, " from dimension ").concat(
                            old_dim.to_string().as_str(),
                        ).concat(" to ").concat(new_dim.to_string().as_str()),
                    ),
                );
            }
            let axis = if old_dim == 1 {
                let constant: i128 = match &self.axes[i] {
                    AxisContrib::Stride(stride) => {
                        proof {
                            assert(*stride * 0 == 0);
                        }
                        0
                    },
                    AxisContrib::Broadcast(constant) => *constant,
                    AxisContrib::Gather(gather) => match gather.first() {
                        Some(first) => *first,
                        None => {
                            return Err(
                                Error::InvalidLayout(
                                    axis_message("axis ", i, " has an empty gather table"),
                                ),
                            );
                        },
                    },
                };
                AxisContrib::Broadcast(constant)
            } else {
                self.axes[i].clone()
            };
            axes.push(axis);
            i += 1;
        }
        let map = CoordinateMap { base_offset: self.base_offset, axes, shape };
        proof {
            assert(map@.axes =~= target.axes);
            assert forall|j: int| 0 <= j < map@.axes.len() implies axis_has_extent(
                #[trigger] map@.axes[j],
                map@.shape[j],
            ) by {
                assert(axis_has_extent(axes@[j]@, to@[j]));
            }
        }
        Ok(map)
    }

    /// The part of the view that a range selects.
    pub fn slice(self, range: Range) -> (result: Result<Self>)
        requires
            self.wf(),
            slice_fits(self@, range@),
        ensures
            result is Ok <==> range_fits(range@, self@.shape) && slice_nonempty(range@),
            result matches Ok(map) ==> map@ == sliced(self@, range@) && map.wf() && lens_known(
                range@,
            ),
            result matches Err(error) ==> error is InvalidLayout,
    {
        let bounds = range.as_slice();
        let dims = self.shape.as_slice();
        if bounds.len() != dims.len() {
            return Err(Error::InvalidLayout("slice range rank must match tensor rank".to_string()));
        }
        let ghost view = range@;
        let ghost map = self@;
        let mut axes: Vec<AxisContrib> = Vec::new();
        let mut shape: Vec<u64> = Vec::new();
        let mut base: i128 = self.base_offset;
        let mut empty = false;
        let mut i: usize = 0;
        proof {
            assert(contributions(axes@) =~= slice_axes(map.axes.take(0), view.take(0)));
            assert(shape@ =~= slice_shape(view.take(0)));
        }
        while i < bounds.len()
            invariant
                i <= bounds.len(),
                bounds.len() == dims.len(),
                bounds_of(bounds@) == view,
                view == range@,
                map == self@,
                dims@ == map.shape,
                self.wf(),
                slice_fits(map, view),
                range_fits(view.take(i as int), map.shape.take(i as int)),
                base == slice_base(map.base, map.axes.take(i as int), view.take(i as int)),
                contributions(axes@) == slice_axes(map.axes.take(i as int), view.take(i as int)),
                shape@ == slice_shape(view.take(i as int)),
                axes@.len() == shape@.len(),
                forall|q: int| 0 <= q < axes@.len() ==> (#[trigger] axes@[q]).wf(),
                forall|q: int|
                    0 <= q < axes@.len() ==> axis_has_extent((#[trigger] axes@[q])@, shape@[q]),
                empty <==> exists|j: int| 0 <= j < i && bound_len(#[trigger] view[j]) <= 0,
                forall|j: int| 0 <= j < i ==> bound_len(#[trigger] view[j]) <= u64::MAX,
            decreases bounds.len() - i,
        {
            let dim: u64 = dims[i];
            let ghost bound = view[i as int];
            let ghost current = map.axes[i as int];
            let ghost axes_before = contributions(axes@);
            let ghost shape_before = shape@;
            proof {
                assert(bound == bounds@[i as int]@);
                assert(self.axes@[i as int].wf());
                assert(current == self.axes@[i as int]@);
                assert(axis_has_extent(map.axes[i as int], map.shape[i as int]));
                assert(view.take(i + 1).drop_last() =~= view.take(i as int));
                assert(map.axes.take(i + 1).drop_last() =~= map.axes.take(i as int));
                assert(view.take(i + 1).last() == bound);
                assert(map.axes.take(i + 1).last() == current);
                lemma_range_take(view, map.shape, i as int);
            }
            match &bounds[i] {
                AxisRange::At(index) => {
                    let delta: i128 = slice_bound_at(&self.axes[i], dim, *index, i)?;
                    base = base + delta;
                },
                AxisRange::In(start, stop, step) => {
                    let (delta, axis, extent) = slice_bound_in(
                        &self.axes[i],
                        dim,
                        *start,
                        *stop,
                        *step,
                        i,
                    )?;
                    base = base + delta;
                    axes.push(axis);
                    shape.push(extent);
                    empty = empty || extent == 0;
                    proof {
                        assert(contributions(axes@) =~= axes_before.push(axis@));
                        assert(shape@ =~= shape_before.push(extent));
                    }
                },
                AxisRange::Of(indices) => {
                    let axis = slice_bound_of(&self.axes[i], dim, indices.as_slice(), i)?;
                    let extent: u64 = indices.len() as u64;
                    axes.push(axis);
                    shape.push(extent);
                    empty = empty || extent == 0;
                    proof {
                        assert(contributions(axes@) =~= axes_before.push(axis@));
                        assert(shape@ =~= shape_before.push(extent));
                    }
                },
            }
            proof {
                assert(forall|j: int|
                    0 <= j < i + 1 && bound_len(#[trigger] view[j]) <= 0 ==> j < i || j == i);
                if bound_len(view[i as int]) <= 0 {
                    assert(bound_len(view[i as int]) <= 0);
                }
            }
            i += 1;
        }
        proof {
            assert(view.take(i as int) =~= view);
            assert(map.axes.take(i as int) =~= map.axes);
            assert(map.shape.take(i as int) =~= map.shape);
        }
        if empty {
            return Err(Error::InvalidLayout("slice produced a zero-extent axis".to_string()));
        }
        let result = CoordinateMap { base_offset: base, axes, shape: Shape::from_vec(shape) };
        proof {
            assert forall|j: int| 0 <= j < result@.axes.len() implies axis_has_extent(
                #[trigger] result@.axes[j],
                result@.shape[j],
            ) by {
                assert(axis_has_extent(axes@[j]@, shape@[j]));
            }
        }
        Ok(result)
    }
}

proof fn lemma_range_take(range: Seq<Bound>, shape: Seq<u64>, i: int)
    requires
        0 <= i < range.len(),
        range.len() == shape.len(),
        range_fits(range.take(i), shape.take(i)),
    ensures
        range_fits(range.take(i + 1), shape.take(i + 1)) <==> bound_fits(range[i], shape[i]),
        !bound_fits(range[i], shape[i]) ==> !range_fits(range, shape),
{
    let r = range.take(i + 1);
    let s = shape.take(i + 1);
    if bound_fits(range[i], shape[i]) {
        assert forall|j: int| 0 <= j < s.len() implies bound_fits(#[trigger] r[j], s[j]) by {
            if j < i {
                assert(bound_fits(range.take(i)[j], shape.take(i)[j]));
            }
        }
    } else {
        assert(!bound_fits(r[i], s[i]));
    }
}

/// Which axes are named.
pub open spec fn marks(rank: nat, axes: Seq<usize>) -> Seq<bool> {
    Seq::new(rank, |i: int| axes.contains(i as usize))
}

/// Each axis is below the rank and named once.
pub open spec fn distinct_axes(rank: nat, axes: Seq<usize>) -> bool {
    &&& forall|i: int| 0 <= i < axes.len() ==> #[trigger] axes[i] < rank
    &&& axes.no_duplicates()
}

/// The axes can be removed: some but not all, and each has a single index.
pub open spec fn squeeze_fits(shape: Seq<u64>, axes: Seq<usize>) -> bool {
    &&& axes.len() > 0
    &&& axes.len() != shape.len()
    &&& distinct_axes(shape.len(), axes)
    &&& forall|i: int| 0 <= i < axes.len() ==> shape[#[trigger] axes[i] as int] == 1
}

/// What is left when the marked items are dropped.
pub open spec fn kept<A>(items: Seq<A>, dropped: Seq<bool>) -> Seq<A>
    decreases dropped.len(),
{
    if dropped.len() == 0 {
        Seq::empty()
    } else {
        let before = kept(items.drop_last(), dropped.drop_last());
        if dropped.last() {
            before
        } else {
            before.push(items.last())
        }
    }
}

/// The base offset with what the dropped axes add at their only index.
pub open spec fn squeeze_base(base: int, axes: Seq<Contribution>, dropped: Seq<bool>) -> int
    decreases dropped.len(),
{
    if dropped.len() == 0 {
        base
    } else {
        squeeze_base(base, axes.drop_last(), dropped.drop_last()) + if dropped.last() {
            contribution(axes.last(), 0)
        } else {
            0
        }
    }
}

/// The view without the named axes.
pub open spec fn squeezed(map: Mapping, axes: Seq<usize>) -> Mapping {
    let dropped = marks(map.shape.len(), axes);
    Mapping {
        base: squeeze_base(map.base, map.axes, dropped),
        axes: kept(map.axes, dropped),
        shape: kept(map.shape, dropped),
    }
}

/// Removing the axes stays within the range of offsets.
pub open spec fn squeeze_base_fits(map: Mapping, axes: Seq<usize>) -> bool {
    let dropped = marks(map.shape.len(), axes);
    forall|i: int|
        0 <= i < dropped.len() ==> fits(
            squeeze_base(map.base, map.axes.take(i + 1), #[trigger] dropped.take(i + 1)),
        )
}

/// The axes of a view with new ones put before the marked ones: a new axis, or the number of
/// an old one.
pub open spec fn spread(inserted: Seq<bool>) -> Seq<Option<int>>
    decreases inserted.len(),
{
    if inserted.len() == 0 {
        Seq::empty()
    } else {
        let before = spread(inserted.drop_last());
        let i = inserted.len() - 1;
        if inserted.last() {
            before.push(None).push(Some(i))
        } else {
            before.push(Some(i))
        }
    }
}

/// The shape with axes of a single index put before the named ones.
pub open spec fn unsqueezed_shape(shape: Seq<u64>, axes: Seq<usize>) -> Seq<u64> {
    let layout = spread(marks(shape.len(), axes));
    Seq::new(
        layout.len(),
        |p: int|
            match layout[p] {
                None => 1u64,
                Some(i) => shape[i],
            },
    )
}

/// The view with axes of a single index put before the named ones.
pub open spec fn unsqueezed(map: Mapping, axes: Seq<usize>) -> Mapping {
    let layout = spread(marks(map.shape.len(), axes));
    let shape = unsqueezed_shape(map.shape, axes);
    Mapping {
        base: map.base,
        axes: Seq::new(
            layout.len(),
            |p: int|
                match layout[p] {
                    None => Contribution::Stride(volume(shape.skip(p + 1))),
                    Some(i) => map.axes[i],
                },
        ),
        shape,
    }
}

/// Mark the named axes, if each is below the rank and named once.
fn mark_axes(verb: &str, axes: &[usize], rank: usize) -> (result: Result<Vec<bool>>)
    ensures
        result is Ok <==> distinct_axes(rank as nat, axes@),
        result matches Ok(marked) ==> marked@ == marks(rank as nat, axes@),
        result matches Err(error) ==> error is InvalidLayout,
{
    let mut marked: Vec<bool> = vec![false; rank];
    let mut i: usize = 0;
    while i < axes.len()
        invariant
            i <= axes.len(),
            marked.len() == rank,
            forall|j: int| 0 <= j < i ==> #[trigger] axes@[j] < rank,
            forall|j: int, k: int| 0 <= j < k < i ==> axes@[j] != axes@[k],
            forall|a: int|
                0 <= a < rank ==> (#[trigger] marked@[a] <==> exists|j: int|
                    0 <= j < i && axes@[j] == a),
        decreases axes.len() - i,
    {
        let axis: usize = axes[i];
        if axis >= rank {
            assert(!(axes@[i as int] < rank));
            return Err(
                Error::InvalidLayout(
                    axis_message(verb, axis, " is out of bounds for rank ").concat(
                        rank.to_string().as_str(),
                    ),
                ),
            );
        }
        if marked[axis] {
            proof {
                let j = choose|j: int| 0 <= j < i && axes@[j] == axis;
                assert(axes@[j] == axes@[i as int]);
            }
            return Err(
                Error::InvalidLayout(axis_message(verb, axis, " specified more than once")),
            );
        }
        let ghost before = marked@;
        marked.set(axis, true);
        i += 1;
        proof {
            assert forall|a: int| 0 <= a < rank implies (#[trigger] marked@[a] <==> exists|j: int|
                0 <= j < i && axes@[j] == a) by {
                if a == axis {
                    assert(axes@[i - 1] == a);
                } else {
                    assert(marked@[a] == before[a]);
                    if before[a] {
                        let j = choose|j: int| 0 <= j < i - 1 && axes@[j] == a;
                        assert(axes@[j] == a);
                    }
                }
            }
            assert forall|j: int, k: int| 0 <= j < k < i implies axes@[j] != axes@[k] by {
                if k == i - 1 && axes@[j] == axes@[k] {
                    assert(before[axis as int]);
                }
            }
        }
    }
    proof {
        assert(axes@.no_duplicates());
        assert(marked@ =~= marks(rank as nat, axes@)) by {
            assert forall|a: int| 0 <= a < rank implies marked@[a] == axes@.contains(
                a as usize,
            ) by {
                if marked@[a] {
                    let j = choose|j: int| 0 <= j < axes@.len() && axes@[j] == a;
                    assert(axes@[j] == a as usize);
                }
            }
        }
    }
    Ok(marked)
}

impl CoordinateMap {
    /// The view without the named axes, each of which has a single index.
    pub fn squeeze(self, axes: Axes) -> (result: Result<Self>)
        requires
            self.wf(),
            squeeze_fits(self@.shape, axes@) ==> squeeze_base_fits(self@, axes@),
        ensures
            result is Ok <==> squeeze_fits(self@.shape, axes@),
            result matches Ok(map) ==> map@ == squeezed(self@, axes@) && map.wf(),
            result matches Err(error) ==> error is InvalidLayout,
    {
        let dims = self.shape.as_slice();
        let ndim: usize = dims.len();
        let names = axes.as_slice();
        if names.len() == 0 {
            return Err(
                Error::InvalidLayout("squeeze requires a non-empty list of axes".to_string()),
            );
        }
        if names.len() == ndim {
            return Err(
                Error::InvalidLayout(
                    "squeeze cannot remove every axis; rank-0 tensors are not supported".to_string(),
                ),
            );
        }
        let remove = mark_axes("squeeze axis ", names, ndim)?;
        let mut n: usize = 0;
        while n < names.len()
            invariant
                n <= names.len(),
                names@ == axes@,
                dims@ == self.shape@,
                distinct_axes(dims@.len(), names@),
                forall|j: int| 0 <= j < n ==> dims@[#[trigger] names@[j] as int] == 1,
            decreases names.len() - n,
        {
            let axis: usize = names[n];
            assert(names@[n as int] < dims@.len());
            if dims[axis] != 1 {
                return Err(
                    Error::InvalidLayout(
                        axis_message("cannot squeeze axis ", axis, " with dimension ").concat(
                            dims[axis].to_string().as_str(),
                        ),
                    ),
                );
            }
            n += 1;
        }
        let ghost map = self@;
        let ghost dropped = marks(ndim as nat, axes@);
        let mut base: i128 = self.base_offset;
        let mut axes_out: Vec<AxisContrib> = Vec::new();
        let mut shape_out: Vec<u64> = Vec::new();
        let mut i: usize = 0;
        proof {
            assert(contributions(axes_out@) =~= kept(map.axes.take(0), dropped.take(0)));
            assert(shape_out@ =~= kept(map.shape.take(0), dropped.take(0)));
        }
        while i < ndim
            invariant
                i <= ndim,
                ndim == dims.len(),
                dims@ == self.shape@,
                map == self@,
                self.wf(),
                squeeze_fits(map.shape, axes@),
                squeeze_base_fits(map, axes@),
                dropped == marks(ndim as nat, axes@),
                remove@ == dropped,
                base == squeeze_base(map.base, map.axes.take(i as int), dropped.take(i as int)),
                contributions(axes_out@) == kept(map.axes.take(i as int), dropped.take(i as int)),
                shape_out@ == kept(map.shape.take(i as int), dropped.take(i as int)),
                axes_out@.len() == shape_out@.len(),
                forall|q: int| 0 <= q < axes_out@.len() ==> (#[trigger] axes_out@[q]).wf(),
                forall|q: int|
                    0 <= q < axes_out@.len() ==> axis_has_extent(
                        (#[trigger] axes_out@[q])@,
                        shape_out@[q],
                    ),
            decreases ndim - i,
        {
            let ghost axes_before = contributions(axes_out@);
            let ghost shape_before = shape_out@;
            proof {
                assert(self.axes@[i as int].wf());
                assert(map.axes[i as int] == self.axes@[i as int]@);
                assert(axis_has_extent(map.axes[i as int], map.shape[i as int]));
                assert(dropped.take(i + 1).drop_last() =~= dropped.take(i as int));
                assert(map.axes.take(i + 1).drop_last() =~= map.axes.take(i as int));
                assert(map.shape.take(i + 1).drop_last() =~= map.shape.take(i as int));
                assert(fits(squeeze_base(map.base, map.axes.take(i + 1), dropped.take(i + 1))));
            }
            if remove[i] {
                proof {
                    let j = choose|j: int| 0 <= j < axes@.len() && axes@[j] == i;
                    assert(map.shape[axes@[j] as int] == 1);
                    assert(index_fits(map.axes[i as int], 0)) by {
                        if let Contribution::Stride(stride) = map.axes[i as int] {
                            assert(stride * 0 == 0);
                        }
                    }
                }
                let delta: i128 = slice_bound_at(&self.axes[i], 1, 0, i)?;
                base = base + delta;
            } else {
                axes_out.push(self.axes[i].clone());
                shape_out.push(dims[i]);
                proof {
                    assert(contributions(axes_out@) =~= axes_before.push(map.axes[i as int]));
                    assert(shape_out@ =~= shape_before.push(map.shape[i as int]));
                }
            }
            i += 1;
        }
        proof {
            assert(dropped.take(i as int) =~= dropped);
            assert(map.axes.take(i as int) =~= map.axes);
            assert(map.shape.take(i as int) =~= map.shape);
        }
        let result = CoordinateMap {
            base_offset: base,
            axes: axes_out,
            shape: Shape::from_vec(shape_out),
        };
        proof {
            assert forall|j: int| 0 <= j < result@.axes.len() implies axis_has_extent(
                #[trigger] result@.axes[j],
                result@.shape[j],
            ) by {
                assert(axis_has_extent(axes_out@[j]@, shape_out@[j]));
            }
        }
        Ok(result)
    }

    /// The view with axes of a single index put before the named ones.
    pub fn unsqueeze(self, axes: Axes) -> (result: Result<Self>)
        requires
            self.wf(),
        ensures
            result is Ok <==> {
                let shape = unsqueezed_shape(self@.shape, axes@);
                &&& axes@.len() > 0
                &&& distinct_axes(self@.shape.len(), axes@)
                &&& valid_dims(shape)
                &&& volume(shape.skip(1)) <= u64::MAX
            },
            result matches Ok(map) ==> map@ == unsqueezed(self@, axes@) && map.wf(),
            result matches Err(Error::InvalidLayout(_)) <==> !(axes@.len() > 0 && distinct_axes(
                self@.shape.len(),
                axes@,
            )),
            result matches Err(error) ==> error is InvalidLayout || error is InvalidSchema,
    {
        let dims = self.shape.as_slice();
        let ndim: usize = dims.len();
        let names = axes.as_slice();
        if names.len() == 0 {
            return Err(
                Error::InvalidLayout("unsqueeze requires a non-empty list of axes".to_string()),
            );
        }
        let insert_before = mark_axes("unsqueeze axis ", names, ndim)?;
        let ghost map = self@;
        let ghost inserted = marks(ndim as nat, axes@);
        let ghost target = spread(inserted);
        let mut layout: Vec<Option<usize>> = Vec::new();
        let mut i: usize = 0;
        while i < ndim
            invariant
                i <= ndim,
                inserted.len() == ndim,
                insert_before@ == inserted,
                layout@.len() == spread(inserted.take(i as int)).len(),
                forall|p: int|
                    0 <= p < layout@.len() ==> slot_of(#[trigger] layout@[p]) == spread(
                        inserted.take(i as int),
                    )[p],
                forall|p: int|
                    0 <= p < layout@.len() ==> ((#[trigger] layout@[p]) matches Some(axis) ==> axis
                        < i),
            decreases ndim - i,
        {
            proof {
                assert(inserted.take(i + 1).drop_last() =~= inserted.take(i as int));
                assert(inserted.take(i + 1).last() == inserted[i as int]);
            }
            if insert_before[i] {
                layout.push(None);
            }
            layout.push(Some(i));
            i += 1;
        }
        proof {
            assert(inserted.take(i as int) =~= inserted);
        }
        let mut shape_out: Vec<u64> = Vec::new();
        let mut p: usize = 0;
        while p < layout.len()
            invariant
                p <= layout.len(),
                dims@ == map.shape,
                ndim == dims.len(),
                inserted == marks(map.shape.len(), axes@),
                target == spread(inserted),
                layout@.len() == target.len(),
                forall|q: int| 0 <= q < layout@.len() ==> slot_of(#[trigger] layout@[q]) == target[q],
                forall|q: int|
                    0 <= q < layout@.len() ==> ((#[trigger] layout@[q]) matches Some(axis) ==> axis
                        < ndim),
                shape_out.len() == p,
                forall|q: int|
                    0 <= q < p ==> #[trigger] shape_out@[q] == unsqueezed_shape(
                        map.shape,
                        axes@,
                    )[q],
            decreases layout.len() - p,
        {
            assert(slot_of(layout@[p as int]) == target[p as int]);
            let dim: u64 = match layout[p] {
                None => 1,
                Some(axis) => dims[axis],
            };
            shape_out.push(dim);
            p += 1;
        }
        let shape = Shape::from_vec(shape_out);
        proof {
            assert(shape@ =~= unsqueezed_shape(map.shape, axes@));
        }
        let contiguous = contiguous_strides(shape.as_slice())?;
        let strides = contiguous.as_slice();
        let ghost result = unsqueezed(map, axes@);
        let mut axes_out: Vec<AxisContrib> = Vec::new();
        let mut p: usize = 0;
        while p < layout.len()
            invariant
                p <= layout.len(),
                self.wf(),
                map == self@,
                ndim == map.shape.len(),
                inserted == marks(map.shape.len(), axes@),
                target == spread(inserted),
                result == unsqueezed(map, axes@),
                shape@ == unsqueezed_shape(map.shape, axes@),
                are_strides(strides@, shape@),
                layout@.len() == target.len(),
                shape@.len() == target.len(),
                forall|q: int| 0 <= q < layout@.len() ==> slot_of(#[trigger] layout@[q]) == target[q],
                forall|q: int|
                    0 <= q < layout@.len() ==> ((#[trigger] layout@[q]) matches Some(axis) ==> axis
                        < ndim),
                axes_out.len() == p,
                forall|q: int| 0 <= q < p ==> (#[trigger] axes_out@[q])@ == result.axes[q],
                forall|q: int| 0 <= q < p ==> (#[trigger] axes_out@[q]).wf(),
                forall|q: int|
                    0 <= q < p ==> axis_has_extent((#[trigger] axes_out@[q])@, shape@[q]),
            decreases layout.len() - p,
        {
            proof {
                assert(slot_of(layout@[p as int]) == target[p as int]);
                assert(strides@[p as int] == volume(shape@.skip(p + 1)));
                if let Some(axis) = layout@[p as int] {
                    assert(self.axes@[axis as int].wf());
                    assert(map.axes[axis as int] == self.axes@[axis as int]@);
                    assert(axis_has_extent(map.axes[axis as int], map.shape[axis as int]));
                }
            }
            let axis = match layout[p] {
                None => AxisContrib::Stride(strides[p] as i128),
                Some(axis) => self.axes[axis].clone(),
            };
            axes_out.push(axis);
            p += 1;
        }
        let out = CoordinateMap { base_offset: self.base_offset, axes: axes_out, shape };
        proof {
            assert(out@.axes =~= result.axes);
            assert forall|j: int| 0 <= j < out@.axes.len() implies axis_has_extent(
                #[trigger] out@.axes[j],
                out@.shape[j],
            ) by {
                assert(axis_has_extent(axes_out@[j]@, shape@[j]));
            }
        }
        Ok(out)
    }
}

/// A place in the layout of new and old axes.
pub open spec fn slot_of(slot: Option<usize>) -> Option<int> {
    match slot {
        None => None,
        Some(axis) => Some(axis as int),
    }
}

/// A view that follows the axes of its tensor forwards: along each of its own axes it steps
/// along one axis of the tensor, and on the others it stays at an index.
#[derive(Debug)]
pub struct StorageSlice {
    /// Where the view starts on each axis of the tensor.
    pub origins: Vec<u64>,
    /// For each axis of the view, the axis of the tensor and the step along it.
    pub axes: Vec<(usize, u64)>,
}

/// An axis of the tensor is followed by the view.
pub open spec fn followed(axes: Seq<(usize, u64)>, base: int) -> bool {
    exists|i: int| 0 <= i < axes.len() && (#[trigger] axes[i]).0 == base
}

fn is_followed(axes: &[(usize, u64)], base: usize) -> (result: bool)
    ensures
        result == followed(axes@, base as int),
{
    let mut i: usize = 0;
    while i < axes.len()
        invariant
            i <= axes.len(),
            forall|j: int| 0 <= j < i ==> (#[trigger] axes@[j]).0 != base,
        decreases axes.len() - i,
    {
        if axes[i].0 == base {
            assert(axes@[i as int].0 == base);
            return true;
        }
        i += 1;
    }
    false
}

impl StorageSlice {
    /// Each followed axis is one of the tensor, and is stepped along.
    pub open spec fn wf(&self) -> bool {
        forall|i: int|
            0 <= i < self.axes@.len() ==> (#[trigger] self.axes@[i]).0 < self.origins@.len()
                && self.axes@[i].1 > 0
    }

    /// The whole tensor.
    pub fn identity(shape: &[u64]) -> (slice: Self)
        ensures
            slice.wf(),
            slice.origins@ == Seq::new(shape@.len(), |i: int| 0u64),
            slice.axes@ == Seq::new(shape@.len(), |i: int| (i as usize, 1u64)),
    {
        let origins: Vec<u64> = vec![0; shape.len()];
        let mut axes: Vec<(usize, u64)> = Vec::new();
        let mut i: usize = 0;
        while i < shape.len()
            invariant
                i <= shape.len(),
                axes.len() == i,
                forall|j: int| 0 <= j < i ==> #[trigger] axes@[j] == (j as usize, 1u64),
            decreases shape.len() - i,
        {
            axes.push((i, 1));
            i += 1;
        }
        proof {
            assert(origins@ =~= Seq::new(shape@.len(), |i: int| 0u64));
            assert(axes@ =~= Seq::new(shape@.len(), |i: int| (i as usize, 1u64)));
        }
        StorageSlice { origins, axes }
    }

    /// The indices of the view whose elements stand in a region of the tensor, if the axes
    /// that the view does not follow leave it any.
    pub fn bounds(&self, regions: &[(u64, u64)]) -> (bounds: Option<Vec<(u64, u64)>>)
        requires
            self.wf(),
            regions@.len() == self.origins@.len(),
        ensures
            bounds is Some <==> forall|base: int|
                0 <= base < regions@.len() && !followed(self.axes@, base) ==> (
                #[trigger] regions@[base]).0 <= self.origins@[base] < regions@[base].1,
            bounds matches Some(bounds) ==> {
                &&& bounds@.len() == self.axes@.len()
                &&& forall|i: int, index: int|
                    #![trigger bounds@[i], self.origins@[self.axes@[i].0 as int] + index
                        * self.axes@[i].1]
                    0 <= i < bounds@.len() && 0 <= index ==> (bounds@[i].0 <= index < bounds@[i].1
                        <==> regions@[self.axes@[i].0 as int].0
                        <= self.origins@[self.axes@[i].0 as int] + index * self.axes@[i].1
                        < regions@[self.axes@[i].0 as int].1)
                &&& forall|i: int|
                    0 <= i < bounds@.len() ==> bounds@[i].0 == ceil_gap(
                        regions@[self.axes@[i].0 as int].0,
                        self.origins@[self.axes@[i].0 as int],
                        self.axes@[i].1,
                    ) && (#[trigger] bounds@[i]).1 == ceil_gap(
                        regions@[self.axes@[i].0 as int].1,
                        self.origins@[self.axes@[i].0 as int],
                        self.axes@[i].1,
                    )
            },
    {
        let mut base: usize = 0;
        while base < regions.len()
            invariant
                base <= regions.len(),
                regions.len() == self.origins.len(),
                forall|b: int|
                    0 <= b < base && !followed(self.axes@, b) ==> (#[trigger] regions@[b]).0
                        <= self.origins@[b] < regions@[b].1,
            decreases regions.len() - base,
        {
            let (lo, hi) = regions[base];
            let origin: u64 = self.origins[base];
            if !is_followed(self.axes.as_slice(), base) && (origin < lo || origin >= hi) {
                assert(!(regions@[base as int].0 <= self.origins@[base as int]
                    < regions@[base as int].1));
                return None;
            }
            base += 1;
        }
        let mut bounds: Vec<(u64, u64)> = Vec::new();
        let mut i: usize = 0;
        while i < self.axes.len()
            invariant
                i <= self.axes.len(),
                self.wf(),
                regions.len() == self.origins.len(),
                bounds.len() == i,
                forall|j: int|
                    0 <= j < i ==> bounds@[j].0 == ceil_gap(
                        regions@[self.axes@[j].0 as int].0,
                        self.origins@[self.axes@[j].0 as int],
                        self.axes@[j].1,
                    ) && (#[trigger] bounds@[j]).1 == ceil_gap(
                        regions@[self.axes@[j].0 as int].1,
                        self.origins@[self.axes@[j].0 as int],
                        self.axes@[j].1,
                    ),
            decreases self.axes.len() - i,
        {
            let (base, step) = self.axes[i];
            assert(self.axes@[i as int].1 > 0);
            let (lo, hi) = regions[base];
            let origin: u64 = self.origins[base];
            bounds.push(
                (
                    div_ceil(lo.saturating_sub(origin), step),
                    div_ceil(hi.saturating_sub(origin), step),
                ),
            );
            i += 1;
        }
        proof {
            assert forall|i: int, index: int|
                #![trigger bounds@[i], self.origins@[self.axes@[i].0 as int] + index
                    * self.axes@[i].1]
                0 <= i < bounds@.len() && 0 <= index implies (bounds@[i].0 <= index < bounds@[i].1
                <==> regions@[self.axes@[i].0 as int].0 <= self.origins@[self.axes@[i].0 as int]
                + index * self.axes@[i].1 < regions@[self.axes@[i].0 as int].1) by {
                let base = self.axes@[i].0 as int;
                let step = self.axes@[i].1;
                assert(step > 0);
                lemma_ceil_gap(regions@[base].0, self.origins@[base], step, index);
                lemma_ceil_gap(regions@[base].1, self.origins@[base], step, index);
            }
        }
        Some(bounds)
    }
}

/// How many steps from an origin reach a mark.
pub open spec fn ceil_gap(mark: u64, origin: u64, step: u64) -> int {
    ceil_div(
        if mark <= origin {
            0
        } else {
            mark - origin
        },
        step as int,
    )
}

pub proof fn lemma_ceil_gap(mark: u64, origin: u64, step: u64, index: int)
    requires
        step > 0,
        index >= 0,
    ensures
        ceil_gap(mark, origin, step) <= index <==> mark <= origin + index * step,
{
    let gap = if mark <= origin {
        0
    } else {
        mark - origin
    };
    let q = ceil_div(gap, step as int);
    lemma_ceil_div(gap, step as int);
    assert(q <= index <==> gap <= index * step) by (nonlinear_arith)
        requires
            step > 0,
            index >= 0,
            0 <= gap,
            0 <= q <= gap,
            gap > 0 ==> q > 0,
            (q - 1) * step < gap <= q * step || gap == 0,
    ;
    assert(0 <= index * step) by (nonlinear_arith)
        requires
            step > 0,
            index >= 0,
    ;
}

/// A stride of the view is so many steps along an axis of the tensor, and the view ends
/// within it.
pub open spec fn base_fits(
    stride: int,
    dim: u64,
    shape: Seq<u64>,
    strides: Seq<u64>,
    origins: Seq<u64>,
    base: int,
) -> bool {
    &&& stride % strides[base] as int == 0
    &&& origins[base] + (stride / strides[base] as int) * (dim - 1) < shape[base]
}

/// The last axis of the tensor, up to one, that a stride can follow and that is still free.
pub open spec fn last_base(
    stride: int,
    dim: u64,
    shape: Seq<u64>,
    strides: Seq<u64>,
    origins: Seq<u64>,
    taken: Seq<(usize, u64)>,
    below: int,
) -> Option<int>
    decreases below,
{
    if below <= 0 {
        None
    } else if !followed(taken, below - 1) && base_fits(
        stride,
        dim,
        shape,
        strides,
        origins,
        below - 1,
    ) {
        Some(below - 1)
    } else {
        last_base(stride, dim, shape, strides, origins, taken, below - 1)
    }
}

/// The axes of the tensor that the axes of a view follow, each the last that it can, unless
/// one finds none.
pub open spec fn followed_axes(
    map: Mapping,
    shape: Seq<u64>,
    strides: Seq<u64>,
    origins: Seq<u64>,
    n: nat,
) -> Option<Seq<(usize, u64)>>
    decreases n,
{
    if n == 0 {
        Some(Seq::empty())
    } else {
        match followed_axes(map, shape, strides, origins, (n - 1) as nat) {
            None => None,
            Some(taken) => match map.axes[n - 1] {
                Contribution::Stride(stride) => if 0 < stride <= u64::MAX {
                    match last_base(
                        stride,
                        map.shape[n - 1],
                        shape,
                        strides,
                        origins,
                        taken,
                        shape.len() as int,
                    ) {
                        Some(base) => Some(
                            taken.push((base as usize, (stride / strides[base] as int) as u64)),
                        ),
                        None => None,
                    }
                } else {
                    None
                },
                _ => None,
            },
        }
    }
}

/// The first coordinate of a shape.
pub open spec fn origin_of(rank: nat) -> Seq<u64> {
    Seq::new(rank, |i: int| 0u64)
}

impl CoordinateMap {
    /// The view as one that follows the axes of its tensor, if it is.
    pub fn storage_slice(&self, shape: &[u64], strides: &[u64]) -> (result: Result<
        Option<StorageSlice>,
    >)
        requires
            self.tables_wf(),
        ensures
            result is Ok <==> resolves(self@, origin_of(self@.shape.len()), shape@, strides@),
            result matches Ok(slice) ==> {
                let origins = unravel(
                    offset_at(self@, origin_of(self@.shape.len())),
                    shape@,
                    strides@,
                );
                let axes = followed_axes(self@, shape@, strides@, origins, self@.axes.len());
                &&& slice is Some <==> axes is Some
                &&& slice matches Some(slice) ==> slice.wf() && slice.origins@ == origins
                    && slice.axes@ == axes->0
            },
            result matches Err(error) ==> error is InvalidCoord,
    {
        let dims = self.shape.as_slice();
        let zeros: Vec<u64> = vec![0; dims.len()];
        proof {
            assert(zeros@ =~= origin_of(self@.shape.len()));
        }
        let origins = self.resolve(zeros.as_slice(), shape, strides)?;
        let ghost map = self@;
        proof {
            lemma_volume_positive(shape@);
            assert forall|i: int| 0 <= i < dims@.len() implies #[trigger] dims@[i] > 0 by {
                assert(zeros@[i] < map.shape[i]);
            }
            assert forall|b: int| 0 <= b < shape@.len() implies #[trigger] origins@[b]
                < shape@[b] by {
                assert(shape@[b] > 0);
                assert(strides@[b] > 0);
                vstd::arithmetic::div_mod::lemma_mod_bound(
                    offset_at(map, zeros@) / strides@[b] as int,
                    shape@[b] as int,
                );
            }
        }
        let mut axes: Vec<(usize, u64)> = Vec::new();
        let mut i: usize = 0;
        while i < self.axes.len()
            invariant
                i <= self.axes.len(),
                map == self@,
                dims@ == map.shape,
                self.axes@.len() == dims@.len(),
                strides.len() == shape.len(),
                all_positive(strides@),
                all_positive(dims@),
                origins@.len() == shape.len(),
                forall|b: int| 0 <= b < shape@.len() ==> #[trigger] origins@[b] < shape@[b],
                origins@ == unravel(
                    offset_at(self@, origin_of(self@.shape.len())),
                    shape@,
                    strides@,
                ),
                resolves(self@, origin_of(self@.shape.len()), shape@, strides@),
                followed_axes(map, shape@, strides@, origins@, i as nat) == Some(axes@),
                forall|j: int|
                    0 <= j < axes@.len() ==> (#[trigger] axes@[j]).0 < origins@.len() && axes@[j].1
                        > 0,
            decreases self.axes.len() - i,
        {
            let dim: u64 = dims[i];
            proof {
                assert(map.axes[i as int] == self.axes@[i as int]@);
                assert(dims@[i as int] > 0);
                lemma_followed_none(map, shape@, strides@, origins@, i as nat + 1, map.axes.len());
            }
            let stride: u64 = match &self.axes[i] {
                AxisContrib::Stride(stride) => {
                    if *stride <= 0 || *stride > u64::MAX as i128 {
                        return Ok(None);
                    }
                    *stride as u64
                },
                _ => {
                    return Ok(None);
                },
            };
            let mut below: usize = shape.len();
            let mut base: Option<usize> = None;
            while below > 0 && base.is_none()
                invariant
                    below <= shape.len(),
                    strides.len() == shape.len(),
                    origins@.len() == shape.len(),
                    all_positive(strides@),
                    dim > 0,
                    stride > 0,
                    forall|b: int| 0 <= b < shape@.len() ==> #[trigger] origins@[b] < shape@[b],
                    match base {
                        Some(base) => {
                            &&& base < shape.len()
                            &&& stride / strides@[base as int] > 0
                            &&& last_base(
                                stride as int,
                                dim,
                                shape@,
                                strides@,
                                origins@,
                                axes@,
                                shape@.len() as int,
                            ) == Some(base as int)
                        },
                        None => last_base(
                            stride as int,
                            dim,
                            shape@,
                            strides@,
                            origins@,
                            axes@,
                            shape@.len() as int,
                        ) == last_base(
                            stride as int,
                            dim,
                            shape@,
                            strides@,
                            origins@,
                            axes@,
                            below as int,
                        ),
                    },
                decreases below,
            {
                below -= 1;
                let unit: u64 = strides[below];
                assert(strides@[below as int] > 0);
                if !is_followed(axes.as_slice(), below) && stride % unit == 0 {
                    let last: Option<u64> = match (stride / unit).checked_mul(dim - 1) {
                        Some(delta) => origins[below].checked_add(delta),
                        None => None,
                    };
                    proof {
                        let q = stride as int / unit as int;
                        assert(q > 0) by (nonlinear_arith)
                            requires
                                q == stride as int / unit as int,
                                stride as int % unit as int == 0,
                                stride > 0,
                                unit > 0,
                        ;
                        assert(0 <= q * (dim - 1)) by (nonlinear_arith)
                            requires
                                q > 0,
                                dim > 0,
                        ;
                    }
                    if let Some(last) = last {
                        if last < shape[below] {
                            base = Some(below);
                        }
                    }
                }
            }
            match base {
                Some(base) => {
                    axes.push((base, stride / strides[base]));
                },
                None => {
                    return Ok(None);
                },
            }
            i += 1;
        }
        Ok(Some(StorageSlice { origins, axes }))
    }
}

proof fn lemma_followed_none(
    map: Mapping,
    shape: Seq<u64>,
    strides: Seq<u64>,
    origins: Seq<u64>,
    n: nat,
    m: nat,
)
    requires
        n <= m,
    ensures
        followed_axes(map, shape, strides, origins, n) is None ==> followed_axes(
            map,
            shape,
            strides,
            origins,
            m,
        ) is None,
    decreases m,
{
    if n < m {
        lemma_followed_none(map, shape, strides, origins, n, (m - 1) as nat);
    }
}

} // verus!
