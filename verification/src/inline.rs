//! Short vectors of dimensions, axes and bounds, kept inline up to the portable rank.
//!
//! They are `smallvec` vectors. What one holds is named, and the few operations that the
//! library needs are stated over that name; running out of memory aside, none of them fails.

use vstd::prelude::*;
use vstd::slice::slice_to_vec;
use smallvec::SmallVec;

verus! {

/// Up to this rank, geometry needs no allocation.
pub const PORTABLE_INLINE_RANK: usize = 8;

/// Dimensions, strides or the components of a coordinate, in axis order.
#[verifier::external_body]
#[derive(Debug, PartialEq, Eq)]
pub struct Shape {
    inner: SmallVec<[u64; PORTABLE_INLINE_RANK]>,
}

pub type Strides = Shape;

pub type Coord = Shape;

/// The numbers that a shape holds.
pub uninterp spec fn items(vector: Shape) -> Seq<u64>;

impl View for Shape {
    type V = Seq<u64>;

    open spec fn view(&self) -> Seq<u64> {
        items(*self)
    }
}

impl Shape {
    /// `SmallVec::from_vec`: the same items in the same order.
    #[verifier::external_body]
    fn take_vec(vector: Vec<u64>) -> (shape: Self)
        ensures
            items(shape) == vector@,
    {
        Shape { inner: SmallVec::from_vec(vector) }
    }

    /// `SmallVec::from_slice`: a copy of the items in the same order.
    #[verifier::external_body]
    fn copy_slice(slice: &[u64]) -> (shape: Self)
        ensures
            items(shape) == slice@,
    {
        Shape { inner: SmallVec::from_slice(slice) }
    }

    /// `SmallVec::as_slice`: the items in order.
    #[verifier::external_body]
    fn borrow_slice(&self) -> (slice: &[u64])
        ensures
            slice@ == items(*self),
    {
        self.inner.as_slice()
    }

    /// `SmallVec::resize`: cut down to `len` items, or filled up to it with `value`.
    #[verifier::external_body]
    pub(crate) fn resize(&mut self, len: usize, value: u64)
        ensures
            items(*final(self)) == Seq::new(
                len as nat,
                |i: int|
                    if i < items(*old(self)).len() {
                        items(*old(self))[i]
                    } else {
                        value
                    },
            ),
    {
        self.inner.resize(len, value)
    }

    /// `SmallVec::as_mut_slice`, and a write at an index: the item there is `value`, the
    /// others stay.
    #[verifier::external_body]
    pub(crate) fn set(&mut self, index: usize, value: u64)
        requires
            index < items(*old(self)).len(),
        ensures
            items(*final(self)) == items(*old(self)).update(index as int, value),
    {
        self.inner.as_mut_slice()[index] = value
    }

    /// `SmallVec::push`: one more item at the end.
    #[verifier::external_body]
    pub(crate) fn push(&mut self, value: u64)
        ensures
            items(*final(self)) == items(*old(self)).push(value),
    {
        self.inner.push(value)
    }

    /// `SmallVec::clear`: nothing is left.
    #[verifier::external_body]
    pub(crate) fn clear(&mut self)
        ensures
            items(*final(self)).len() == 0,
    {
        self.inner.clear()
    }

    /// `SmallVec::extend_from_slice`: the slice's items follow those already there.
    #[verifier::external_body]
    pub(crate) fn extend_from_slice(&mut self, slice: &[u64])
        ensures
            items(*final(self)) == items(*old(self)) + slice@,
    {
        self.inner.extend_from_slice(slice)
    }

    pub fn new() -> (shape: Self)
        ensures
            shape@ == Seq::<u64>::empty(),
    {
        Self::take_vec(Vec::new())
    }

    pub fn from_vec(vector: Vec<u64>) -> (shape: Self)
        ensures
            shape@ == vector@,
    {
        Self::take_vec(vector)
    }

    pub fn from_slice(slice: &[u64]) -> (shape: Self)
        ensures
            shape@ == slice@,
    {
        Self::copy_slice(slice)
    }

    pub fn as_slice(&self) -> (slice: &[u64])
        ensures
            slice@ == self@,
    {
        self.borrow_slice()
    }

    pub fn len(&self) -> (len: usize)
        ensures
            len == self@.len(),
    {
        self.borrow_slice().len()
    }
}

impl Clone for Shape {
    fn clone(&self) -> (shape: Self)
        ensures
            shape@ == self@,
    {
        Self::copy_slice(self.borrow_slice())
    }
}

/// Axis numbers.
#[verifier::external_body]
#[derive(Debug, PartialEq, Eq)]
pub struct Axes {
    inner: SmallVec<[usize; PORTABLE_INLINE_RANK]>,
}

/// The axis numbers that a list of axes holds.
pub uninterp spec fn axis_items(vector: Axes) -> Seq<usize>;

impl View for Axes {
    type V = Seq<usize>;

    open spec fn view(&self) -> Seq<usize> {
        axis_items(*self)
    }
}

impl Axes {
    /// `SmallVec::from_vec`: the same items in the same order.
    #[verifier::external_body]
    fn take_vec(vector: Vec<usize>) -> (axes: Self)
        ensures
            axis_items(axes) == vector@,
    {
        Axes { inner: SmallVec::from_vec(vector) }
    }

    /// `SmallVec::as_slice`: the items in order.
    #[verifier::external_body]
    fn borrow_slice(&self) -> (slice: &[usize])
        ensures
            slice@ == axis_items(*self),
    {
        self.inner.as_slice()
    }

    pub fn from_vec(vector: Vec<usize>) -> (axes: Self)
        ensures
            axes@ == vector@,
    {
        Self::take_vec(vector)
    }

    pub fn as_slice(&self) -> (slice: &[usize])
        ensures
            slice@ == self@,
    {
        self.borrow_slice()
    }
}

/// A bound on one axis: one index, a half-open interval with a step, or a list of indices.
#[derive(Debug, PartialEq, Eq)]
pub enum AxisRange {
    At(u64),
    In(u64, u64, u64),
    Of(Vec<u64>),
}

/// A bound by its contents.
pub enum Bound {
    At(u64),
    In(u64, u64, u64),
    Of(Seq<u64>),
}

impl View for AxisRange {
    type V = Bound;

    open spec fn view(&self) -> Bound {
        match *self {
            AxisRange::At(index) => Bound::At(index),
            AxisRange::In(start, stop, step) => Bound::In(start, stop, step),
            AxisRange::Of(indices) => Bound::Of(indices@),
        }
    }
}

impl Clone for AxisRange {
    fn clone(&self) -> (bound: Self)
        ensures
            bound@ == self@,
    {
        match self {
            AxisRange::At(index) => AxisRange::At(*index),
            AxisRange::In(start, stop, step) => AxisRange::In(*start, *stop, *step),
            AxisRange::Of(indices) => AxisRange::Of(slice_to_vec(indices.as_slice())),
        }
    }
}

/// One bound per axis.
#[verifier::external_body]
#[derive(Debug, PartialEq, Eq)]
pub struct Range {
    inner: SmallVec<[AxisRange; PORTABLE_INLINE_RANK]>,
}

/// The bounds that a range holds.
pub uninterp spec fn bound_items(vector: Range) -> Seq<Bound>;

impl View for Range {
    type V = Seq<Bound>;

    open spec fn view(&self) -> Seq<Bound> {
        bound_items(*self)
    }
}

/// The contents of a list of bounds.
pub open spec fn bounds_of(ranges: Seq<AxisRange>) -> Seq<Bound> {
    Seq::new(ranges.len(), |i: int| ranges[i]@)
}

impl Range {
    /// `SmallVec::from_vec`: the same items in the same order.
    #[verifier::external_body]
    fn take_vec(vector: Vec<AxisRange>) -> (range: Self)
        ensures
            bound_items(range) == bounds_of(vector@),
    {
        Range { inner: SmallVec::from_vec(vector) }
    }

    /// `SmallVec::as_slice`: the items in order.
    #[verifier::external_body]
    fn borrow_slice(&self) -> (slice: &[AxisRange])
        ensures
            bounds_of(slice@) == bound_items(*self),
    {
        self.inner.as_slice()
    }

    pub fn from_vec(vector: Vec<AxisRange>) -> (range: Self)
        ensures
            range@ == bounds_of(vector@),
    {
        Self::take_vec(vector)
    }

    pub fn as_slice(&self) -> (slice: &[AxisRange])
        ensures
            bounds_of(slice@) == self@,
    {
        self.borrow_slice()
    }
}

impl Clone for Range {
    fn clone(&self) -> (range: Self)
        ensures
            range@ == self@,
    {
        let bounds = self.borrow_slice();
        let mut copy: Vec<AxisRange> = Vec::new();
        let mut i: usize = 0;
        while i < bounds.len()
            invariant
                i <= bounds.len(),
                copy.len() == i,
                forall|j: int| 0 <= j < i ==> (#[trigger] copy@[j])@ == bounds@[j]@,
            decreases bounds.len() - i,
        {
            copy.push(bounds[i].clone());
            i += 1;
        }
        proof {
            assert(bounds_of(copy@) =~= bounds_of(bounds@));
        }
        Self::take_vec(copy)
    }
}

impl Clone for Axes {
    fn clone(&self) -> (axes: Self)
        ensures
            axes@ == self@,
    {
        Self::from_vec(slice_to_vec(self.as_slice()))
    }
}

/// A copy of an order of axes, where there is one.
pub(crate) fn copy_order(order: &Option<Axes>) -> (copy: Option<Axes>)
    ensures
        match (*order, copy) {
            (Some(order), Some(copy)) => copy@ == order@,
            (None, None) => true,
            _ => false,
        },
{
    match order {
        Some(axes) => Some(axes.clone()),
        None => None,
    }
}

} // verus!
