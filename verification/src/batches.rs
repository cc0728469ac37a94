//! Walks over coordinates, cut into bounded batches.

use vstd::prelude::*;
use vstd::slice::slice_to_vec;
use vstd::std_specs::iter::IteratorSpec;
use crate::error::{Error, Result};
use crate::expression::MAX_BATCH_ELEMENTS;
use crate::inline::{Axes, AxisRange, Bound, bounds_of, Range};
use crate::request::{
    BatchRequest, coords_of, LinearRequests, linear_requests, Requested, tile_grid, TiledRequests,
    tiled_requests,
};
use crate::geometry::volume;
use crate::schema::{Layout, valid_dims, validate_shape_dims};
use crate::sorted::{increasing, insert_unique};
use crate::traits::TensorGeometry;
use crate::validate::{iter_range_coords, range_coords, range_fits, range_volume, RangeCoords};

verus! {

/// Coordinates taken from an iterator, batch by batch. No more are taken than a batch holds.
pub struct CoordinateBatches<I> {
    coords: I,
}

/// Cut an iterator of coordinates into batches.
pub fn coordinate_batches<I: Iterator<Item = Vec<u64>>>(coords: I) -> (batches: CoordinateBatches<I>)
    ensures
        batches.spec_coords() == coords,
{
    CoordinateBatches { coords }
}

/// How many items the next batch takes of so many.
pub open spec fn batch_len(left: nat) -> nat {
    if left <= MAX_BATCH_ELEMENTS {
        left
    } else {
        MAX_BATCH_ELEMENTS as nat
    }
}

impl<I: Iterator<Item = Vec<u64>>> CoordinateBatches<I> {
    pub closed spec fn spec_coords(&self) -> I {
        self.coords
    }

    /// The next batch, until the iterator has ended.
    pub fn next(&mut self) -> (batch: Option<Vec<Vec<u64>>>)
        ensures
            batch matches Some(batch) ==> 0 < batch@.len() <= MAX_BATCH_ELEMENTS,
            final(self).spec_coords().obeys_prophetic_iter_laws() == old(
                self,
            ).spec_coords().obeys_prophetic_iter_laws(),
            old(self).spec_coords().obeys_prophetic_iter_laws() ==> match batch {
                Some(batch) => {
                    &&& batch@.len() == batch_len(old(self).spec_coords().remaining().len())
                    &&& old(self).spec_coords().remaining() == batch@
                        + final(self).spec_coords().remaining()
                },
                None => old(self).spec_coords().remaining().len() == 0,
            },
    {
        let mut batch: Vec<Vec<u64>> = Vec::new();
        let mut ended = false;
        while batch.len() < MAX_BATCH_ELEMENTS && !ended
            invariant
                batch.len() <= MAX_BATCH_ELEMENTS,
                self.coords.obeys_prophetic_iter_laws() == old(
                    self,
                ).coords.obeys_prophetic_iter_laws(),
                self.coords.obeys_prophetic_iter_laws() ==> old(self).coords.remaining() == batch@
                    + self.coords.remaining(),
                self.coords.obeys_prophetic_iter_laws() && ended ==> self.coords.remaining().len()
                    == 0,
            decreases
                    MAX_BATCH_ELEMENTS - batch.len() + if ended {
                        0int
                    } else {
                        1
                    },
        {
            match self.coords.next() {
                Some(coord) => {
                    batch.push(coord);
                },
                None => {
                    ended = true;
                },
            }
            assert(self.coords.obeys_prophetic_iter_laws() ==> old(self).coords.remaining()
                =~= batch@ + self.coords.remaining());
        }
        if batch.len() == 0 {
            None
        } else {
            Some(batch)
        }
    }

    /// The next batch as a request.
    pub fn next_request(&mut self) -> (request: Option<BatchRequest>)
        ensures
            request matches Some(request) ==> request.wf() && request.spec_len() > 0,
            final(self).spec_coords().obeys_prophetic_iter_laws() == old(
                self,
            ).spec_coords().obeys_prophetic_iter_laws(),
            old(self).spec_coords().obeys_prophetic_iter_laws() ==> match request {
                Some(request) => {
                    let count = batch_len(old(self).spec_coords().remaining().len());
                    &&& request@ == Requested::Explicit(
                        coords_of(old(self).spec_coords().remaining().take(count as int)),
                    )
                    &&& final(self).spec_coords().remaining() == old(
                        self,
                    ).spec_coords().remaining().skip(count as int)
                },
                None => old(self).spec_coords().remaining().len() == 0,
            },
    {
        match self.next() {
            Some(batch) => {
                assert(self.coords.obeys_prophetic_iter_laws() ==> batch@ =~= old(
                    self,
                ).coords.remaining().take(batch@.len() as int));
                assert(self.coords.obeys_prophetic_iter_laws() ==> self.coords.remaining() =~= old(
                    self,
                ).coords.remaining().skip(batch@.len() as int));
                match BatchRequest::explicit(batch) {
                    Ok(request) => {
                        proof {
                            request.lemma_wf();
                        }
                        Some(request)
                    },
                    Err(_) => None,
                }
            },
            None => None,
        }
    }
}

/// The coordinates of a range, batch by batch.
pub struct RangeRequests {
    coords: RangeCoords,
}

/// Request the coordinates of a range, batch by batch.
pub fn explicit_requests(coords: RangeCoords) -> (requests: RangeRequests)
    requires
        coords.wf(),
    ensures
        requests.wf(),
        requests.spec_range() == coords.spec_range(),
        requests.position() == coords.position(),
{
    RangeRequests { coords }
}

impl RangeRequests {
    pub closed spec fn spec_range(&self) -> Seq<Bound> {
        self.coords.spec_range()
    }

    /// How many coordinates were requested.
    pub closed spec fn position(&self) -> int {
        self.coords.position()
    }

    pub closed spec fn wf(&self) -> bool {
        self.coords.wf()
    }

    /// The next request, until all coordinates are requested.
    pub fn next(&mut self) -> (request: Option<BatchRequest>)
        requires
            old(self).wf(),
        ensures
            final(self).wf(),
            final(self).spec_range() == old(self).spec_range(),
            match request {
                Some(request) => {
                    let from = old(self).position();
                    let to = final(self).position();
                    let all = range_coords(old(self).spec_range());
                    &&& request.wf()
                    &&& 0 <= from < to <= all.len()
                    &&& to == all.len() || to - from == MAX_BATCH_ELEMENTS
                    &&& request@ == Requested::Explicit(all.subrange(from, to))
                },
                None => {
                    &&& old(self).position() == range_coords(old(self).spec_range()).len()
                    &&& final(self).position() == old(self).position()
                },
            },
    {
        let ghost range = self.coords.spec_range();
        let ghost all = range_coords(range);
        let ghost from = self.coords.position();
        let mut batch: Vec<Vec<u64>> = Vec::new();
        let mut ended = false;
        proof {
            self.coords.lemma_position();
            assert(coords_of(batch@) =~= all.subrange(from, from));
        }
        while batch.len() < MAX_BATCH_ELEMENTS && !ended
            invariant
                batch.len() <= MAX_BATCH_ELEMENTS,
                self.coords.wf(),
                self.coords.spec_range() == range,
                all == range_coords(range),
                all.len() == range_volume(range),
                self.coords.position() == from + batch.len(),
                0 <= from,
                from + batch.len() <= all.len(),
                coords_of(batch@) == all.subrange(from, from + batch.len()),
                ended ==> from + batch.len() == all.len(),
            decreases
                    MAX_BATCH_ELEMENTS - batch.len() + if ended {
                        0int
                    } else {
                        1
                    },
        {
            let ghost n = batch.len() as int;
            let ghost before = batch@;
            match self.coords.next() {
                Some(coord) => {
                    batch.push(coord);
                    proof {
                        assert(coords_of(batch@) =~= coords_of(before).push(coord@));
                        assert(coords_of(batch@) =~= all.subrange(from, from + batch.len()));
                    }
                },
                None => {
                    ended = true;
                },
            }
        }
        if batch.len() == 0 {
            return None;
        }
        match BatchRequest::explicit(batch) {
            Ok(request) => Some(request),
            Err(_) => None,
        }
    }
}

/// A list of numbers in order, each once.
pub open spec fn sorted_set(values: Seq<u64>) -> Seq<u64> {
    choose|sorted: Seq<u64>| #[trigger] is_sorted_set(values, sorted)
}

/// The second list holds the numbers of the first in order, each once.
pub open spec fn is_sorted_set(values: Seq<u64>, sorted: Seq<u64>) -> bool {
    increasing(sorted) && forall|v: u64| #[trigger] sorted.contains(v) <==> values.contains(v)
}

/// There is one way to list numbers in order, each once.
pub proof fn sorted_sets_are_unique(values: Seq<u64>, a: Seq<u64>, b: Seq<u64>)
    requires
        is_sorted_set(values, a),
        is_sorted_set(values, b),
    ensures
        a == b,
{
    lemma_same_members(a, b);
}

proof fn lemma_same_members(a: Seq<u64>, b: Seq<u64>)
    requires
        increasing(a),
        increasing(b),
        forall|v: u64| #[trigger] a.contains(v) <==> b.contains(v),
    ensures
        a == b,
    decreases a.len(),
{
    if a.len() == 0 {
        if b.len() > 0 {
            assert(b.contains(b[0]));
            assert(a.contains(b[0]));
        }
        assert(a =~= b);
    } else {
        assert(a.contains(a[0]));
        assert(b.contains(a[0]));
        let x = a[a.len() - 1];
        assert(a.contains(x));
        assert(b.contains(x));
        let y = b[b.len() - 1];
        assert(b.contains(y));
        assert(a.contains(y));
        let i = choose|i: int| 0 <= i < b.len() && b[i] == x;
        let j = choose|j: int| 0 <= j < a.len() && a[j] == y;
        assert(i < b.len() - 1 ==> b[i] < b[b.len() - 1]);
        assert(j < a.len() - 1 ==> a[j] < a[a.len() - 1]);
        assert(x == y);
        let p = a.drop_last();
        let q = b.drop_last();
        assert forall|v: u64| #[trigger] p.contains(v) <==> q.contains(v) by {
            if p.contains(v) {
                let k = choose|k: int| 0 <= k < p.len() && p[k] == v;
                assert(a[k] == v && a[k] < a[a.len() - 1]);
                assert(a.contains(v));
                assert(b.contains(v));
                let m = choose|m: int| 0 <= m < b.len() && b[m] == v;
                assert(q[m] == v);
            }
            if q.contains(v) {
                let k = choose|k: int| 0 <= k < q.len() && q[k] == v;
                assert(b[k] == v && b[k] < b[b.len() - 1]);
                assert(b.contains(v));
                assert(a.contains(v));
                let m = choose|m: int| 0 <= m < a.len() && a[m] == v;
                assert(p[m] == v);
            }
        }
        lemma_same_members(p, q);
        assert(a =~= p.push(x));
        assert(b =~= q.push(y));
    }
}

/// Sort a list of numbers, and drop those that occur again.
fn sort_dedup(values: &[u64]) -> (sorted: Vec<u64>)
    ensures
        sorted@ == sorted_set(values@),
        is_sorted_set(values@, sorted@),
{
    let mut sorted: Vec<u64> = Vec::new();
    let mut i: usize = 0;
    while i < values.len()
        invariant
            i <= values.len(),
            increasing(sorted@),
            forall|v: u64| #[trigger] sorted@.contains(v) <==> values@.take(i as int).contains(v),
        decreases values.len() - i,
    {
        let ghost before = sorted@;
        insert_unique(&mut sorted, values[i]);
        proof {
            let less = values@.take(i as int);
            let more = values@.take(i + 1);
            assert forall|v: u64| #[trigger] sorted@.contains(v) <==> more.contains(v) by {
                if before.contains(v) {
                    assert(less.contains(v));
                    let k = choose|k: int| 0 <= k < less.len() && less[k] == v;
                    assert(more[k] == v);
                }
                if v == values@[i as int] {
                    assert(more[i as int] == v);
                }
                if more.contains(v) && v != values@[i as int] {
                    let k = choose|k: int| 0 <= k < more.len() && more[k] == v;
                    assert(less[k] == v);
                    assert(less.contains(v));
                    assert(before.contains(v));
                }
            }
        }
        i += 1;
    }
    proof {
        assert(values@.take(i as int) =~= values@);
        assert(is_sorted_set(values@, sorted@));
        sorted_sets_are_unique(values@, sorted@, sorted_set(values@));
    }
    sorted
}

/// A range as a set of coordinates: what a list selects does not depend on its order.
pub open spec fn as_sets(range: Seq<Bound>) -> Seq<Bound> {
    Seq::new(
        range.len(),
        |i: int|
            match range[i] {
                Bound::Of(indices) => Bound::Of(sorted_set(indices)),
                _ => range[i],
            },
    )
}

fn set_range(range: &Range) -> (sets: Range)
    ensures
        sets@ == as_sets(range@),
{
    let bounds = range.as_slice();
    let mut sets: Vec<AxisRange> = Vec::new();
    let mut i: usize = 0;
    while i < bounds.len()
        invariant
            i <= bounds.len(),
            bounds_of(bounds@) == range@,
            sets.len() == i,
            forall|j: int| 0 <= j < i ==> (#[trigger] sets@[j])@ == as_sets(range@)[j],
        decreases bounds.len() - i,
    {
        let bound = match &bounds[i] {
            AxisRange::Of(indices) => AxisRange::Of(sort_dedup(indices.as_slice())),
            other => other.clone(),
        };
        assert(range@[i as int] == bounds@[i as int]@);
        sets.push(bound);
        i += 1;
    }
    assert(bounds_of(sets@) =~= as_sets(range@));
    Range::from_vec(sets)
}

/// The axes in their order.
pub open spec fn base_order(rank: nat) -> Seq<usize> {
    Seq::new(rank, |i: int| i as usize)
}

/// The coordinates of a range of a sparse tensor, in row-major order. No other order is offered.
pub fn sparse_coords<V: TensorGeometry>(tensor: &V, range: &Range, requested_order: &Axes) -> (result:
    Result<RangeCoords>)
    ensures
        result is Ok <==> {
            &&& requested_order@ == base_order(tensor.spec_shape().len())
            &&& tensor.spec_layout() is Sparse
            &&& valid_dims(tensor.spec_shape())
            &&& range_fits(as_sets(range@), tensor.spec_shape())
            &&& range_volume(as_sets(range@)) <= u64::MAX
        },
        result matches Ok(walk) ==> walk.wf() && walk.spec_range() == as_sets(range@)
            && walk.position() == 0,
        match result {
            Err(Error::UnsupportedSparseIterationOrder { requested_order: asked, base_order: base, .. }) => {
                &&& asked@ == requested_order@
                &&& base@ == base_order(tensor.spec_shape().len())
                &&& asked@ != base@
            },
            _ => requested_order@ == base_order(tensor.spec_shape().len()),
        },
        (result matches Err(Error::Unsupported(_))) <==> requested_order@ == base_order(
            tensor.spec_shape().len(),
        ) && !(tensor.spec_layout() is Sparse),
        (result matches Err(Error::InvalidSchema(_))) <==> requested_order@ == base_order(
            tensor.spec_shape().len(),
        ) && tensor.spec_layout() is Sparse && !valid_dims(tensor.spec_shape()),
{
    let rank: usize = tensor.ndim();
    let mut base: Vec<usize> = Vec::new();
    let mut i: usize = 0;
    while i < rank
        invariant
            i <= rank,
            base@ == base_order(i as nat),
        decreases rank - i,
    {
        base.push(i);
        i += 1;
        assert(base@ =~= base_order(i as nat));
    }
    let asked = requested_order.as_slice();
    if !same_order(asked, base.as_slice()) {
        return Err(
            Error::UnsupportedSparseIterationOrder {
                requested_order: slice_to_vec(asked),
                base_order: base,
                hint: "materialize or perform external sort for incompatible order".to_string(),
            },
        );
    }
    match tensor.layout() {
        Layout::Sparse { .. } => {},
        Layout::Dense => {
            return Err(Error::Unsupported("sparse iteration requires sparse layout".to_string()));
        },
    }
    validate_shape_dims(tensor.shape())?;
    iter_range_coords(tensor.shape(), &set_range(range))
}

fn same_order(left: &[usize], right: &[usize]) -> (same: bool)
    ensures
        same == (left@ == right@),
{
    if left.len() != right.len() {
        return false;
    }
    let mut i: usize = 0;
    while i < left.len()
        invariant
            i <= left.len(),
            left.len() == right.len(),
            forall|j: int| 0 <= j < i ==> left@[j] == right@[j],
        decreases left.len() - i,
    {
        if left[i] != right[i] {
            return false;
        }
        i += 1;
    }
    assert(left@ =~= right@);
    true
}

/// `num_cpus::get`: how many processors there are. Nothing is promised of the number.
#[verifier::external_body]
fn processors() -> (count: usize) {
    num_cpus::get()
}

/// How many batches are evaluated at a time: at least one.
pub fn workers(processors: usize) -> (count: usize)
    ensures
        count == if processors >= 1 {
            processors
        } else {
            1
        },
{
    if processors >= 1 {
        processors
    } else {
        1
    }
}

/// How many batches to evaluate at a time on this machine.
pub fn concurrency() -> (count: usize)
    ensures
        count >= 1,
{
    workers(processors())
}

/// Requests for all of a tensor.
pub enum Requests {
    /// In row-major order.
    Linear(LinearRequests),
    /// Tile by tile.
    Tiled(TiledRequests),
}

/// The requests that a matrix product prefers: tiles where there are matrices.
pub fn product_requests(shape: &[u64]) -> (result: Result<Requests>)
    ensures
        result is Ok <==> valid_dims(shape@) && if shape@.len() < 2 {
            volume(shape@) <= u64::MAX
        } else {
            volume(tile_grid(shape@)) <= u64::MAX
        },
        match result {
            Ok(Requests::Linear(requests)) => {
                &&& shape@.len() < 2
                &&& requests.wf()
                &&& requests.spec_start() == 0
                &&& requests.spec_total() == volume(shape@)
            },
            Ok(Requests::Tiled(requests)) => {
                &&& shape@.len() >= 2
                &&& requests.wf()
                &&& requests.spec_shape() == shape@
                &&& requests.spec_position() == 0
            },
            Err(error) => error is InvalidSchema,
        },
{
    if shape.len() < 2 {
        Ok(Requests::Linear(linear_requests(shape)?))
    } else {
        Ok(Requests::Tiled(tiled_requests(shape)?))
    }
}

} // verus!
