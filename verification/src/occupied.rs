//! Requests for the occupied regions of a slice of a sparse tensor.

use vstd::prelude::*;
use crate::error::Result;
use crate::expression::MAX_BATCH_ELEMENTS;
use crate::geometry::{coordinate_at, lemma_volume_positive, volume};
use crate::mapping::{ceil_gap, followed, lemma_ceil_gap, StorageSlice};
use crate::regions::{key_agrees, key_region};
use crate::request::{
    axes_fit, axes_lens, axes_select, axes_volume, axis_len, BatchRequest, box_coords, boxes_coords,
    boxes_len, boxes_of, Cartesian, lemma_box_coord, lemma_boxes_len, lens_fit, request_coords,
    Requested, Selection,
};
use crate::slice::{axis_values, clip, Slice, SliceRequests};
use crate::tensor::TensorStorage;

verus! {

/// How many numbers each axis has.
pub open spec fn value_lens(values: Seq<Seq<int>>) -> Seq<u64> {
    Seq::new(values.len(), |i: int| values[i].len() as u64)
}

/// The coordinates of every choice of one number for each axis, in row-major order.
pub open spec fn value_coords(values: Seq<Seq<int>>) -> Seq<Seq<u64>> {
    Seq::new(
        volume(value_lens(values)) as nat,
        |k: int|
            Seq::new(
                values.len(),
                |i: int| values[i][coordinate_at(k, value_lens(values))[i] as int] as u64,
            ),
    )
}

/// The numbers of each axis of a selection that lie within bounds.
pub open spec fn clipped_values(
    axes: Seq<Selection>,
    bounds: Seq<(u64, u64)>,
) -> Seq<Seq<int>> {
    Seq::new(
        axes.len(),
        |i: int| clip(axis_values(axes[i]), bounds[i].0 as int, bounds[i].1 as int),
    )
}

/// A selection names the coordinates of its numbers.
pub proof fn lemma_value_coords(axes: Seq<Selection>, values: Seq<Seq<int>>, shape: Seq<u64>)
    requires
        axes_fit(axes, shape),
        lens_fit(axes),
        values.len() == axes.len(),
        forall|i: int| 0 <= i < axes.len() ==> axis_values(#[trigger] axes[i]) == values[i],
    ensures
        box_coords(axes) == value_coords(values),
{
    assert(value_lens(values) =~= axes_lens(axes)) by {
        assert forall|i: int| 0 <= i < axes.len() implies value_lens(values)[i] == axes_lens(
            axes,
        )[i] by {
            assert(axis_values(axes[i]) == values[i]);
        }
    }
    let lens = axes_lens(axes);
    assert(value_lens(values) == lens);
    lemma_volume_positive(lens);
    assert(box_coords(axes).len() == value_coords(values).len());
    assert forall|k: int| 0 <= k < box_coords(axes).len() implies #[trigger] box_coords(axes)[k]
        == value_coords(values)[k] by {
        lemma_box_coord(axes, shape, k);
        let place = coordinate_at(k, lens);
        assert forall|i: int| 0 <= i < axes.len() implies axes_select(axes, place)[i]
            == values[i][place[i] as int] as u64 by {
            assert(axis_values(axes[i]) == values[i]);
            assert(place[i] < lens[i]);
            assert(axis_len(axes[i]) <= u64::MAX);
        }
        assert(box_coords(axes)[k] =~= value_coords(values)[k]);
    }
    assert(box_coords(axes) =~= value_coords(values));
}

/// A region of the tensor has a part in the view, as far as the axes go that the view does not
/// follow.
pub open spec fn touches(
    origins: Seq<u64>,
    axes: Seq<(usize, u64)>,
    region: Seq<(u64, u64)>,
) -> bool {
    forall|base: int|
        0 <= base < region.len() && !followed(axes, base) ==> (#[trigger] region[base]).0
            <= origins[base] < region[base].1
}

/// The indices of a view whose elements stand in a region of the tensor.
pub open spec fn view_bounds(
    origins: Seq<u64>,
    axes: Seq<(usize, u64)>,
    region: Seq<(u64, u64)>,
) -> Seq<(u64, u64)> {
    Seq::new(
        axes.len(),
        |i: int|
            {
                let base = axes[i].0 as int;
                (
                    ceil_gap(region[base].0, origins[base], axes[i].1) as u64,
                    ceil_gap(region[base].1, origins[base], axes[i].1) as u64,
                )
            },
    )
}

/// A slice of a view of a stored tensor.
pub ghost struct Sliced {
    pub storage: TensorStorage,
    pub axes: Seq<Selection>,
    pub origins: Seq<u64>,
    pub followed: Seq<(usize, u64)>,
}

/// The coordinates of the slice whose elements a row of the index stands for.
pub open spec fn key_coords(sliced: Sliced, key: Seq<u64>) -> Seq<Seq<u64>> {
    let region = key_region(sliced.storage, key);
    if touches(sliced.origins, sliced.followed, region) {
        value_coords(
            clipped_values(sliced.axes, view_bounds(sliced.origins, sliced.followed, region)),
        )
    } else {
        Seq::empty()
    }
}

/// The coordinates of the slice that the first rows of a list stand for, row by row.
pub open spec fn keys_coords(sliced: Sliced, keys: Seq<Seq<u64>>) -> Seq<Seq<u64>>
    decreases keys.len(),
{
    if keys.len() == 0 {
        Seq::empty()
    } else {
        keys_coords(sliced, keys.drop_last()) + key_coords(sliced, keys.last())
    }
}

/// What to do next to read the occupied regions of a slice.
#[derive(Debug)]
pub enum RegionStep {
    /// Read the next rows of the index and supply them.
    Page,
    /// Read this request.
    Request(BatchRequest),
    /// Everything was requested.
    Done,
}

/// Turns the rows of the index into requests, as many rows in one as fit a batch. One page of rows
/// and the boxes of one request are kept.
pub struct OccupiedRegions<'a> {
    storage: &'a TensorStorage,
    slice: Slice,
    mapping: StorageSlice,
    last: Option<[u64; 2]>,
    keys: Vec<[u64; 2]>,
    next: usize,
    pending: Option<SliceRequests>,
    overflow: Option<Cartesian>,
    exhausted: bool,
    rectangles: Vec<Cartesian>,
    len: usize,
    seen: Ghost<Seq<Seq<u64>>>,
    emitted: Ghost<Seq<Seq<u64>>>,
}

impl<'a> OccupiedRegions<'a> {
    pub closed spec fn sliced(&self) -> Sliced {
        Sliced {
            storage: *self.storage,
            axes: self.slice@,
            origins: self.mapping.origins@,
            followed: self.mapping.axes@,
        }
    }

    /// The rows of the index that were taken up.
    pub closed spec fn spec_seen(&self) -> Seq<Seq<u64>> {
        self.seen@
    }

    /// The coordinates that were requested.
    pub closed spec fn spec_emitted(&self) -> Seq<Seq<u64>> {
        self.emitted@
    }

    /// The supplied rows that were not taken up.
    pub closed spec fn spec_waiting(&self) -> Seq<Seq<u64>> {
        Seq::new((self.keys@.len() - self.next) as nat, |i: int| self.keys@[self.next + i]@)
    }

    /// No more rows follow those that were supplied.
    pub closed spec fn is_exhausted(&self) -> bool {
        self.exhausted
    }

    /// The last row that was taken up.
    pub closed spec fn spec_last(&self) -> Option<Seq<u64>> {
        match self.last {
            Some(key) => Some(key@),
            None => None,
        }
    }

    /// The coordinates of the box that did not fit the last request.
    pub closed spec fn spec_held(&self) -> Seq<Seq<u64>> {
        match self.overflow {
            Some(rectangle) => box_coords(rectangle@),
            None => Seq::empty(),
        }
    }

    spec fn pending_coords(&self) -> Seq<Seq<u64>> {
        let first = match self.overflow {
            Some(rectangle) => box_coords(rectangle@),
            None => Seq::empty(),
        };
        let rest = match self.pending {
            Some(requests) => box_coords(requests.spec_axes()).skip(requests.spec_position()),
            None => Seq::empty(),
        };
        first + rest
    }

    /// Between two steps the boxes that were collected leave room for more.
    pub closed spec fn wf(&self) -> bool {
        &&& self.is_sound()
        &&& self.len < MAX_BATCH_ELEMENTS
    }

    spec fn is_sound(&self) -> bool {
        &&& self.storage.wf()
        &&& self.storage.is_countable()
        &&& self.slice.wf()
        &&& self.mapping.wf()
        &&& self.mapping.origins@.len() == self.storage.spec_shape().len()
        &&& self.mapping.axes@.len() == self.slice@.len()
        &&& self.next <= self.keys@.len()
        &&& forall|i: int|
            0 <= i < self.keys@.len() ==> (#[trigger] self.keys@[i])@[1]
                < self.storage.spec_num_blocks()
        &&& self.pending matches Some(requests) ==> {
            &&& requests.wf()
            &&& 0 <= requests.spec_position() <= axes_volume(requests.spec_axes())
        }
        &&& self.overflow matches Some(rectangle) ==> rectangle.wf() && rectangle.spec_len() > 0
        &&& forall|i: int|
            0 <= i < self.rectangles@.len() ==> (#[trigger] self.rectangles@[i]).wf()
        &&& self.rectangles@.len() <= self.len
        &&& self.len <= MAX_BATCH_ELEMENTS
        &&& self.len == boxes_len(boxes_of(self.rectangles@))
        &&& self.emitted@ + boxes_coords(boxes_of(self.rectangles@)) + self.pending_coords()
            == keys_coords(self.sliced(), self.seen@)
    }

    /// Begin to read a slice of a view that follows the axes of a sparse tensor.
    pub fn new(storage: &'a TensorStorage, slice: Slice, mapping: StorageSlice) -> (regions: Self)
        requires
            storage.wf(),
            storage.is_countable(),
            slice.wf(),
            mapping.wf(),
            mapping.origins@.len() == storage.spec_shape().len(),
            mapping.axes@.len() == slice@.len(),
        ensures
            regions.wf(),
            regions.sliced() == (Sliced {
                storage: *storage,
                axes: slice@,
                origins: mapping.origins@,
                followed: mapping.axes@,
            }),
            regions.spec_seen() == Seq::<Seq<u64>>::empty(),
            regions.spec_emitted() == Seq::<Seq<u64>>::empty(),
            regions.spec_waiting() == Seq::<Seq<u64>>::empty(),
            regions.spec_last() is None,
            !regions.is_exhausted(),
    {
        let regions = OccupiedRegions {
            storage,
            slice,
            mapping,
            last: None,
            keys: Vec::new(),
            next: 0,
            pending: None,
            overflow: None,
            exhausted: false,
            rectangles: Vec::new(),
            len: 0,
            seen: Ghost(Seq::empty()),
            emitted: Ghost(Seq::empty()),
        };
        proof {
            let boxes = boxes_of(regions.rectangles@);
            assert(boxes =~= Seq::<Seq<Selection>>::empty());
            assert(boxes_coords(boxes) =~= Seq::<Seq<u64>>::empty());
            assert(regions.pending_coords() =~= Seq::<Seq<u64>>::empty());
            assert(regions.spec_waiting() =~= Seq::<Seq<u64>>::empty());
            assert(regions.emitted@ + boxes_coords(boxes) + regions.pending_coords()
                =~= keys_coords(regions.sliced(), regions.seen@));
        }
        regions
    }

    /// The last row that was taken up: the next page starts behind it.
    pub fn last(&self) -> (last: Option<[u64; 2]>)
        ensures
            match last {
                Some(key) => self.spec_last() == Some(key@),
                None => self.spec_last() is None,
            },
    {
        self.last
    }

    /// Supply the next rows of the index. A page that is not full is the last one.
    pub fn supply(&mut self, keys: Vec<[u64; 2]>)
        requires
            old(self).wf(),
            old(self).spec_waiting().len() == 0,
            forall|i: int|
                0 <= i < keys@.len() ==> (#[trigger] keys@[i])@[1]
                    < old(self).sliced().storage.spec_num_blocks(),
        ensures
            final(self).wf(),
            final(self).sliced() == old(self).sliced(),
            final(self).spec_seen() == old(self).spec_seen(),
            final(self).spec_emitted() == old(self).spec_emitted(),
            final(self).spec_last() == old(self).spec_last(),
            final(self).spec_waiting() == Seq::new(keys@.len(), |i: int| keys@[i]@),
            final(self).is_exhausted() == (keys@.len() < MAX_BATCH_ELEMENTS),
    {
        self.exhausted = keys.len() < MAX_BATCH_ELEMENTS;
        self.keys = keys;
        self.next = 0;
        assert(self.spec_waiting() =~= Seq::new(keys@.len(), |i: int| keys@[i]@));
    }

    /// The next box of what is pending.
    fn take_rectangle(&mut self) -> (rectangle: Option<Cartesian>)
        requires
            old(self).wf(),
        ensures
            final(self).wf_without(rectangle),
            final(self).same_but_pending(old(self)),
            final(self).pending_coords().len() <= old(self).pending_coords().len(),
            match rectangle {
                Some(rectangle) => rectangle.wf() && rectangle.spec_len() > 0
                    && final(self).overflow is None && old(self).pending_coords() == box_coords(
                    rectangle@,
                ) + final(self).pending_coords(),
                None => final(self).pending_coords() == old(self).pending_coords() && old(
                    self,
                ).pending_coords() == Seq::<Seq<u64>>::empty() && final(self).overflow is None,
            },
    {
        let ghost before = self.pending_coords();
        match self.overflow.take() {
            Some(rectangle) => {
                proof {
                    assert(before =~= box_coords(rectangle@) + self.pending_coords());
                }
                Some(rectangle)
            },
            None => {
                let taken = match &mut self.pending {
                    Some(requests) => requests.next_rectangle(),
                    None => None,
                };
                proof {
                    if let Some(rectangle) = &taken {
                        assert(before =~= box_coords(rectangle@) + self.pending_coords());
                    } else {
                        assert(before =~= Seq::<Seq<u64>>::empty());
                        assert(self.pending_coords() =~= before);
                    }
                }
                taken
            },
        }
    }

    spec fn same_but_pending(&self, other: &Self) -> bool {
        &&& self.sliced() == other.sliced()
        &&& self.keys == other.keys
        &&& self.next == other.next
        &&& self.last == other.last
        &&& self.exhausted == other.exhausted
        &&& self.rectangles == other.rectangles
        &&& self.len == other.len
        &&& self.seen == other.seen
        &&& self.emitted == other.emitted
    }

    /// Everything is in order once a box that was taken out is put back.
    spec fn wf_without(&self, rectangle: Option<Cartesian>) -> bool {
        match rectangle {
            Some(rectangle) => {
                &&& self.overflow is None
                &&& Self { overflow: Some(rectangle), ..*self }.wf()
            },
            None => self.wf(),
        }
    }
}

/// Every row that was taken up names a block that covers its index.
pub open spec fn keys_agree(storage: TensorStorage, keys: Seq<Seq<u64>>) -> bool {
    forall|i: int| 0 <= i < keys.len() ==> key_agrees(storage, #[trigger] keys[i])
}

impl<'a> OccupiedRegions<'a> {
    /// Take up the next row.
    fn take_key(&mut self) -> (result: Result<()>)
        requires
            old(self).wf(),
            old(self).next < old(self).keys@.len(),
            old(self).pending_coords().len() == 0,
            old(self).overflow is None,
        ensures
            final(self).sliced() == old(self).sliced(),
            final(self).keys == old(self).keys,
            final(self).exhausted == old(self).exhausted,
            final(self).rectangles == old(self).rectangles,
            final(self).len == old(self).len,
            final(self).emitted == old(self).emitted,
            result is Ok <==> key_agrees(
                old(self).sliced().storage,
                old(self).keys@[old(self).next as int]@,
            ),
            result is Ok ==> {
                &&& final(self).wf()
                &&& final(self).overflow is None
                &&& final(self).next == old(self).next + 1
                &&& final(self).seen@ == old(self).seen@.push(old(self).keys@[old(self).next as int]@)
                &&& final(self).spec_last() == Some(old(self).keys@[old(self).next as int]@)
            },
            result matches Err(error) ==> error is InvalidLayout,
    {
        let ghost before = *self;
        let key: [u64; 2] = self.keys[self.next];
        let ghost sliced = self.sliced();
        let ghost name = key@;
        let ghost region = key_region(*self.storage, name);
        assert(self.next < self.keys.len());
        self.next = self.next + 1;
        self.last = Some(key);
        let regions = self.storage.key_bounds(key)?;
        proof {
            self.storage.lemma_wf();
            assert(regions@.len() == self.storage.spec_shape().len());
        }
        let bounds = self.mapping.bounds(regions.as_slice());
        match bounds {
            Some(bounds) => {
                proof {
                    assert(touches(sliced.origins, sliced.followed, region));
                    let target = view_bounds(sliced.origins, sliced.followed, region);
                    assert forall|i: int| 0 <= i < bounds@.len() implies (#[trigger] bounds@[i]).0
                        <= bounds@[i].1 && bounds@[i] == target[i] by {
                        let base = self.mapping.axes@[i].0 as int;
                        let step = self.mapping.axes@[i].1;
                        let origin = self.mapping.origins@[base];
                        assert(regions@[base].0 <= regions@[base].1);
                        let high = ceil_gap(regions@[base].1, origin, step);
                        assert(high == bounds@[i].1);
                        lemma_ceil_gap(regions@[base].1, origin, step, high);
                        lemma_ceil_gap(regions@[base].0, origin, step, high);
                    }
                    assert(bounds@ =~= target);
                }
                let part = self.slice.intersect(bounds.as_slice())?;
                proof {
                    let values = clipped_values(sliced.axes, bounds@);
                    assert forall|i: int| 0 <= i < part@.len() implies axis_values(
                        #[trigger] part@[i],
                    ) == values[i] by {}
                    lemma_value_coords(part@, values, part.spec_shape());
                }
                let ghost axes = part@;
                self.pending = Some(part.requests());
                proof {
                    lemma_volume_positive(axes_lens(axes));
                    assert(box_coords(axes).skip(0) =~= box_coords(axes));
                    assert(self.pending_coords() =~= key_coords(sliced, name));
                }
            },
            None => {
                self.pending = None;
                proof {
                    assert(self.pending_coords() =~= key_coords(sliced, name));
                }
            },
        }
        self.seen = Ghost(self.seen@.push(name));
        proof {
            assert(self.seen@.drop_last() =~= before.seen@);
            let head = self.emitted@ + boxes_coords(boxes_of(self.rectangles@));
            assert(head + before.pending_coords() =~= head);
            assert(head + self.pending_coords() =~= keys_coords(sliced, self.seen@));
        }
        Ok(())
    }

    /// Hand out the boxes that were collected.
    fn emit(&mut self) -> (result: Result<RegionStep>)
        requires
            old(self).is_sound(),
            old(self).rectangles@.len() > 0,
        ensures
            final(self).wf(),
            final(self).sliced() == old(self).sliced(),
            final(self).seen == old(self).seen,
            final(self).keys == old(self).keys,
            final(self).next == old(self).next,
            final(self).last == old(self).last,
            final(self).exhausted == old(self).exhausted,
            final(self).overflow == old(self).overflow,
            final(self).pending == old(self).pending,
            final(self).rectangles@.len() == 0,
            final(self).spec_emitted().len() == old(self).spec_emitted().len() + old(self).len,
            result matches Ok(RegionStep::Request(request)) && request.spec_len() == old(self).len
                && request.wf() && request@
                == Requested::Rectangles(boxes_of(old(self).rectangles@)) && request.spec_len()
                > 0 && final(self).spec_emitted() == old(self).spec_emitted() + boxes_coords(
                boxes_of(old(self).rectangles@),
            ),
    {
        let ghost before = *self;
        let ghost boxes = boxes_of(self.rectangles@);
        let mut rectangles: Vec<Cartesian> = Vec::new();
        core::mem::swap(&mut rectangles, &mut self.rectangles);
        proof {
            lemma_boxes_len(boxes);
        }
        self.len = 0;
        self.emitted = Ghost(self.emitted@ + boxes_coords(boxes));
        proof {
            let none = boxes_of(self.rectangles@);
            assert(none =~= Seq::<Seq<Selection>>::empty());
            assert(boxes_coords(none) =~= Seq::<Seq<u64>>::empty());
            assert(self.pending_coords() == before.pending_coords());
            assert(self.emitted@ + boxes_coords(none) + self.pending_coords() =~= before.emitted@
                + boxes_coords(boxes) + before.pending_coords());
        }
        let request = BatchRequest::rectangles(rectangles)?;
        proof {
            request.lemma_wf();
        }
        Ok(RegionStep::Request(request))
    }

    /// What to do next. Every request names the coordinates that the taken up rows stand for, in
    /// order, and each once. Boxes are joined in one request until a batch is full, the next box
    /// does not fit, or none is left.
    pub fn step(&mut self) -> (result: Result<RegionStep>)
        requires
            old(self).wf(),
        ensures
            final(self).sliced() == old(self).sliced(),
            result is Err <==> exists|k: int| #[trigger] is_refused(*old(self), k),
            result matches Err(error) ==> error is InvalidLayout,
            result is Ok ==> final(self).wf() && taken_up(*old(self), *final(self)),
            match result {
                Ok(RegionStep::Page) => {
                    &&& final(self).spec_emitted() == old(self).spec_emitted()
                    &&& final(self).spec_waiting().len() == 0
                    &&& !final(self).is_exhausted()
                },
                Ok(RegionStep::Request(request)) => {
                    &&& request.wf()
                    &&& request@ is Rectangles
                    &&& request.spec_len() > 0
                    &&& final(self).spec_emitted() == old(self).spec_emitted() + request_coords(
                        request@,
                        final(self).sliced().storage.spec_shape(),
                    )
                    &&& is_filled(*final(self), request.spec_len())
                },
                Ok(RegionStep::Done) => {
                    &&& final(self).spec_emitted() == old(self).spec_emitted()
                    &&& final(self).spec_waiting().len() == 0
                    &&& final(self).is_exhausted()
                    &&& final(self).spec_emitted() == keys_coords(
                        final(self).sliced(),
                        final(self).spec_seen(),
                    )
                },
                Err(_) => true,
            },
    {
        let ghost first = *self;
        loop
            invariant
                self.wf(),
                first == *old(self),
                self.sliced() == first.sliced(),
                self.keys == first.keys,
                self.exhausted == first.exhausted,
                first.next <= self.next <= self.keys@.len(),
                self.emitted == first.emitted,
                self.seen@ == first.seen@ + key_range(self.keys@, first.next as int, self.next as int),
                keys_agree(
                    first.sliced().storage,
                    key_range(self.keys@, first.next as int, self.next as int),
                ),
                self.spec_last() == if self.next == first.next {
                    first.spec_last()
                } else {
                    Some(self.keys@[self.next - 1]@)
                },
                first.wf(),
            decreases self.keys@.len() - self.next, self.pending_coords().len(),
        {
            let ghost before = *self;
            if let Some(rectangle) = self.take_rectangle() {
                let size: usize = rectangle.len();
                if size > MAX_BATCH_ELEMENTS - self.len {
                    self.overflow = Some(rectangle);
                    proof {
                        assert(self.pending_coords() =~= before.pending_coords());
                        lemma_collected(self);
                        lemma_taken_up(first, *self);
                        lemma_volume_positive(axes_lens(rectangle@));
                        assert(self.spec_held().len() == size);
                    }
                    let filled = self.emit();
                    proof {
                        lemma_held(self);
                        lemma_not_refused(first, *self);
                    }
                    return filled;
                }
                self.len = self.len + size;
                let ghost boxes = boxes_of(self.rectangles@);
                self.rectangles.push(rectangle);
                proof {
                    let more = boxes_of(self.rectangles@);
                    assert(more =~= boxes.push(rectangle@));
                    assert(more.drop_last() =~= boxes);
                    let rest = self.pending_coords();
                    assert(before.emitted@ + boxes_coords(boxes) + (box_coords(rectangle@) + rest)
                        =~= self.emitted@ + boxes_coords(more) + rest);
                    assert(box_coords(rectangle@).len() > 0);
                }
                if self.len == MAX_BATCH_ELEMENTS {
                    proof {
                        lemma_taken_up(first, *self);
                    }
                    let filled = self.emit();
                    proof {
                        lemma_held(self);
                        lemma_not_refused(first, *self);
                    }
                    return filled;
                }
                continue;
            }
            if self.next == self.keys.len() {
                if !self.exhausted {
                    proof {
                        lemma_taken_up(first, *self);
                        lemma_not_refused(first, *self);
                    }
                    return Ok(RegionStep::Page);
                }
                if self.rectangles.len() == 0 {
                    proof {
                        lemma_taken_up(first, *self);
                        let none = boxes_of(self.rectangles@);
                        assert(none =~= Seq::<Seq<Selection>>::empty());
                        assert(boxes_coords(none) =~= Seq::<Seq<u64>>::empty());
                        assert(self.emitted@ + boxes_coords(none) + self.pending_coords()
                            =~= self.emitted@);
                        lemma_not_refused(first, *self);
                    }
                    return Ok(RegionStep::Done);
                }
                proof {
                    lemma_taken_up(first, *self);
                }
                let filled = self.emit();
                proof {
                    lemma_held(self);
                    lemma_not_refused(first, *self);
                }
                return filled;
            }
            let ghost name = self.keys@[self.next as int]@;
            let taken = self.take_key();
            if let Err(error) = taken {
                proof {
                    let i = before.next - first.next;
                    let taken = key_range(self.keys@, first.next as int, before.next as int);
                    assert(first.spec_waiting()[i] == name);
                    assert(first.spec_waiting().take(i) =~= taken);
                    lemma_boxes_len(boxes_of(before.rectangles@));
                    assert(is_refused(first, i));
                }
                return Err(error);
            }
            proof {
                let taken = key_range(self.keys@, first.next as int, before.next as int);
                let more = key_range(self.keys@, first.next as int, self.next as int);
                assert forall|i: int| 0 <= i < more.len() implies key_agrees(
                    first.sliced().storage,
                    #[trigger] more[i],
                ) by {
                    if i < taken.len() {
                        assert(more[i] == taken[i]);
                    }
                }
                assert(first.seen@ + key_range(self.keys@, first.next as int, self.next as int)
                    =~= (first.seen@ + key_range(
                    self.keys@,
                    first.next as int,
                    before.next as int,
                )).push(name));
            }
        }
    }
}

/// The row at a place among the waiting ones is reached by the next step, and refused: the rows
/// before it do not fill a request, and it names a block that does not cover its index.
pub open spec fn is_refused(regions: OccupiedRegions<'_>, k: int) -> bool {
    let rows = regions.spec_waiting();
    &&& 0 <= k < rows.len()
    &&& keys_agree(regions.sliced().storage, rows.take(k))
    &&& !key_agrees(regions.sliced().storage, rows[k])
    &&& keys_coords(regions.sliced(), regions.spec_seen() + rows.take(k)).len()
        - regions.spec_emitted().len() < MAX_BATCH_ELEMENTS
}

/// A request of so many elements is as large as it can be: it fills a batch, or the next box does
/// not fit, or nothing is left.
pub open spec fn is_filled(regions: OccupiedRegions<'_>, len: int) -> bool {
    let wanted = keys_coords(regions.sliced(), regions.spec_seen());
    let asked = regions.spec_emitted() + regions.spec_held();
    &&& asked.len() <= wanted.len()
    &&& asked == wanted.take(asked.len() as int)
    &&& len == MAX_BATCH_ELEMENTS || len + regions.spec_held().len() > MAX_BATCH_ELEMENTS || {
        &&& regions.spec_waiting().len() == 0
        &&& regions.is_exhausted()
        &&& regions.spec_emitted() == wanted
    }
}

/// Between two requests, what was requested and the box that did not fit stand at the head of what
/// the rows stand for.
proof fn lemma_held(regions: &OccupiedRegions<'_>)
    requires
        regions.wf(),
        regions.rectangles@.len() == 0,
    ensures
        ({
            let wanted = keys_coords(regions.sliced(), regions.spec_seen());
            let asked = regions.spec_emitted() + regions.spec_held();
            &&& asked.len() <= wanted.len()
            &&& asked == wanted.take(asked.len() as int)
            &&& regions.pending_coords().len() == 0 ==> regions.spec_emitted() == wanted
        }),
{
    let none = boxes_of(regions.rectangles@);
    let wanted = keys_coords(regions.sliced(), regions.spec_seen());
    let asked = regions.spec_emitted() + regions.spec_held();
    assert(none =~= Seq::<Seq<Selection>>::empty());
    assert(boxes_coords(none) =~= Seq::<Seq<u64>>::empty());
    assert(regions.emitted@ + boxes_coords(none) + regions.pending_coords() =~= regions.emitted@
        + regions.pending_coords());
    assert(asked =~= wanted.take(asked.len() as int));
    if regions.pending_coords().len() == 0 {
        assert(regions.spec_emitted() =~= wanted);
    }
}

/// Some rows of a page.
spec fn key_range(keys: Seq<[u64; 2]>, from: int, to: int) -> Seq<Seq<u64>> {
    Seq::new((to - from) as nat, |i: int| keys[from + i]@)
}

/// Some of the waiting rows were taken up, in order. Each names a block that covers its index.
pub open spec fn taken_up(before: OccupiedRegions<'_>, after: OccupiedRegions<'_>) -> bool {
    let n = before.spec_waiting().len() - after.spec_waiting().len();
    &&& 0 <= n <= before.spec_waiting().len()
    &&& keys_agree(before.sliced().storage, before.spec_waiting().take(n))
    &&& after.spec_seen() == before.spec_seen() + before.spec_waiting().take(n)
    &&& after.spec_waiting() == before.spec_waiting().skip(n)
    &&& after.is_exhausted() == before.is_exhausted()
    &&& after.spec_last() == if n == 0 {
        before.spec_last()
    } else {
        Some(before.spec_waiting()[n - 1])
    }
}

proof fn lemma_taken_up(before: OccupiedRegions<'_>, after: OccupiedRegions<'_>)
    requires
        before.next <= after.next <= before.keys@.len(),
        after.keys == before.keys,
        after.exhausted == before.exhausted,
        keys_agree(
            before.sliced().storage,
            key_range(before.keys@, before.next as int, after.next as int),
        ),
        after.seen@ == before.seen@ + key_range(
            before.keys@,
            before.next as int,
            after.next as int,
        ),
        after.spec_last() == if after.next == before.next {
            before.spec_last()
        } else {
            Some(before.keys@[after.next - 1]@)
        },
    ensures
        taken_up(before, after),
{
    let n = after.next - before.next;
    assert(before.spec_waiting().take(n) =~= key_range(
        before.keys@,
        before.next as int,
        after.next as int,
    ));
    assert(after.spec_waiting() =~= before.spec_waiting().skip(n));
}

/// More rows stand for more coordinates.
proof fn lemma_more_keys(sliced: Sliced, keys: Seq<Seq<u64>>, n: int)
    requires
        0 <= n <= keys.len(),
    ensures
        keys_coords(sliced, keys.take(n)).len() <= keys_coords(sliced, keys).len(),
    decreases keys.len(),
{
    if n < keys.len() {
        assert(keys.drop_last().take(n) =~= keys.take(n));
        lemma_more_keys(sliced, keys.drop_last(), n);
    } else {
        assert(keys.take(n) =~= keys);
    }
}

/// No row is refused by a step that takes up rows until a request is filled or none is left.
proof fn lemma_not_refused(before: OccupiedRegions<'_>, after: OccupiedRegions<'_>)
    requires
        taken_up(before, after),
        after.sliced() == before.sliced(),
        after.spec_waiting().len() == 0 || {
            let wanted = keys_coords(after.sliced(), after.spec_seen());
            before.spec_emitted().len() + MAX_BATCH_ELEMENTS <= wanted.len()
        },
    ensures
        forall|k: int| !#[trigger] is_refused(before, k),
{
    let rows = before.spec_waiting();
    let n = rows.len() - after.spec_waiting().len();
    assert forall|k: int| !#[trigger] is_refused(before, k) by {
        if is_refused(before, k) {
            if k < n {
                assert(rows.take(n)[k] == rows[k]);
                assert(key_agrees(before.sliced().storage, rows.take(n)[k]));
            } else {
                let reached = before.spec_seen() + rows.take(k);
                assert(reached.take(after.spec_seen().len() as int) =~= after.spec_seen());
                lemma_more_keys(before.sliced(), reached, after.spec_seen().len() as int);
            }
        }
    }
}

/// A box that does not fit leaves boxes that were collected.
proof fn lemma_collected(regions: &OccupiedRegions<'_>)
    requires
        regions.wf(),
        regions.overflow matches Some(rectangle) && rectangle.spec_len() > MAX_BATCH_ELEMENTS
            - regions.len,
    ensures
        regions.rectangles@.len() > 0,
{
    if regions.rectangles@.len() == 0 {
        assert(boxes_of(regions.rectangles@) =~= Seq::<Seq<Selection>>::empty());
        assert(boxes_len(boxes_of(regions.rectangles@)) == 0);
    }
}

} // verus!
