//! The groups of a reduction, packed into bounded batches.

use vstd::prelude::*;
use crate::element::TensorElement;
use crate::error::{Error, Result};
use crate::geometry::lemma_volume_positive;
use crate::expression::{batch_fits, EvaluatedBatch, mask_of, MAX_BATCH_ELEMENTS, supported_values};
use crate::inline::Coord;
use crate::reduce::{accumulate, accumulates, ReduceOp, ReduceView};
use crate::request::{
    axes_lens, axes_volume, BatchRequest, boxes_len, boxes_of, Cartesian, Cursor, lemma_request_len,
    lists_bounded, request_coords, request_fits, request_len, Requested, Selection,
};
use crate::schema::product_fits;
use crate::slice::Slice;
use crate::traits::TensorGeometry;

verus! {

/// What to read next for a reduction.
#[derive(Debug)]
pub enum GroupBatch {
    /// One group that does not fit a batch. It is read batch by batch.
    Large(Slice),
    /// Groups that fit a batch together, and how many elements each has.
    Packed { request: BatchRequest, lengths: Vec<usize> },
}

/// The groups of some elements of a reduction.
pub open spec fn groups_of<S: TensorGeometry, O>(
    view: ReduceView<S, O>,
    coords: Seq<Seq<u64>>,
) -> Seq<Seq<Selection>> {
    Seq::new(coords.len(), |o: int| view.spec_group(coords[o]))
}

/// The element has a group, and the group can be counted.
pub open spec fn group_known<S: TensorGeometry, O>(
    view: ReduceView<S, O>,
    coord: Seq<u64>,
) -> bool {
    view.has_group(coord) && axes_volume(view.spec_group(coord)) <= u64::MAX
}

/// Reads the groups of a request, in order.
#[derive(Debug)]
pub struct GroupReader<'a, S, O> {
    view: &'a ReduceView<S, O>,
    cursor: Cursor<'a>,
    pending: Option<Slice>,
    done: usize,
}

impl<'a, S: TensorGeometry, O> GroupReader<'a, S, O> {
    pub closed spec fn spec_view(&self) -> ReduceView<S, O> {
        *self.view
    }

    pub closed spec fn spec_request(&self) -> Requested {
        self.cursor.spec_request()
    }

    /// How many groups were handed out.
    pub closed spec fn spec_done(&self) -> int {
        self.done as int
    }

    /// The requested elements of the reduction.
    pub open spec fn coords(&self) -> Seq<Seq<u64>> {
        request_coords(self.spec_request(), self.spec_view().spec_shape())
    }

    /// Their groups.
    pub open spec fn groups(&self) -> Seq<Seq<Selection>> {
        groups_of(self.spec_view(), self.coords())
    }

    pub closed spec fn wf(&self) -> bool {
        let coords = self.coords();
        &&& self.view.wf()
        &&& self.cursor.wf()
        &&& self.cursor.spec_shape() == self.view.spec_shape()
        &&& coords.len() == request_len(self.cursor.spec_request())
        &&& coords.len() <= MAX_BATCH_ELEMENTS
        &&& self.done <= coords.len()
        &&& match self.pending {
            Some(slice) => {
                &&& self.done < coords.len()
                &&& self.cursor.spec_position() == self.done + 1
                &&& slice.wf()
                &&& slice@ == self.view.spec_group(coords[self.done as int])
                &&& group_known(*self.view, coords[self.done as int])
            },
            None => self.cursor.spec_position() == self.done,
        }
    }

    pub open spec fn same_request(&self, other: &Self) -> bool {
        self.spec_view() == other.spec_view() && self.spec_request() == other.spec_request()
    }

    pub fn new(view: &'a ReduceView<S, O>, request: &'a BatchRequest) -> (result: Result<Self>)
        requires
            view.wf(),
            request.wf(),
        ensures
            result is Ok <==> request_fits(request@, view.spec_shape()),
            result matches Ok(reader) ==> reader.wf() && reader.spec_view() == *view
                && reader.spec_request() == request@ && reader.spec_done() == 0,
            (result matches Err(Error::InvalidSchema(_))) <==> request@ is Linear && !product_fits(
                view.spec_shape(),
            ),
            result matches Err(error) ==> error is InvalidSchema || error is InvalidCoord,
    {
        let cursor = request.cursor(view.shape())?;
        proof {
            request.lemma_wf();
            lemma_request_len(request@, view.spec_shape());
        }
        Ok(GroupReader { view, cursor, pending: None, done: 0 })
    }

    /// The group of the next element.
    fn take_group(&mut self) -> (result: Result<Option<Slice>>)
        requires
            old(self).wf(),
        ensures
            final(self).same_request(old(self)),
            result is Err <==> old(self).spec_done() < old(self).coords().len() && !group_known(
                old(self).spec_view(),
                old(self).coords()[old(self).spec_done()],
            ),
            (result matches Err(Error::InvalidCoord(_))) <==> old(self).spec_done() < old(
                self,
            ).coords().len() && !old(self).spec_view().has_group(
                old(self).coords()[old(self).spec_done()],
            ),
            result matches Err(error) ==> error is InvalidCoord || error is InvalidLayout,
            result is Ok ==> final(self).wf() && final(self).pending is None,
            result matches Ok(None) ==> old(self).spec_done() == old(self).coords().len()
                && final(self).spec_done() == old(self).spec_done(),
            result matches Ok(Some(slice)) ==> {
                &&& old(self).spec_done() < old(self).coords().len()
                &&& final(self).spec_done() == old(self).spec_done() + 1
                &&& slice.wf()
                &&& slice@ == old(self).groups()[old(self).spec_done()]
            },
    {
        let ghost coords = self.coords();
        match self.pending.take() {
            Some(slice) => {
                self.done = self.done + 1;
                Ok(Some(slice))
            },
            None => {
                let mut coord = Coord::new();
                if !self.cursor.next_into(&mut coord) {
                    return Ok(None);
                }
                let slice = self.view.group(coord.as_slice())?;
                self.done = self.done + 1;
                Ok(Some(slice))
            },
        }
    }
}

/// The groups from a place on are packed: as many as fit a batch, and each with its length.
pub open spec fn packs(
    groups: Seq<Seq<Selection>>,
    request: Requested,
    lengths: Seq<usize>,
    start: int,
    end: int,
) -> bool {
    let taken = groups.subrange(start, end);
    &&& 0 <= start < end <= groups.len()
    &&& request == Requested::Rectangles(taken)
    &&& lengths.len() == taken.len()
    &&& forall|i: int| 0 <= i < lengths.len() ==> #[trigger] lengths[i] == axes_volume(taken[i])
    &&& boxes_len(taken) <= MAX_BATCH_ELEMENTS
    &&& group_start(lengths, lengths.len() as int) == boxes_len(taken)
    &&& end == groups.len() || boxes_len(taken) == MAX_BATCH_ELEMENTS || boxes_len(taken)
        + axes_volume(groups[end]) > MAX_BATCH_ELEMENTS
}

/// The group at a place is the first of those to come that is not known, and the ones before it
/// leave room in a batch: the next step asks for it.
pub open spec fn is_unknown<S: TensorGeometry, O>(reader: GroupReader<'_, S, O>, k: int) -> bool {
    let coords = reader.coords();
    let done = reader.spec_done();
    &&& done <= k < coords.len()
    &&& forall|o: int| done <= o < k ==> group_known(reader.spec_view(), #[trigger] coords[o])
    &&& !group_known(reader.spec_view(), coords[k])
    &&& boxes_len(reader.groups().subrange(done, k)) < MAX_BATCH_ELEMENTS
}

impl<'a, S: TensorGeometry, O> GroupReader<'a, S, O> {
    /// What to read next: a large group by itself, or as many groups as fit a batch.
    pub fn next(&mut self) -> (result: Result<Option<GroupBatch>>)
        requires
            old(self).wf(),
        ensures
            final(self).same_request(old(self)),
            result is Err <==> exists|k: int| #[trigger] is_unknown(*old(self), k),
            (result matches Err(Error::InvalidCoord(_))) <==> exists|k: int| #[trigger]
                is_unknown(*old(self), k) && !old(self).spec_view().has_group(
                    old(self).coords()[k],
                ),
            result matches Err(error) ==> error is InvalidCoord || error is InvalidLayout,
            result is Ok ==> final(self).wf(),
            result is Ok ==> forall|o: int|
                old(self).spec_done() <= o < final(self).spec_done() ==> group_known(
                    old(self).spec_view(),
                    #[trigger] old(self).coords()[o],
                ),
            match result {
                Ok(None) => {
                    &&& old(self).spec_done() == old(self).coords().len()
                    &&& final(self).spec_done() == old(self).spec_done()
                },
                Ok(Some(GroupBatch::Large(slice))) => {
                    &&& old(self).spec_done() < old(self).coords().len()
                    &&& final(self).spec_done() == old(self).spec_done() + 1
                    &&& slice.wf()
                    &&& slice@ == old(self).groups()[old(self).spec_done()]
                    &&& axes_volume(slice@) > MAX_BATCH_ELEMENTS
                },
                Ok(Some(GroupBatch::Packed { request, lengths })) => {
                    &&& request.wf()
                    &&& packs(
                        old(self).groups(),
                        request@,
                        lengths@,
                        old(self).spec_done(),
                        final(self).spec_done(),
                    )
                },
                Err(_) => true,
            },
    {
        let ghost groups = self.groups();
        let ghost start = self.spec_done();
        let ghost first_self = *self;
        let first = match self.take_group() {
            Ok(Some(slice)) => slice,
            Ok(None) => {
                return Ok(None);
            },
            Err(error) => {
                proof {
                    lemma_unknown(first_self, start);
                }
                return Err(error);
            },
        };
        let most: u64 = MAX_BATCH_ELEMENTS as u64;
        if first.len() > most {
            proof {
                let taken = groups.subrange(start, start + 1);
                assert(taken.drop_last() =~= Seq::<Seq<Selection>>::empty());
                assert(boxes_len(taken.drop_last()) == 0);
                lemma_none_unknown(first_self, start + 1);
            }
            return Ok(Some(GroupBatch::Large(first)));
        }
        let mut total: u64 = first.len();
        let mut lengths: Vec<usize> = vec![total as usize];
        let mut rectangles: Vec<Cartesian> = Vec::new();
        proof {
            lemma_unlisted(self.view, self.coords()[start]);
        }
        rectangles.push(first.rectangle()?);
        proof {
            let taken = groups.subrange(start, start + 1);
            assert(boxes_of(rectangles@) =~= taken);
            assert(taken.drop_last() =~= Seq::<Seq<Selection>>::empty());
            assert(boxes_len(taken.drop_last()) == 0);
        }
        let mut full = false;
        while total < most && !full
            invariant
                most == MAX_BATCH_ELEMENTS,
                total <= most,
                self.wf(),
                self.same_request(&first_self),
                first_self == *old(self),
                groups == first_self.groups(),
                start == first_self.spec_done(),
                groups.len() == self.coords().len(),
                groups.len() <= MAX_BATCH_ELEMENTS,
                0 <= start < self.spec_done() <= groups.len(),
                rectangles@.len() == self.spec_done() - start,
                boxes_of(rectangles@) == groups.subrange(start, self.spec_done()),
                forall|i: int| 0 <= i < rectangles@.len() ==> (#[trigger] rectangles@[i]).wf(),
                lengths@.len() == rectangles@.len(),
                forall|i: int|
                    0 <= i < lengths@.len() ==> #[trigger] lengths@[i] == axes_volume(
                        groups[start + i],
                    ),
                total == boxes_len(groups.subrange(start, self.spec_done())),
                forall|o: int|
                    start <= o < self.spec_done() ==> group_known(
                        first_self.spec_view(),
                        #[trigger] first_self.coords()[o],
                    ),
                full ==> self.spec_done() == groups.len() || (total + axes_volume(
                    groups[self.spec_done()],
                ) > most && group_known(
                    first_self.spec_view(),
                    first_self.coords()[self.spec_done()],
                )),
            decreases groups.len() - self.spec_done() + if full {
                0int
            } else {
                1
            },
        {
            let ghost end = self.spec_done();
            let next = match self.take_group() {
                Ok(Some(slice)) => slice,
                Ok(None) => {
                    full = true;
                    continue;
                },
                Err(error) => {
                    proof {
                        lemma_unknown(first_self, end);
                    }
                    return Err(error);
                },
            };
            let len: u64 = next.len();
            proof {
                lemma_unlisted(self.view, self.coords()[end]);
                let longer = groups.subrange(start, end + 1);
                assert(longer.drop_last() =~= groups.subrange(start, end));
                assert(longer.last() == groups[end]);
            }
            if len > most - total {
                self.done = self.done - 1;
                self.pending = Some(next);
                full = true;
            } else {
                total = total + len;
                lengths.push(len as usize);
                let ghost before = rectangles@;
                let rectangle = next.rectangle()?;
                rectangles.push(rectangle);
                proof {
                    assert(boxes_of(rectangles@) =~= boxes_of(before).push(rectangle@));
                    assert(boxes_of(rectangles@) =~= groups.subrange(start, end + 1));
                }
            }
        }
        let ghost taken = groups.subrange(start, self.spec_done());
        let request = BatchRequest::rectangles(rectangles)?;
        proof {
            assert forall|i: int| 0 <= i < lengths@.len() implies #[trigger] lengths@[i]
                == axes_volume(taken[i]) by {
                assert(taken[i] == groups[start + i]);
            }
            lemma_group_total(lengths@, taken, taken.len() as int);
            assert(taken.take(taken.len() as int) =~= taken);
            if self.spec_done() == groups.len() || total == most {
                lemma_none_unknown(first_self, self.spec_done());
            } else {
                let longer = groups.subrange(start, self.spec_done() + 1);
                assert(longer.drop_last() =~= taken);
                lemma_none_unknown(first_self, self.spec_done() + 1);
            }
        }
        Ok(Some(GroupBatch::Packed { request, lengths }))
    }
}

/// More groups have more elements.
proof fn lemma_more_groups(boxes: Seq<Seq<Selection>>, n: int)
    requires
        0 <= n <= boxes.len(),
    ensures
        boxes_len(boxes.take(n)) <= boxes_len(boxes),
    decreases boxes.len(),
{
    if n < boxes.len() {
        assert(boxes.drop_last().take(n) =~= boxes.take(n));
        lemma_volume_positive(axes_lens(boxes.last()));
        lemma_more_groups(boxes.drop_last(), n);
    } else {
        assert(boxes.take(n) =~= boxes);
    }
}

/// Only one group is the first that is not known.
proof fn lemma_unknown<S: TensorGeometry, O>(reader: GroupReader<'_, S, O>, k: int)
    requires
        is_unknown(reader, k),
    ensures
        forall|other: int| #[trigger] is_unknown(reader, other) ==> other == k,
{
    assert forall|other: int| #[trigger] is_unknown(reader, other) implies other == k by {
        assert(!group_known(reader.spec_view(), reader.coords()[k]));
        assert(!group_known(reader.spec_view(), reader.coords()[other]));
    }
}

/// Where all groups up to a place are known, and fill a batch or are all, none is asked for that is
/// not known.
proof fn lemma_none_unknown<S: TensorGeometry, O>(reader: GroupReader<'_, S, O>, end: int)
    requires
        reader.spec_done() <= end <= reader.coords().len(),
        forall|o: int|
            reader.spec_done() <= o < end ==> group_known(
                reader.spec_view(),
                #[trigger] reader.coords()[o],
            ),
        end == reader.coords().len() || boxes_len(
            reader.groups().subrange(reader.spec_done(), end),
        ) >= MAX_BATCH_ELEMENTS,
    ensures
        forall|k: int| !#[trigger] is_unknown(reader, k),
{
    let done = reader.spec_done();
    assert forall|k: int| !#[trigger] is_unknown(reader, k) by {
        if is_unknown(reader, k) {
            assert(!group_known(reader.spec_view(), reader.coords()[k]));
            let reached = reader.groups().subrange(done, k);
            assert(reached.take(end - done) =~= reader.groups().subrange(done, end));
            lemma_more_groups(reached, end - done);
        }
    }
}

/// The groups of a batch fill it.
proof fn lemma_group_total(lengths: Seq<usize>, boxes: Seq<Seq<Selection>>, n: int)
    requires
        lengths.len() == boxes.len(),
        0 <= n <= boxes.len(),
        forall|i: int| 0 <= i < lengths.len() ==> #[trigger] lengths[i] == axes_volume(boxes[i]),
    ensures
        group_start(lengths, n) == boxes_len(boxes.take(n)),
    decreases n,
{
    if n > 0 {
        lemma_group_total(lengths, boxes, n - 1);
        assert(boxes.take(n).drop_last() =~= boxes.take(n - 1));
    }
}

/// A group selects no single indices.
proof fn lemma_unlisted<S: TensorGeometry, O>(view: &ReduceView<S, O>, coord: Seq<u64>)
    ensures
        lists_bounded(view.spec_group(coord)),
{
}

/// A value of a reduction: that of the supported elements, or zero if there are none.
pub open spec fn reduced_to<T: TensorElement, O: ReduceOp<T>>(
    op: O,
    values: Seq<T>,
    value: T,
) -> bool {
    if values.len() == 0 {
        value == T::spec_zero()
    } else {
        op.reduces(values, value)
    }
}

/// The values and the support of a reduction with one group more: its outcome and support, or zero
/// and none where there is no outcome.
pub open spec fn group_pushed<T: TensorElement>(
    state: Option<T>,
    before: (Seq<T>, Option<Seq<u8>>),
    after: (Seq<T>, Option<Seq<u8>>),
) -> bool {
    &&& after.0 == before.0.push(
        match state {
            Some(value) => value,
            None => T::spec_zero(),
        },
    )
    &&& match (before.1, after.1) {
        (Some(old_mask), Some(mask)) => mask == old_mask.push(
            if state is Some {
                1u8
            } else {
                0u8
            },
        ),
        (None, None) => true,
        _ => false,
    }
}

/// The values and the support of a reduction with the groups of a batch more.
pub open spec fn groups_pushed<T: TensorElement, O: ReduceOp<T>>(
    op: O,
    batch: (Seq<T>, Option<Seq<u8>>),
    lengths: Seq<usize>,
    before: (Seq<T>, Option<Seq<u8>>),
    after: (Seq<T>, Option<Seq<u8>>),
) -> bool {
    &&& after.0.len() == before.0.len() + lengths.len()
    &&& after.0.take(before.0.len() as int) == before.0
    &&& forall|i: int|
        0 <= i < lengths.len() ==> reduced_to(
            op,
            group_part(batch.0, batch.1, lengths, i),
            #[trigger] after.0[before.0.len() + i],
        )
    &&& match (before.1, after.1) {
        (Some(old_mask), Some(mask)) => {
            &&& mask.len() == old_mask.len() + lengths.len()
            &&& mask.take(old_mask.len() as int) == old_mask
            &&& forall|i: int|
                0 <= i < lengths.len() ==> #[trigger] mask[old_mask.len() + i] == if group_part(
                    batch.0,
                    batch.1,
                    lengths,
                    i,
                ).len() > 0 {
                    1u8
                } else {
                    0u8
                }
        },
        (None, None) => true,
        _ => false,
    }
}

/// Add the outcome of a group to the values and the support of a reduction. A group without
/// supported elements has no support.
pub fn push_group<T: TensorElement>(
    state: Option<T>,
    values: &mut Vec<T>,
    support: &mut Option<Vec<u8>>,
)
    ensures
        group_pushed(
            state,
            (old(values)@, mask_of(*old(support))),
            (final(values)@, mask_of(*final(support))),
        ),
{
    if let Some(mask) = support {
        mask.push(
            if state.is_some() {
                1
            } else {
                0
            },
        );
    }
    values.push(
        match state {
            Some(value) => value,
            None => T::zero(),
        },
    );
}

/// Where a group starts in a batch.
pub open spec fn group_start(lengths: Seq<usize>, i: int) -> int
    decreases i,
{
    if i <= 0 {
        0
    } else {
        group_start(lengths, i - 1) + lengths[i - 1]
    }
}

/// The supported elements of a group in a batch.
pub open spec fn group_part<T>(
    values: Seq<T>,
    support: Option<Seq<u8>>,
    lengths: Seq<usize>,
    i: int,
) -> Seq<T> {
    let from = group_start(lengths, i);
    let to = group_start(lengths, i + 1);
    supported_values(
        values.subrange(from, to),
        match support {
            Some(mask) => Some(mask.subrange(from, to)),
            None => None,
        },
    )
}

/// A copy of part of a batch.
fn copy_part<T: Copy>(items: &[T], from: usize, to: usize) -> (part: Vec<T>)
    requires
        from <= to <= items@.len(),
    ensures
        part@ == items@.subrange(from as int, to as int),
{
    let mut part: Vec<T> = Vec::new();
    let mut i: usize = from;
    while i < to
        invariant
            from <= i <= to,
            to <= items@.len(),
            part@ == items@.subrange(from as int, i as int),
        decreases to - i,
    {
        part.push(items[i]);
        i += 1;
        assert(part@ =~= items@.subrange(from as int, i as int));
    }
    part
}

/// Reduce each group of a batch, and add the outcomes to the values and the support.
pub fn reduce_groups<T: TensorElement, O: ReduceOp<T>>(
    op: &O,
    batch: &EvaluatedBatch<T>,
    lengths: &[usize],
    values: &mut Vec<T>,
    support: &mut Option<Vec<u8>>,
) -> (result: Result<()>)
    requires
        batch_fits(
            batch.values@,
            mask_of(batch.support),
            group_start(lengths@, lengths@.len() as int),
        ),
    ensures
        result is Ok,
        groups_pushed(
            *op,
            (batch.values@, mask_of(batch.support)),
            lengths@,
            (old(values)@, mask_of(*old(support))),
            (final(values)@, mask_of(*final(support))),
        ),
{
    let ghost first = values@;
    let ghost first_mask = mask_of(*support);
    let ghost all = batch.values@;
    let ghost mask = mask_of(batch.support);
    let n: usize = lengths.len();
    let mut from: usize = 0;
    let mut i: usize = 0;
    proof {
        assert(first.take(first.len() as int) =~= first);
        if let Some(before) = first_mask {
            assert(before.take(before.len() as int) =~= before);
        }
    }
    while i < n
        invariant
            i <= n,
            n == lengths@.len(),
            all == batch.values@,
            mask == mask_of(batch.support),
            batch_fits(all, mask, group_start(lengths@, n as int)),
            from == group_start(lengths@, i as int),
            values@.len() == first.len() + i,
            values@.take(first.len() as int) == first,
            forall|j: int|
                0 <= j < i ==> reduced_to(
                    *op,
                    group_part(all, mask, lengths@, j),
                    #[trigger] values@[first.len() + j],
                ),
            *support is Some <==> first_mask is Some,
            mask_of(*support) matches Some(after) ==> masks_groups(
                first_mask->Some_0,
                after,
                all,
                mask,
                lengths@,
                i as int,
            ),
        decreases n - i,
    {
        proof {
            lemma_group_start(lengths@, i as int, n as int);
            lemma_group_start(lengths@, i + 1, n as int);
        }
        let to: usize = from + lengths[i];
        let part = copy_part(batch.values.as_slice(), from, to);
        let part_support = match &batch.support {
            Some(mask) => Some(copy_part(mask.as_slice(), from, to)),
            None => None,
        };
        let mut state: Option<T> = None;
        let ghost before = values@;
        let ghost before_mask = mask_of(*support);
        let ghost group = group_part(all, mask, lengths@, i as int);
        accumulate(op, &mut state, EvaluatedBatch { values: part, support: part_support })?;
        proof {
            assert(accumulates(*op, None, group, state));
        }
        push_group(state, values, support);
        proof {
            assert(values@.take(first.len() as int) =~= first);
            assert forall|j: int| 0 <= j < i + 1 implies reduced_to(
                *op,
                group_part(all, mask, lengths@, j),
                #[trigger] values@[first.len() + j],
            ) by {
                if j < i {
                    assert(before[first.len() + j] == values@[first.len() + j]);
                }
            }
            if let Some(after) = mask_of(*support) {
                let base = first_mask->Some_0;
                assert(after.take(base.len() as int) =~= base);
                assert forall|j: int| 0 <= j < i + 1 implies #[trigger] after[base.len() + j]
                    == group_flag(all, mask, lengths@, j) by {
                    if j < i {
                        assert(before_mask->Some_0[base.len() + j] == after[base.len() + j]);
                    }
                }
            }
        }
        from = to;
        i += 1;
    }
    Ok(())
}

/// One for a group with a supported element, zero for another.
spec fn group_flag<T>(
    values: Seq<T>,
    support: Option<Seq<u8>>,
    lengths: Seq<usize>,
    i: int,
) -> u8 {
    if group_part(values, support, lengths, i).len() > 0 {
        1
    } else {
        0
    }
}

spec fn masks_groups<T>(
    before: Seq<u8>,
    after: Seq<u8>,
    values: Seq<T>,
    support: Option<Seq<u8>>,
    lengths: Seq<usize>,
    n: int,
) -> bool {
    &&& after.len() == before.len() + n
    &&& after.take(before.len() as int) == before
    &&& forall|i: int|
        0 <= i < n ==> #[trigger] after[before.len() + i] == group_flag(values, support, lengths, i)
}

proof fn lemma_group_start(lengths: Seq<usize>, i: int, n: int)
    requires
        0 <= i <= n <= lengths.len(),
    ensures
        0 <= group_start(lengths, i) <= group_start(lengths, n),
    decreases n,
{
    if i < n {
        lemma_group_start(lengths, i, n - 1);
    } else if n > 0 {
        lemma_group_start(lengths, i - 1, n - 1);
    }
}

} // verus!
