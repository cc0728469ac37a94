//! Pages of the index of a sparse tensor: the rows behind the last one that was read.

use vstd::prelude::*;
use crate::error::Result;
use crate::expression::MAX_BATCH_ELEMENTS;
use crate::regions::{
    are_page_ranges, first_rows, in_key_range, is_index_key, is_within, kept_rows, KeyRange,
    page_of, page_ranges, ranges_hold_the_rows_behind, row_of, rows_behind, rows_in_ranges,
    rows_ordered,
};
use crate::request::coords_of;
use crate::tensor::TensorStorage;

verus! {

/// Keys by their contents.
pub open spec fn keys_of(keys: Seq<[u64; 2]>) -> Seq<Seq<u64>> {
    Seq::new(keys.len(), |i: int| keys[i]@)
}

/// Every row is one that the index of the tensor can have.
pub open spec fn are_index_keys(storage: TensorStorage, rows: Seq<Seq<u64>>) -> bool {
    forall|i: int| 0 <= i < rows.len() ==> is_index_key(storage, #[trigger] rows[i])
}

/// Collects a page of the index, range by range.
pub struct IndexPage<'a> {
    storage: &'a TensorStorage,
    ranges: Vec<KeyRange>,
    next: usize,
    keys: Vec<[u64; 2]>,
    from: Ghost<(Option<Seq<u64>>, u64, u64)>,
}

impl<'a> IndexPage<'a> {
    pub closed spec fn spec_storage(&self) -> TensorStorage {
        *self.storage
    }

    /// The row that the page starts behind, and the two indices that it lies between.
    pub closed spec fn spec_from(&self) -> (Option<Seq<u64>>, u64, u64) {
        self.from@
    }

    pub closed spec fn spec_ranges(&self) -> Seq<KeyRange> {
        self.ranges@
    }

    /// How many ranges were read.
    pub closed spec fn spec_next(&self) -> int {
        self.next as int
    }

    /// The rows of the page so far.
    pub closed spec fn spec_keys(&self) -> Seq<Seq<u64>> {
        keys_of(self.keys@)
    }

    pub open spec fn wf(&self) -> bool {
        let (last, lo, hi) = self.spec_from();
        &&& self.spec_storage().wf()
        &&& self.spec_storage().is_countable()
        &&& are_page_ranges(self.spec_ranges(), last, lo, hi)
        &&& 0 <= self.spec_next() <= self.spec_ranges().len()
        &&& self.spec_keys().len() <= MAX_BATCH_ELEMENTS
        &&& are_index_keys(self.spec_storage(), self.spec_keys())
    }

    /// A range is left, and the page has room.
    pub open spec fn is_wanting(&self) -> bool {
        self.spec_next() < self.spec_ranges().len() && self.spec_keys().len() < MAX_BATCH_ELEMENTS
    }

    /// How many more rows the page has room for.
    pub open spec fn room(&self) -> int {
        MAX_BATCH_ELEMENTS - self.spec_keys().len()
    }

    /// The page has what an index holds in the ranges that were read, as far as there is room.
    pub open spec fn holds(&self, index: Seq<Seq<u64>>) -> bool {
        self.spec_keys() == first_rows(
            rows_in_ranges(index, self.spec_ranges().take(self.spec_next())),
            MAX_BATCH_ELEMENTS as int,
        )
    }

    /// The rows are those that an index holds in the next range, as far as there is room.
    pub open spec fn are_next(&self, index: Seq<Seq<u64>>, rows: Seq<Seq<u64>>) -> bool {
        let range = self.spec_ranges()[self.spec_next()];
        first_rows(rows, self.room()) == first_rows(
            kept_rows(index, |key: Seq<u64>| in_key_range(range, key)),
            self.room(),
        )
    }

    /// Begin a page behind the last row that was read.
    pub fn new(
        storage: &'a TensorStorage,
        last: Option<[u64; 2]>,
        lo: u64,
        hi: u64,
    ) -> (page: Self)
        requires
            storage.wf(),
            storage.is_countable(),
        ensures
            page.wf(),
            page.spec_storage() == *storage,
            page.spec_from() == (row_of(last), lo, hi),
            page.spec_next() == 0,
            page.spec_keys() == Seq::<Seq<u64>>::empty(),
            forall|index: Seq<Seq<u64>>| #[trigger] page.holds(index),
    {
        let ranges = page_ranges(last, lo, hi);
        let page = IndexPage {
            storage,
            ranges,
            next: 0,
            keys: Vec::new(),
            from: Ghost((row_of(last), lo, hi)),
        };
        proof {
            assert(page.spec_keys() =~= Seq::<Seq<u64>>::empty());
            assert forall|index: Seq<Seq<u64>>| #[trigger] page.holds(index) by {
                assert(page.spec_ranges().take(0) =~= Seq::<KeyRange>::empty());
                assert(rows_in_ranges(index, Seq::<KeyRange>::empty()) =~= Seq::<
                    Seq<u64>,
                >::empty());
            }
        }
        page
    }

    /// The range to read next, and how many of its first rows at most.
    pub fn wanted(&self) -> (wanted: Option<(KeyRange, usize)>)
        requires
            self.wf(),
        ensures
            wanted is Some <==> self.is_wanting(),
            wanted matches Some((range, most)) ==> range == self.spec_ranges()[self.spec_next()]
                && most == self.room(),
    {
        if self.next == self.ranges.len() || self.keys.len() == MAX_BATCH_ELEMENTS {
            return None;
        }
        Some((self.ranges[self.next], MAX_BATCH_ELEMENTS - self.keys.len()))
    }

    /// Supply the first rows of the wanted range.
    pub fn supply(&mut self, rows: &[Vec<u64>]) -> (result: Result<()>)
        requires
            old(self).wf(),
            old(self).is_wanting(),
        ensures
            result is Ok <==> are_index_keys(
                old(self).spec_storage(),
                first_rows(coords_of(rows@), old(self).room()),
            ),
            result matches Err(error) ==> error is InvalidLayout,
            result is Ok ==> {
                &&& final(self).wf()
                &&& final(self).spec_storage() == old(self).spec_storage()
                &&& final(self).spec_from() == old(self).spec_from()
                &&& final(self).spec_ranges() == old(self).spec_ranges()
                &&& final(self).spec_next() == old(self).spec_next() + 1
                &&& final(self).spec_keys() == old(self).spec_keys() + first_rows(
                    coords_of(rows@),
                    old(self).room(),
                )
                &&& forall|index: Seq<Seq<u64>>|
                    old(self).holds(index) && old(self).are_next(index, coords_of(rows@))
                        ==> #[trigger] final(self).holds(index)
            },
    {
        let ghost before = *self;
        let ghost all = coords_of(rows@);
        let ghost taken = first_rows(all, self.room());
        let mut i: usize = 0;
        proof {
            assert(self.spec_keys() =~= before.spec_keys() + taken.take(0));
        }
        while i < rows.len() && self.keys.len() < MAX_BATCH_ELEMENTS
            invariant
                before == *old(self),
                before.wf(),
                all == coords_of(rows@),
                taken == first_rows(all, before.room()),
                i <= taken.len(),
                self.storage == before.storage,
                self.ranges == before.ranges,
                self.next == before.next,
                self.from == before.from,
                self.keys@.len() == before.keys@.len() + i,
                self.spec_keys() == before.spec_keys() + taken.take(i as int),
                are_index_keys(before.spec_storage(), taken.take(i as int)),
            decreases rows.len() - i,
        {
            let ghost row = rows@[i as int]@;
            assert(taken[i as int] == row);
            let key = self.storage.index_key(rows[i].as_slice())?;
            let ghost keys = self.spec_keys();
            self.keys.push(key);
            proof {
                assert(self.spec_keys() =~= keys.push(row));
                assert(taken.take(i + 1) =~= taken.take(i as int).push(row));
                assert(self.spec_keys() =~= before.spec_keys() + taken.take(i + 1));
                assert forall|j: int| 0 <= j < i + 1 implies is_index_key(
                    before.spec_storage(),
                    #[trigger] taken.take(i + 1)[j],
                ) by {
                    if j < i {
                        assert(taken.take(i + 1)[j] == taken.take(i as int)[j]);
                    }
                }
            }
            i += 1;
        }
        self.next = self.next + 1;
        proof {
            assert(i == taken.len());
            assert(taken.take(i as int) =~= taken);
            let keys = self.spec_keys();
            assert forall|j: int| 0 <= j < keys.len() implies is_index_key(
                before.spec_storage(),
                #[trigger] keys[j],
            ) by {
                if j < before.spec_keys().len() {
                    assert(keys[j] == before.spec_keys()[j]);
                } else {
                    assert(keys[j] == taken[j - before.spec_keys().len()]);
                }
            }
            let n = before.spec_next();
            let range = before.spec_ranges()[n];
            let ranges = before.spec_ranges().take(n + 1);
            assert(ranges.drop_last() =~= before.spec_ranges().take(n));
            assert(ranges.last() == range);
            assert forall|index: Seq<Seq<u64>>|
                before.holds(index) && before.are_next(index, all) implies #[trigger] self.holds(
                index,
            ) by {
                let read = rows_in_ranges(index, ranges.drop_last());
                let more = kept_rows(index, |key: Seq<u64>| in_key_range(range, key));
                assert(read == before.spec_keys());
                assert(rows_in_ranges(index, ranges) == read + more);
                assert(self.spec_keys() =~= first_rows(read + more, MAX_BATCH_ELEMENTS as int));
            }
        }
        Ok(())
    }

    /// The rows of the page: those of an index behind the last row, as many as a batch holds, if
    /// the rows that were supplied are those of the index.
    pub fn into_keys(self) -> (keys: Vec<[u64; 2]>)
        requires
            self.wf(),
        ensures
            keys_of(keys@) == self.spec_keys(),
            are_index_keys(self.spec_storage(), keys_of(keys@)),
            !self.is_wanting() ==> forall|index: Seq<Seq<u64>>|
                ({
                    let (last, lo, hi) = self.spec_from();
                    rows_ordered(index) && is_within(last, lo, hi) && #[trigger] self.holds(index)
                        ==> keys_of(keys@) == page_of(index, last, lo, hi)
                }),
    {
        proof {
            let (last, lo, hi) = self.spec_from();
            let ranges = self.spec_ranges();
            assert forall|index: Seq<Seq<u64>>|
                rows_ordered(index) && is_within(last, lo, hi) && !self.is_wanting()
                    && #[trigger] self.holds(index) implies self.spec_keys() == page_of(
                index,
                last,
                lo,
                hi,
            ) by {
                ranges_hold_the_rows_behind(index, ranges, last, lo, hi);
                lemma_more_ranges(index, ranges, self.spec_next());
                let read = rows_in_ranges(index, ranges.take(self.spec_next()));
                let left = rows_behind(index, last, lo, hi);
                if self.spec_next() == ranges.len() {
                    assert(ranges.take(self.spec_next()) =~= ranges);
                } else {
                    assert(first_rows(read, MAX_BATCH_ELEMENTS as int) =~= first_rows(
                        left,
                        MAX_BATCH_ELEMENTS as int,
                    ));
                }
            }
        }
        self.keys
    }
}

/// The rows of more ranges begin with those of the first ones.
proof fn lemma_more_ranges(index: Seq<Seq<u64>>, ranges: Seq<KeyRange>, n: int)
    requires
        0 <= n <= ranges.len(),
    ensures
        ({
            let some = rows_in_ranges(index, ranges.take(n));
            let all = rows_in_ranges(index, ranges);
            some.len() <= all.len() && some == all.take(some.len() as int)
        }),
    decreases ranges.len(),
{
    let some = rows_in_ranges(index, ranges.take(n));
    let all = rows_in_ranges(index, ranges);
    if n < ranges.len() {
        assert(ranges.drop_last().take(n) =~= ranges.take(n));
        lemma_more_ranges(index, ranges.drop_last(), n);
        assert(some =~= all.take(some.len() as int));
    } else {
        assert(ranges.take(n) =~= ranges);
        assert(some =~= all.take(some.len() as int));
    }
}

} // verus!
