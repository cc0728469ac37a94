//! The occupied regions of a sparse tensor: which elements the rows of its index stand for.

use vstd::prelude::*;
use crate::error::{Error, Result};
use crate::expression::MAX_BATCH_ELEMENTS;
use crate::geometry::{
    all_positive, coordinate_at, in_box, lemma_coordinate_position, lemma_position_coordinate,
    position_of,
};
use crate::inline::Coord;
use crate::request::decode_flat;
use crate::schema::{ceil_div, grid_of, lemma_ceil_div};
use crate::storage_read::{
    block_coord, block_positions_are_unique, key_below, lemma_block_coord, lemma_grid_volume,
};
use crate::tensor::{sparse_axis, sparse_axis_for_layout, TensorStorage};
use crate::write::key_of;

verus! {

/// The part of an axis that a block covers.
pub open spec fn block_span(dim: u64, block: u64, place: u64) -> (u64, u64) {
    let start = place * block;
    (
        start as u64,
        (if dim - start <= block {
            dim as int
        } else {
            start + block
        }) as u64,
    )
}

/// The part of the tensor that a block covers.
pub open spec fn block_region(storage: TensorStorage, block: int) -> Seq<(u64, u64)> {
    let place = coordinate_at(block, grid_of(storage.spec_shape(), storage.spec_block_shape()));
    Seq::new(
        storage.spec_shape().len(),
        |i: int| block_span(storage.spec_shape()[i], storage.spec_block_shape()[i], place[i]),
    )
}

/// The key is one that the index can hold: its block covers its index on the sparse axis.
pub open spec fn key_agrees(storage: TensorStorage, key: Seq<u64>) -> bool {
    let span = block_region(storage, key[1] as int)[sparse_axis(storage.spec_layout()) as int];
    span.0 <= key[0] < span.1
}

/// The part of the tensor that a row of the index stands for: that of its block with its index on
/// the sparse axis.
pub open spec fn key_region(storage: TensorStorage, key: Seq<u64>) -> Seq<(u64, u64)> {
    block_region(storage, key[1] as int).update(
        sparse_axis(storage.spec_layout()) as int,
        (key[0], (key[0] + 1) as u64),
    )
}

/// The coordinate lies in the region.
pub open spec fn in_region(coord: Seq<u64>, region: Seq<(u64, u64)>) -> bool {
    forall|i: int| 0 <= i < region.len() ==> (#[trigger] region[i]).0 <= coord[i] < region[i].1
}

proof fn lemma_block_span(dim: u64, block: u64, place: u64)
    requires
        block > 0,
        dim > 0,
        place < ceil_div(dim as int, block as int),
    ensures
        0 <= place * block < dim,
        block_span(dim, block, place).0 == place * block,
        place * block < block_span(dim, block, place).1 <= dim,
        block_span(dim, block, place).1 <= place * block + block,
        forall|index: u64|
            index < dim ==> ((#[trigger] (index as int / block as int)) == place
                <==> block_span(dim, block, place).0 <= index < block_span(dim, block, place).1),
{
    let n = ceil_div(dim as int, block as int);
    lemma_ceil_div(dim as int, block as int);
    assert(0 <= place * block <= (n - 1) * block) by (nonlinear_arith)
        requires
            0 <= place <= n - 1,
            block > 0,
    ;
    assert forall|index: u64| index < dim implies ((#[trigger] (index as int / block as int))
        == place <==> block_span(dim, block, place).0 <= index < block_span(
        dim,
        block,
        place,
    ).1) by {
        let q = index as int / block as int;
        vstd::arithmetic::div_mod::lemma_fundamental_div_mod(index as int, block as int);
        vstd::arithmetic::div_mod::lemma_mod_bound(index as int, block as int);
        let r = index as int % block as int;
        if q == place {
            vstd::arithmetic::mul::lemma_mul_is_commutative(block as int, q);
        } else if q < place {
            assert(block * q + r < place * block) by (nonlinear_arith)
                requires
                    q + 1 <= place,
                    0 <= r < block,
            ;
        } else {
            assert(block * q + r >= place * block + block) by (nonlinear_arith)
                requires
                    q >= place + 1,
                    0 <= r,
                    block > 0,
            ;
        }
    }
}

/// A row of the index stands for the elements that have its key.
pub proof fn rows_stand_for_their_elements(
    storage: TensorStorage,
    key: Seq<u64>,
    coord: Seq<u64>,
)
    requires
        storage.wf(),
        storage.is_countable(),
        key.len() == 2,
        key[1] < storage.spec_num_blocks(),
        key_agrees(storage, key),
        in_box(coord, storage.spec_shape()),
    ensures
        in_region(coord, key_region(storage, key)) <==> key_of(storage, coord) == key,
{
    storage.lemma_wf();
    let shape = storage.spec_shape();
    let blocks = storage.spec_block_shape();
    let grid = grid_of(shape, blocks);
    let axis = sparse_axis(storage.spec_layout()) as int;
    lemma_block_coord(coord, shape, blocks);
    lemma_coordinate_position(key[1] as int, grid);
    let place = coordinate_at(key[1] as int, grid);
    let mine = block_coord(coord, blocks);
    let whole = block_region(storage, key[1] as int);
    let region = key_region(storage, key);
    assert forall|i: int| 0 <= i < shape.len() implies (mine[i] == place[i] <==> (
    #[trigger] whole[i]).0 <= coord[i] < whole[i].1) by {
        assert(place[i] < grid[i]);
        assert(coord[i] < shape[i]);
        assert(shape[i] > 0 && blocks[i] > 0);
        lemma_ceil_div(shape[i] as int, blocks[i] as int);
        lemma_block_span(shape[i], blocks[i], place[i]);
        assert(mine[i] == coord[i] as int / blocks[i] as int) by {
            lemma_quotient_small(coord[i], blocks[i]);
        }
    }
    if in_region(coord, region) {
        assert forall|i: int| 0 <= i < shape.len() implies #[trigger] mine[i] == place[i] by {
            assert(region[i].0 <= coord[i] < region[i].1);
            assert(whole[i].0 <= coord[i] < whole[i].1);
        }
        assert(mine =~= place);
        assert(region[axis].0 <= coord[axis] < region[axis].1);
        assert(key_of(storage, coord) =~= key);
    }
    if key_of(storage, coord) == key {
        assert(key_of(storage, coord)[0] == key[0] && key_of(storage, coord)[1] == key[1]);
        block_positions_are_unique(coord, coord, shape, blocks);
        assert(position_of(mine, grid) == key[1]);
        lemma_position_coordinate(mine, grid);
        assert forall|i: int| 0 <= i < region.len() implies (#[trigger] region[i]).0 <= coord[i]
            < region[i].1 by {
            assert(mine[i] == place[i]);
            assert(whole[i].0 <= coord[i] < whole[i].1);
        }
    }
}

proof fn lemma_quotient_small(value: u64, by: u64)
    requires
        by > 0,
    ensures
        0 <= value as int / by as int <= u64::MAX,
{
    assert(0 <= value as int / by as int <= value as int) by (nonlinear_arith)
        requires
            by > 0,
            value >= 0,
    ;
}

/// The row is one that the index of the tensor can have: an index on the sparse axis, and a block.
pub open spec fn is_index_key(storage: TensorStorage, row: Seq<u64>) -> bool {
    &&& row.len() == 2
    &&& row[0] < storage.spec_shape()[sparse_axis(storage.spec_layout()) as int]
    &&& row[1] < storage.spec_num_blocks()
}

impl TensorStorage {
    /// Take a row of the index as a key, if it is one.
    pub fn index_key(&self, row: &[u64]) -> (result: Result<[u64; 2]>)
        requires
            self.wf(),
            self.is_countable(),
        ensures
            result is Ok <==> is_index_key(*self, row@),
            result matches Ok(key) ==> key@ == row@,
            result matches Err(error) ==> error is InvalidLayout,
    {
        proof {
            self.lemma_wf();
        }
        let axis: usize = sparse_axis_for_layout(self.layout());
        if row.len() != 2 || row[0] >= self.shape()[axis] || row[1] >= self.num_blocks() {
            return Err(Error::InvalidLayout("invalid sparse slice index key".to_string()));
        }
        let key: [u64; 2] = [row[0], row[1]];
        assert(key@ =~= row@);
        Ok(key)
    }

    /// The part of the tensor that a row of the index stands for.
    pub fn key_bounds(&self, key: [u64; 2]) -> (result: Result<Vec<(u64, u64)>>)
        requires
            self.wf(),
            self.is_countable(),
            key@[1] < self.spec_num_blocks(),
        ensures
            result is Ok <==> key_agrees(*self, key@),
            result matches Ok(bounds) ==> bounds@ == key_region(*self, key@)
                && bounds_ordered(bounds@),
            result matches Err(error) ==> error is InvalidLayout,
    {
        proof {
            self.lemma_wf();
            lemma_grid_volume(self.spec_shape(), self.spec_block_shape());
            lemma_coordinate_position(
                key@[1] as int,
                grid_of(self.spec_shape(), self.spec_block_shape()),
            );
        }
        let ghost grid = grid_of(self.spec_shape(), self.spec_block_shape());
        let ghost target = block_region(*self, key@[1] as int);
        let axis: usize = sparse_axis_for_layout(self.layout());
        let dims = self.shape();
        let blocks = self.block_shape();
        let mut place = Coord::new();
        decode_flat(key[1], self.grid_shape(), &mut place)?;
        let places = place.as_slice();
        let mut bounds: Vec<(u64, u64)> = Vec::new();
        let mut i: usize = 0;
        while i < dims.len()
            invariant
                i <= dims.len(),
                self.wf(),
                dims@ == self.spec_shape(),
                blocks@ == self.spec_block_shape(),
                blocks@.len() == dims@.len(),
                grid == grid_of(dims@, blocks@),
                all_positive(dims@),
                all_positive(blocks@),
                target == block_region(*self, key@[1] as int),
                places@ == coordinate_at(key@[1] as int, grid),
                in_box(places@, grid),
                bounds@ == target.take(i as int),
                bounds_ordered(bounds@),
            decreases dims.len() - i,
        {
            proof {
                assert(places@[i as int] < grid[i as int]);
                assert(dims@[i as int] > 0 && blocks@[i as int] > 0);
                lemma_ceil_div(dims@[i as int] as int, blocks@[i as int] as int);
                lemma_block_span(dims@[i as int], blocks@[i as int], places@[i as int]);
            }
            let start: u64 = places[i] * blocks[i];
            let left: u64 = dims[i] - start;
            let end: u64 = if left <= blocks[i] {
                dims[i]
            } else {
                start + blocks[i]
            };
            let ghost before = bounds@;
            bounds.push((start, end));
            proof {
                assert(bounds@ =~= target.take(i + 1));
                assert forall|j: int| 0 <= j < bounds@.len() implies (#[trigger] bounds@[j]).0
                    <= bounds@[j].1 by {
                    if j < i {
                        assert(before[j].0 <= before[j].1);
                    }
                }
            }
            i += 1;
        }
        assert(bounds@ =~= target);
        let (low, high) = bounds[axis];
        let index: u64 = key[0];
        if index < low || index >= high {
            return Err(
                Error::InvalidLayout("sparse slice key disagrees with its grid block".to_string()),
            );
        }
        bounds.set(axis, (index, index + 1));
        assert(bounds@ =~= key_region(*self, key@));
        Ok(bounds)
    }
}

/// No bound ends before it starts.
pub open spec fn bounds_ordered(bounds: Seq<(u64, u64)>) -> bool {
    forall|i: int| 0 <= i < bounds.len() ==> (#[trigger] bounds[i]).0 <= bounds[i].1
}

/// A range of keys of the index.
#[derive(Clone, Copy, Debug, PartialEq, Eq, Structural)]
pub enum KeyRange {
    /// The rows of an index, behind a block.
    Within { coord: u64, after: u64 },
    /// The rows of indices from one to another, with the first one or without it.
    Between { lower: u64, excluded: bool, upper: u64 },
}

/// The key lies in the range.
pub open spec fn in_key_range(range: KeyRange, key: Seq<u64>) -> bool {
    match range {
        KeyRange::Within { coord, after } => key[0] == coord && key[1] > after,
        KeyRange::Between { lower, excluded, upper } => {
            &&& if excluded {
                lower < key[0]
            } else {
                lower <= key[0]
            }
            &&& key[0] <= upper
        },
    }
}

/// The key lies in some of the ranges.
pub open spec fn in_some_range(ranges: Seq<KeyRange>, key: Seq<u64>) -> bool {
    exists|i: int| 0 <= i < ranges.len() && in_key_range(#[trigger] ranges[i], key)
}

/// A row by its contents.
pub open spec fn row_of(key: Option<[u64; 2]>) -> Option<Seq<u64>> {
    match key {
        Some(key) => Some(key@),
        None => None,
    }
}

/// The row is one between two indices.
pub open spec fn is_within(last: Option<Seq<u64>>, lo: u64, hi: u64) -> bool {
    last matches Some(last) ==> lo <= last[0] <= hi
}

/// The ranges hold each key that lies between two indices and behind the last one that was read,
/// and one range lies before the other.
pub open spec fn are_page_ranges(
    ranges: Seq<KeyRange>,
    last: Option<Seq<u64>>,
    lo: u64,
    hi: u64,
) -> bool {
    &&& 0 < ranges.len() <= 2
    &&& forall|key: Seq<u64>|
        key.len() == 2 && is_within(last, lo, hi) ==> (#[trigger] in_some_range(ranges, key)
            <==> is_behind(last, lo, hi, key))
    &&& forall|a: Seq<u64>, b: Seq<u64>|
        ranges.len() == 2 && #[trigger] in_key_range(ranges[0], a) && #[trigger] in_key_range(
            ranges[1],
            b,
        ) ==> key_below(a, b)
}

/// The ranges of keys that follow the last one that was read, in order.
pub fn page_ranges(last: Option<[u64; 2]>, lo: u64, hi: u64) -> (ranges: Vec<KeyRange>)
    ensures
        are_page_ranges(ranges@, row_of(last), lo, hi),
{
    let mut ranges: Vec<KeyRange> = Vec::new();
    match last {
        Some(key) => {
            let coord: u64 = key[0];
            let after: u64 = key[1];
            ranges.push(KeyRange::Within { coord, after });
            if coord < hi {
                ranges.push(KeyRange::Between { lower: coord, excluded: true, upper: hi });
            }
            proof {
                assert(ranges@[0] == (KeyRange::Within { coord, after }));
                assert forall|other: Seq<u64>|
                    other.len() == 2 && lo <= key@[0] <= hi implies (#[trigger] in_some_range(
                    ranges@,
                    other,
                ) <==> lo <= other[0] <= hi && key_below(key@, other)) by {
                    assert(in_key_range(ranges@[0], other) <==> other[0] == coord && other[1]
                        > after);
                    if coord < hi {
                        assert(in_key_range(ranges@[1], other) <==> coord < other[0] && other[0]
                            <= hi);
                    }
                }
            }
        },
        None => {
            ranges.push(KeyRange::Between { lower: lo, excluded: false, upper: hi });
            proof {
                assert forall|other: Seq<u64>| other.len() == 2 implies (#[trigger] in_some_range(
                    ranges@,
                    other,
                ) <==> lo <= other[0] <= hi) by {
                    assert(in_key_range(ranges@[0], other) <==> lo <= other[0] && other[0] <= hi);
                }
            }
        },
    }
    ranges
}

/// The rows that a condition holds of, in order.
pub open spec fn kept_rows(rows: Seq<Seq<u64>>, condition: spec_fn(Seq<u64>) -> bool) -> Seq<
    Seq<u64>,
>
    decreases rows.len(),
{
    if rows.len() == 0 {
        Seq::empty()
    } else {
        let before = kept_rows(rows.drop_last(), condition);
        if condition(rows.last()) {
            before.push(rows.last())
        } else {
            before
        }
    }
}

/// The rows of an index stand in order, and none stands twice.
pub open spec fn rows_ordered(rows: Seq<Seq<u64>>) -> bool {
    &&& forall|i: int| 0 <= i < rows.len() ==> (#[trigger] rows[i]).len() == 2
    &&& forall|i: int, j: int|
        0 <= i < j < rows.len() ==> key_below(#[trigger] rows[i], #[trigger] rows[j])
}

/// The row lies between two indices and behind the last one that was read.
pub open spec fn is_behind(last: Option<Seq<u64>>, lo: u64, hi: u64, key: Seq<u64>) -> bool {
    lo <= key[0] <= hi && (last matches Some(last) ==> key_below(last, key))
}

/// The rows between two indices that follow the last one that was read.
pub open spec fn rows_behind(
    rows: Seq<Seq<u64>>,
    last: Option<Seq<u64>>,
    lo: u64,
    hi: u64,
) -> Seq<Seq<u64>> {
    kept_rows(rows, |key: Seq<u64>| is_behind(last, lo, hi, key))
}

/// The rows of some ranges, one range after the other.
pub open spec fn rows_in_ranges(rows: Seq<Seq<u64>>, ranges: Seq<KeyRange>) -> Seq<Seq<u64>>
    decreases ranges.len(),
{
    if ranges.len() == 0 {
        Seq::empty()
    } else {
        rows_in_ranges(rows, ranges.drop_last()) + kept_rows(
            rows,
            |key: Seq<u64>| in_key_range(ranges.last(), key),
        )
    }
}

/// The first rows, as many as there are up to a number.
pub open spec fn first_rows(rows: Seq<Seq<u64>>, most: int) -> Seq<Seq<u64>> {
    if rows.len() <= most {
        rows
    } else {
        rows.take(most)
    }
}

/// A page: the first rows behind the last one, as many as a batch holds.
pub open spec fn page_of(rows: Seq<Seq<u64>>, last: Option<Seq<u64>>, lo: u64, hi: u64) -> Seq<
    Seq<u64>,
> {
    first_rows(rows_behind(rows, last, lo, hi), MAX_BATCH_ELEMENTS as int)
}

/// Some pages, each behind the last row of the one before.
pub open spec fn pages_of(
    rows: Seq<Seq<u64>>,
    last: Option<Seq<u64>>,
    lo: u64,
    hi: u64,
    pages: nat,
) -> Seq<Seq<u64>>
    decreases pages,
{
    let page = page_of(rows, last, lo, hi);
    if pages == 0 || page.len() == 0 {
        Seq::empty()
    } else {
        page + pages_of(rows, Some(page.last()), lo, hi, (pages - 1) as nat)
    }
}

proof fn lemma_kept_same(
    rows: Seq<Seq<u64>>,
    left: spec_fn(Seq<u64>) -> bool,
    right: spec_fn(Seq<u64>) -> bool,
)
    requires
        forall|i: int| 0 <= i < rows.len() ==> left(#[trigger] rows[i]) == right(rows[i]),
    ensures
        kept_rows(rows, left) == kept_rows(rows, right),
    decreases rows.len(),
{
    if rows.len() > 0 {
        let init = rows.drop_last();
        assert forall|i: int| 0 <= i < init.len() implies left(#[trigger] init[i]) == right(
            init[i],
        ) by {
            assert(init[i] == rows[i]);
        }
        lemma_kept_same(init, left, right);
        assert(rows.last() == rows[rows.len() - 1]);
    }
}

/// What is kept of ordered rows is ordered, and is among them.
pub proof fn lemma_kept_ordered(rows: Seq<Seq<u64>>, condition: spec_fn(Seq<u64>) -> bool)
    requires
        rows_ordered(rows),
    ensures
        rows_ordered(kept_rows(rows, condition)),
        forall|i: int|
            0 <= i < kept_rows(rows, condition).len() ==> rows.contains(
                #[trigger] kept_rows(rows, condition)[i],
            ) && condition(kept_rows(rows, condition)[i]),
    decreases rows.len(),
{
    if rows.len() > 0 {
        let init = rows.drop_last();
        let last = rows.last();
        assert(last == rows[rows.len() - 1]);
        assert forall|i: int| 0 <= i < init.len() implies (#[trigger] init[i]).len() == 2 by {
            assert(init[i] == rows[i]);
        }
        assert forall|i: int, j: int| 0 <= i < j < init.len() implies key_below(
            #[trigger] init[i],
            #[trigger] init[j],
        ) by {
            assert(init[i] == rows[i] && init[j] == rows[j]);
        }
        lemma_kept_ordered(init, condition);
        let before = kept_rows(init, condition);
        let kept = kept_rows(rows, condition);
        assert forall|i: int| 0 <= i < kept.len() implies rows.contains(#[trigger] kept[i])
            && condition(kept[i]) by {
            if i < before.len() {
                assert(kept[i] == before[i]);
                let at = choose|at: int| 0 <= at < init.len() && init[at] == before[i];
                assert(rows[at] == kept[i]);
            }
        }
        assert forall|i: int, j: int| 0 <= i < j < kept.len() implies key_below(
            #[trigger] kept[i],
            #[trigger] kept[j],
        ) by {
            assert(kept[i] == before[i]);
            if j < before.len() {
                assert(kept[j] == before[j]);
            } else {
                let at = choose|at: int| 0 <= at < init.len() && init[at] == before[i];
                assert(key_below(rows[at], rows[rows.len() - 1]));
            }
        }
        assert forall|i: int| 0 <= i < kept.len() implies (#[trigger] kept[i]).len() == 2 by {
            if i < before.len() {
                assert(kept[i] == before[i]);
            }
        }
    }
}

proof fn lemma_kept_twice(
    rows: Seq<Seq<u64>>,
    first: spec_fn(Seq<u64>) -> bool,
    second: spec_fn(Seq<u64>) -> bool,
)
    ensures
        kept_rows(kept_rows(rows, first), second) == kept_rows(
            rows,
            |key: Seq<u64>| first(key) && second(key),
        ),
    decreases rows.len(),
{
    if rows.len() > 0 {
        lemma_kept_twice(rows.drop_last(), first, second);
        let before = kept_rows(rows.drop_last(), first);
        if first(rows.last()) {
            assert(before.push(rows.last()).drop_last() =~= before);
        }
    }
}

/// Of ordered rows, those above one of them are the ones that follow it.
proof fn lemma_kept_above(rows: Seq<Seq<u64>>, k: int, n: int)
    requires
        rows_ordered(rows),
        0 < k <= rows.len(),
        0 <= n <= rows.len(),
    ensures
        kept_rows(rows.take(n), |key: Seq<u64>| key_below(rows[k - 1], key)) == if n <= k {
            Seq::<Seq<u64>>::empty()
        } else {
            rows.subrange(k, n)
        },
    decreases n,
{
    let condition = |key: Seq<u64>| key_below(rows[k - 1], key);
    if n > 0 {
        lemma_kept_above(rows, k, n - 1);
        assert(rows.take(n).drop_last() =~= rows.take(n - 1));
        assert(rows.take(n).last() == rows[n - 1]);
        if n - 1 >= k {
            assert(key_below(rows[k - 1], rows[n - 1]));
            assert((if n - 1 <= k {
                Seq::<Seq<u64>>::empty()
            } else {
                rows.subrange(k, n - 1)
            }).push(rows[n - 1]) =~= rows.subrange(k, n));
        } else if n - 1 < k - 1 {
            assert(key_below(rows[n - 1], rows[k - 1]));
        }
    }
}

/// What is behind a page is what is left of what was behind the last row before it.
proof fn lemma_page(rows: Seq<Seq<u64>>, last: Option<Seq<u64>>, lo: u64, hi: u64)
    requires
        rows_ordered(rows),
    ensures
        ({
            let page = page_of(rows, last, lo, hi);
            let left = rows_behind(rows, last, lo, hi);
            &&& rows_ordered(left)
            &&& page == left.take(page.len() as int)
            &&& page.len() > 0 ==> rows_behind(rows, Some(page.last()), lo, hi) == left.skip(
                page.len() as int,
            )
        }),
{
    let condition = |key: Seq<u64>| is_behind(last, lo, hi, key);
    let left = rows_behind(rows, last, lo, hi);
    let page = page_of(rows, last, lo, hi);
    let k = page.len() as int;
    lemma_kept_ordered(rows, condition);
    assert(page =~= left.take(k));
    if k > 0 {
        let mark = left[k - 1];
        assert(page.last() == mark);
        let above = |key: Seq<u64>| key_below(mark, key);
        let both = |key: Seq<u64>| condition(key) && above(key);
        let behind = |key: Seq<u64>| is_behind(Some(mark), lo, hi, key);
        lemma_kept_twice(rows, condition, above);
        assert(condition(mark));
        lemma_kept_same(rows, both, behind);
        lemma_kept_above(left, k, left.len() as int);
        assert(left.take(left.len() as int) =~= left);
        assert(left.skip(k) =~= if left.len() <= k {
            Seq::<Seq<u64>>::empty()
        } else {
            left.subrange(k, left.len() as int)
        });
    }
}

/// Pages that are taken one after the other, each behind the last row of the one before, visit
/// every row between two indices once, and in order. A page that is not full is the last one, and
/// behind the last row there is an empty page.
pub proof fn pages_visit_each_row_once(
    rows: Seq<Seq<u64>>,
    last: Option<Seq<u64>>,
    lo: u64,
    hi: u64,
    pages: nat,
)
    requires
        rows_ordered(rows),
    ensures
        ({
            let page = page_of(rows, last, lo, hi);
            let left = rows_behind(rows, last, lo, hi);
            &&& rows_ordered(page)
            &&& left.len() <= pages * MAX_BATCH_ELEMENTS ==> pages_of(rows, last, lo, hi, pages)
                == left
            &&& 0 < page.len() < MAX_BATCH_ELEMENTS ==> page_of(
                rows,
                Some(page.last()),
                lo,
                hi,
            ).len() == 0
        }),
    decreases pages,
{
    let page = page_of(rows, last, lo, hi);
    let left = rows_behind(rows, last, lo, hi);
    lemma_page(rows, last, lo, hi);
    assert forall|i: int, j: int| 0 <= i < j < page.len() implies key_below(
        #[trigger] page[i],
        #[trigger] page[j],
    ) by {
        assert(page[i] == left[i] && page[j] == left[j]);
    }
    assert forall|i: int| 0 <= i < page.len() implies (#[trigger] page[i]).len() == 2 by {
        assert(page[i] == left[i]);
    }
    if pages == 0 {
        assert(0 * MAX_BATCH_ELEMENTS == 0);
        if left.len() == 0 {
            assert(left =~= Seq::<Seq<u64>>::empty());
        }
    } else if page.len() == 0 {
        assert(left =~= Seq::<Seq<u64>>::empty());
    } else {
        pages_visit_each_row_once(rows, Some(page.last()), lo, hi, (pages - 1) as nat);
        assert((pages - 1) * MAX_BATCH_ELEMENTS == pages * MAX_BATCH_ELEMENTS - MAX_BATCH_ELEMENTS)
            by (nonlinear_arith);
        assert(left =~= page + left.skip(page.len() as int));
    }
}

/// Rows of two ranges of which one lies before the other.
proof fn lemma_kept_ranges(
    rows: Seq<Seq<u64>>,
    first: spec_fn(Seq<u64>) -> bool,
    second: spec_fn(Seq<u64>) -> bool,
)
    requires
        rows_ordered(rows),
        forall|a: Seq<u64>, b: Seq<u64>|
            #[trigger] first(a) && #[trigger] second(b) ==> key_below(a, b),
    ensures
        kept_rows(rows, first) + kept_rows(rows, second) == kept_rows(
            rows,
            |key: Seq<u64>| first(key) || second(key),
        ),
    decreases rows.len(),
{
    let either = |key: Seq<u64>| first(key) || second(key);
    if rows.len() == 0 {
        assert(kept_rows(rows, first) + kept_rows(rows, second) =~= Seq::<Seq<u64>>::empty());
    } else {
        let init = rows.drop_last();
        let last = rows.last();
        assert(last == rows[rows.len() - 1]);
        assert forall|i: int| 0 <= i < init.len() implies (#[trigger] init[i]).len() == 2 by {
            assert(init[i] == rows[i]);
        }
        assert forall|i: int, j: int| 0 <= i < j < init.len() implies key_below(
            #[trigger] init[i],
            #[trigger] init[j],
        ) by {
            assert(init[i] == rows[i] && init[j] == rows[j]);
        }
        lemma_kept_ranges(init, first, second);
        let a = kept_rows(init, first);
        let b = kept_rows(init, second);
        if first(last) {
            lemma_kept_ordered(init, second);
            if b.len() > 0 {
                let at = choose|at: int| 0 <= at < init.len() && init[at] == b[0];
                assert(init.contains(b[0]));
                assert(key_below(rows[at], rows[rows.len() - 1]));
                assert(key_below(last, b[0]));
                assert(false);
            }
            assert(!second(last)) by {
                if second(last) {
                    assert(key_below(last, last));
                }
            }
            assert(a.push(last) + b =~= (a + b).push(last));
        } else if second(last) {
            assert(a + b.push(last) =~= (a + b).push(last));
        }
    }
}

/// The rows of the ranges behind a row are the rows behind it: reading the ranges one after the
/// other and stopping at a full batch gives a page.
pub proof fn ranges_hold_the_rows_behind(
    rows: Seq<Seq<u64>>,
    ranges: Seq<KeyRange>,
    last: Option<Seq<u64>>,
    lo: u64,
    hi: u64,
)
    requires
        rows_ordered(rows),
        are_page_ranges(ranges, last, lo, hi),
        is_within(last, lo, hi),
    ensures
        rows_in_ranges(rows, ranges) == rows_behind(rows, last, lo, hi),
{
    let first = |key: Seq<u64>| in_key_range(ranges[0], key);
    let behind = |key: Seq<u64>| is_behind(last, lo, hi, key);
    assert(rows_in_ranges(rows, Seq::<KeyRange>::empty()) =~= Seq::<Seq<u64>>::empty());
    if ranges.len() == 1 {
        assert(ranges.drop_last() =~= Seq::<KeyRange>::empty());
        assert forall|i: int| 0 <= i < rows.len() implies first(#[trigger] rows[i]) == behind(
            rows[i],
        ) by {
            assert(in_some_range(ranges, rows[i]) <==> behind(rows[i]));
            if first(rows[i]) {
                assert(in_key_range(ranges[0], rows[i]));
            }
        }
        lemma_kept_same(rows, first, behind);
        assert(ranges.last() == ranges[0]);
        assert(rows_in_ranges(rows, ranges) =~= kept_rows(rows, first));
    } else {
        let second = |key: Seq<u64>| in_key_range(ranges[1], key);
        let either = |key: Seq<u64>| first(key) || second(key);
        let one = ranges.drop_last();
        assert(one.drop_last() =~= Seq::<KeyRange>::empty());
        assert(one.last() == ranges[0]);
        assert(rows_in_ranges(rows, one) =~= kept_rows(rows, first));
        assert(ranges.last() == ranges[1]);
        lemma_kept_ranges(rows, first, second);
        assert forall|i: int| 0 <= i < rows.len() implies either(#[trigger] rows[i]) == behind(
            rows[i],
        ) by {
            assert(in_some_range(ranges, rows[i]) <==> behind(rows[i]));
            if either(rows[i]) {
                assert(in_key_range(ranges[0], rows[i]) || in_key_range(ranges[1], rows[i]));
            }
        }
        lemma_kept_same(rows, either, behind);
    }
}

} // verus!
