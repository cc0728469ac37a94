//! Plans for matrix products: which rectangles of which matrices to compute, and where their
//! elements go.

use vstd::prelude::*;
use vstd::slice::{slice_subrange, slice_to_vec};
use crate::error::{Error, Result};
use crate::expression::MAX_BATCH_ELEMENTS;
use crate::geometry::{
    all_positive, coordinate_at, in_box, lemma_coordinate_concat, lemma_coordinate_last,
    lemma_coordinate_len, lemma_coordinate_position, lemma_position_bound,
    lemma_position_coordinate, lemma_volume_concat, lemma_volume_one, lemma_volume_positive,
    lemma_volume_suffix_bound, volume,
};
use crate::inline::Coord;
use crate::mapping::{
    contribution, CoordinateMap, fits, identity_map, index_known, lemma_identity_offset,
    lemma_total_take, lemma_unravel, Mapping, offset_at, offset_fits, resolves, stride_axes, total,
};
use crate::request::{
    axes_fit, axes_lens, axes_of, axes_volume, Axis, axis_at, axis_fits, axis_len, BatchRequest,
    box_coords, boxes_coords, boxes_fit, boxes_len, boxes_of, Cartesian, copy_axes, decode_flat,
    lemma_axis_at, lemma_boxes_index, lemma_boxes_len, lemma_boxes_prefix, lemma_request_len,
    lens_fit, lists_bounded, request_coords, request_fits, request_len, Requested,
    requested_coordinates_lie_in_the_shape, RequestKind, Selection,
};
use crate::schema::{are_strides, lemma_product_fits, product_fits};
use crate::sorted::{entry_total, find, Groups, increasing, insert_unique, lex_below, pushed};
use crate::storage_read::all_resolve;
use crate::validate::each_below;

verus! {

/// The most rows, and the most columns, of a spatial tile.
pub const TILE_SIDE: usize = 32;

/// The most computed elements of a rectangle for each element that is asked for.
pub const MAX_RECTANGLE_AMPLIFICATION: usize = 2;

/// How a computed rectangle is spread over the elements of a request.
#[derive(Debug)]
pub enum Scatter {
    /// Pairs of a place in the request and a place in the rectangle.
    Explicit(Vec<(usize, usize)>),
    /// Every selected row with every selected column.
    Cartesian {
        start: usize,
        width: usize,
        rows: Vec<(usize, usize)>,
        columns: Vec<(usize, usize)>,
    },
    /// Consecutive places: where they start in the request and in the rectangle, and how many.
    Spans(Vec<(usize, usize, usize)>),
}

/// One span, place by place.
pub open spec fn span_pairs(span: (usize, usize, usize)) -> Seq<(int, int)> {
    Seq::new(span.2 as nat, |j: int| (span.0 + j, span.1 + j))
}

/// Spans, one after the other, place by place.
pub open spec fn spans_pairs(spans: Seq<(usize, usize, usize)>) -> Seq<(int, int)>
    decreases spans.len(),
{
    if spans.len() == 0 {
        Seq::empty()
    } else {
        spans_pairs(spans.drop_last()) + span_pairs(spans.last())
    }
}

/// Every selected row with every selected column.
pub open spec fn cartesian_pairs(
    start: int,
    width: int,
    rows: Seq<(usize, usize)>,
    selected: Seq<(usize, usize)>,
    columns: int,
) -> Seq<(int, int)> {
    Seq::new(
        rows.len() * selected.len(),
        |k: int|
            {
                let row = rows[k / selected.len() as int];
                let column = selected[k % selected.len() as int];
                (start + row.0 * width + column.0, row.1 * columns + column.1)
            },
    )
}

/// The places of a request, each with the place in the rectangle that it is taken from.
pub open spec fn scatter_pairs(scatter: Scatter, columns: int) -> Seq<(int, int)> {
    match scatter {
        Scatter::Explicit(points) => Seq::new(
            points@.len(),
            |k: int| (points@[k].0 as int, points@[k].1 as int),
        ),
        Scatter::Cartesian { start, width, rows, columns: selected } => cartesian_pairs(
            start as int,
            width as int,
            rows@,
            selected@,
            columns,
        ),
        Scatter::Spans(spans) => spans_pairs(spans@),
    }
}

/// All places are ones that a machine can index.
pub open spec fn pairs_fit(pairs: Seq<(int, int)>) -> bool {
    forall|k: int|
        0 <= k < pairs.len() ==> 0 <= (#[trigger] pairs[k]).0 <= usize::MAX && 0 <= pairs[k].1
            <= usize::MAX
}

/// Pairs as exact numbers.
pub open spec fn exact_pairs(pairs: Seq<(usize, usize)>) -> Seq<(int, int)> {
    Seq::new(pairs.len(), |k: int| (pairs[k].0 as int, pairs[k].1 as int))
}

impl Scatter {
    /// The places of the request, each with the place in a rectangle of so many columns.
    pub fn each(&self, columns: usize) -> (pairs: Vec<(usize, usize)>)
        requires
            pairs_fit(scatter_pairs(*self, columns as int)),
        ensures
            exact_pairs(pairs@) == scatter_pairs(*self, columns as int),
    {
        let ghost target = scatter_pairs(*self, columns as int);
        let mut pairs: Vec<(usize, usize)> = Vec::new();
        match self {
            Scatter::Explicit(points) => {
                let mut k: usize = 0;
                while k < points.len()
                    invariant
                        k <= points.len(),
                        pairs.len() == k,
                        forall|j: int| 0 <= j < k ==> #[trigger] pairs@[j] == points@[j],
                    decreases points.len() - k,
                {
                    pairs.push(points[k]);
                    k += 1;
                }
                assert(exact_pairs(pairs@) =~= target);
            },
            Scatter::Cartesian { start, width, rows, columns: selected } => {
                let ghost m = selected@.len() as int;
                let mut a: usize = 0;
                proof {
                    assert(0 * m == 0);
                }
                while a < rows.len()
                    invariant
                        a <= rows.len(),
                        m == selected@.len(),
                        target == cartesian_pairs(
                            *start as int,
                            *width as int,
                            rows@,
                            selected@,
                            columns as int,
                        ),
                        pairs_fit(target),
                        pairs@.len() == a * m,
                        forall|k: int|
                            0 <= k < pairs@.len() ==> exact_pairs(pairs@)[k] == #[trigger] target[k],
                    decreases rows.len() - a,
                {
                    let (position, i) = rows[a];
                    let mut b: usize = 0;
                    while b < selected.len()
                        invariant
                            a < rows.len(),
                            b <= selected.len(),
                            m == selected@.len(),
                            (position, i) == rows@[a as int],
                            target == cartesian_pairs(
                                *start as int,
                                *width as int,
                                rows@,
                                selected@,
                                columns as int,
                            ),
                            pairs_fit(target),
                            pairs@.len() == a * m + b,
                            forall|k: int|
                                0 <= k < pairs@.len() ==> exact_pairs(pairs@)[k]
                                    == #[trigger] target[k],
                        decreases selected.len() - b,
                    {
                        let (column, j) = selected[b];
                        let ghost k = a * m + b;
                        proof {
                            assert(a * m + b < rows@.len() * m && 0 <= a * m) by (nonlinear_arith)
                                requires
                                    0 <= a < rows@.len(),
                                    0 <= b < m,
                            ;
                            vstd::arithmetic::div_mod::lemma_fundamental_div_mod_converse(
                                k,
                                m,
                                a as int,
                                b as int,
                            );
                            assert(0 <= position * *width && 0 <= i * columns) by (nonlinear_arith)
                                requires
                                    position >= 0,
                                    *width >= 0,
                                    i >= 0,
                                    columns >= 0,
                            ;
                            assert(target[k] == (
                                *start + position * *width + column,
                                i * columns + j,
                            ));
                        }
                        let ghost before = pairs@;
                        pairs.push((*start + position * *width + column, i * columns + j));
                        proof {
                            assert forall|l: int| 0 <= l < pairs@.len() implies exact_pairs(
                                pairs@,
                            )[l] == #[trigger] target[l] by {
                                if l < before.len() {
                                    assert(exact_pairs(before)[l] == target[l]);
                                }
                            }
                        }
                        b += 1;
                    }
                    proof {
                        assert((a + 1) * m == a * m + m) by (nonlinear_arith);
                    }
                    a += 1;
                }
                assert(exact_pairs(pairs@) =~= target);
            },
            Scatter::Spans(spans) => {
                let mut s: usize = 0;
                proof {
                    assert(exact_pairs(pairs@) =~= spans_pairs(spans@.take(0)));
                }
                while s < spans.len()
                    invariant
                        s <= spans.len(),
                        target == spans_pairs(spans@),
                        pairs_fit(target),
                        exact_pairs(pairs@) == spans_pairs(spans@.take(s as int)),
                    decreases spans.len() - s,
                {
                    let (position, offset, len) = spans[s];
                    let ghost before = spans_pairs(spans@.take(s as int));
                    let ghost here = span_pairs(spans@[s as int]);
                    proof {
                        assert(spans@.take(s + 1).drop_last() =~= spans@.take(s as int));
                        assert(spans_pairs(spans@.take(s + 1)) == before + here);
                        lemma_spans_prefix(spans@, s + 1);
                    }
                    let mut j: usize = 0;
                    proof {
                        assert(exact_pairs(pairs@) =~= before + here.take(0));
                    }
                    while j < len
                        invariant
                            j <= len,
                            s < spans.len(),
                            (position, offset, len) == spans@[s as int],
                            here == span_pairs(spans@[s as int]),
                            pairs_fit(target),
                            before.len() + here.len() <= target.len(),
                            (before + here) == target.take((before.len() + here.len()) as int),
                            exact_pairs(pairs@) == before + here.take(j as int),
                        decreases len - j,
                    {
                        let ghost old_pairs = pairs@;
                        proof {
                            let k = before.len() + j;
                            assert(target.take((before.len() + here.len()) as int)[k] == target[k]);
                            assert((before + here)[k] == here[j as int]);
                            assert(target[k] == (position + j, offset + j));
                        }
                        pairs.push((position + j, offset + j));
                        proof {
                            assert(exact_pairs(pairs@) =~= exact_pairs(old_pairs).push(
                                (position + j, offset + j),
                            ));
                            assert(before + here.take(j + 1) =~= (before + here.take(
                                j as int,
                            )).push(here[j as int]));
                        }
                        j += 1;
                    }
                    proof {
                        assert(here.take(len as int) =~= here);
                    }
                    s += 1;
                }
                assert(spans@.take(s as int) =~= spans@);
            },
        }
        pairs
    }
}

/// The first spans' places come first.
proof fn lemma_spans_prefix(spans: Seq<(usize, usize, usize)>, n: int)
    requires
        0 <= n <= spans.len(),
    ensures
        spans_pairs(spans.take(n)).len() <= spans_pairs(spans).len(),
        spans_pairs(spans.take(n)) == spans_pairs(spans).take(
            spans_pairs(spans.take(n)).len() as int,
        ),
    decreases spans.len(),
{
    if n == spans.len() {
        assert(spans.take(n) =~= spans);
        assert(spans_pairs(spans).take(spans_pairs(spans).len() as int) =~= spans_pairs(spans));
    } else {
        lemma_spans_prefix(spans.drop_last(), n);
        assert(spans.drop_last().take(n) =~= spans.take(n));
        let m = spans_pairs(spans.take(n)).len() as int;
        assert(spans_pairs(spans).take(m) =~= spans_pairs(spans.drop_last()).take(m));
    }
}

/// A rectangle of a matrix to compute, and how its elements are spread over a request.
#[derive(Debug)]
pub struct Rectangle {
    pub rows: Vec<u64>,
    pub columns: Vec<u64>,
    pub scatter: Scatter,
}

/// The places of the request that a rectangle answers.
pub open spec fn rectangle_pairs(rectangle: Rectangle) -> Seq<(int, int)> {
    scatter_pairs(rectangle.scatter, rectangle.columns@.len() as int)
}

/// The rectangle has rows and columns, in order and each once.
pub open spec fn rectangle_wf(rectangle: Rectangle) -> bool {
    &&& rectangle.rows@.len() > 0
    &&& rectangle.columns@.len() > 0
    &&& increasing(rectangle.rows@)
    &&& increasing(rectangle.columns@)
}

/// The row and the column at a place of a rectangle.
pub open spec fn cell(rectangle: Rectangle, place: int) -> (u64, u64) {
    let columns = rectangle.columns@.len() as int;
    (rectangle.rows@[place / columns], rectangle.columns@[place % columns])
}

/// A step of a contraction: as many positions as both operands' batches hold.
pub fn contraction_step(rows: usize, columns: usize) -> (step: usize)
    requires
        rows > 0 || columns > 0,
    ensures
        step == MAX_BATCH_ELEMENTS as int / (if rows >= columns {
            rows as int
        } else {
            columns as int
        }),
        rows * step <= MAX_BATCH_ELEMENTS,
        columns * step <= MAX_BATCH_ELEMENTS,
        rows <= MAX_BATCH_ELEMENTS && columns <= MAX_BATCH_ELEMENTS ==> step > 0,
{
    let most: usize = if rows >= columns {
        rows
    } else {
        columns
    };
    let step: usize = MAX_BATCH_ELEMENTS / most;
    proof {
        let b = MAX_BATCH_ELEMENTS as int;
        vstd::arithmetic::div_mod::lemma_fundamental_div_mod(b, most as int);
        vstd::arithmetic::div_mod::lemma_mod_bound(b, most as int);
        assert(rows * step <= b && columns * step <= b && (most <= b ==> step > 0))
            by (nonlinear_arith)
            requires
                b == most * step + b % (most as int),
                0 <= b % (most as int) < most,
                0 <= rows <= most,
                0 <= columns <= most,
                step >= 0,
        ;
    }
    step
}

/// The elements that are asked for.
pub open spec fn asked(requests: Seq<(usize, u64, u64)>) -> Set<(u64, u64)>
    decreases requests.len(),
{
    if requests.len() == 0 {
        Set::empty()
    } else {
        asked(requests.drop_last()).insert((requests.last().1, requests.last().2))
    }
}

proof fn lemma_asked(requests: Seq<(usize, u64, u64)>)
    ensures
        asked(requests).finite(),
        forall|m: int|
            0 <= m < requests.len() ==> asked(requests).contains(
                ((#[trigger] requests[m]).1, requests[m].2),
            ),
        forall|r: u64, c: u64| #[trigger]
            asked(requests).contains((r, c)) ==> row_asked(requests, r) && column_asked(
                requests,
                c,
            ),
    decreases requests.len(),
{
    if requests.len() > 0 {
        lemma_asked(requests.drop_last());
        assert forall|r: u64, c: u64| #[trigger] asked(requests).contains((r, c)) implies row_asked(
            requests,
            r,
        ) && column_asked(requests, c) by {
            let init = requests.drop_last();
            let last = requests[requests.len() - 1];
            if asked(init).contains((r, c)) {
                let m = choose|m: int| 0 <= m < init.len() && (#[trigger] init[m]).1 == r;
                assert(requests[m].1 == r);
                let m = choose|m: int| 0 <= m < init.len() && (#[trigger] init[m]).2 == c;
                assert(requests[m].2 == c);
            } else {
                assert(last.1 == r && last.2 == c);
            }
        }
        assert forall|m: int| 0 <= m < requests.len() implies asked(requests).contains(
            ((#[trigger] requests[m]).1, requests[m].2),
        ) by {
            if m < requests.len() - 1 {
                assert(requests.drop_last()[m] == requests[m]);
            }
        }
    }
}

/// The columns that are asked for in each row, row by row.
#[derive(Debug)]
struct RowColumns {
    rows: Vec<u64>,
    columns: Vec<Vec<u64>>,
}

/// How many columns there are, over all rows.
spec fn column_total(columns: Seq<Vec<u64>>) -> int
    decreases columns.len(),
{
    if columns.len() == 0 {
        0
    } else {
        column_total(columns.drop_last()) + columns.last()@.len()
    }
}

proof fn lemma_column_update(columns: Seq<Vec<u64>>, at: int, to: Vec<u64>)
    requires
        0 <= at < columns.len(),
    ensures
        column_total(columns.update(at, to)) == column_total(columns) - columns[at]@.len()
            + to@.len(),
    decreases columns.len(),
{
    let changed = columns.update(at, to);
    if at == columns.len() - 1 {
        assert(changed.drop_last() =~= columns.drop_last());
    } else {
        assert(changed.drop_last() =~= columns.drop_last().update(at, to));
        lemma_column_update(columns.drop_last(), at, to);
    }
}

proof fn lemma_column_insert(columns: Seq<Vec<u64>>, at: int, more: Vec<u64>)
    requires
        0 <= at <= columns.len(),
    ensures
        column_total(columns.insert(at, more)) == column_total(columns) + more@.len(),
    decreases columns.len(),
{
    let longer = columns.insert(at, more);
    if at == columns.len() {
        assert(longer.drop_last() =~= columns);
    } else {
        assert(longer.drop_last() =~= columns.drop_last().insert(at, more));
        lemma_column_insert(columns.drop_last(), at, more);
    }
}

impl RowColumns {
    spec fn wf(&self) -> bool {
        &&& increasing(self.rows@)
        &&& self.columns@.len() == self.rows@.len()
        &&& forall|i: int|
            0 <= i < self.columns@.len() ==> increasing((#[trigger] self.columns@[i])@)
                && self.columns@[i]@.len() > 0
    }

    spec fn holds(&self, row: u64, column: u64) -> bool {
        exists|i: int|
            0 <= i < self.rows@.len() && #[trigger] self.rows@[i] == row
                && self.columns@[i]@.contains(column)
    }

    spec fn has_column(&self, column: u64) -> bool {
        exists|i: int| 0 <= i < self.columns@.len() && #[trigger] self.columns@[i]@.contains(column)
    }

    /// Ask for one more element.
    fn ask(&mut self, row: u64, column: u64)
        requires
            old(self).wf(),
        ensures
            final(self).wf(),
            forall|r: u64, c: u64|
                #[trigger] final(self).holds(r, c) <==> old(self).holds(r, c) || (r == row && c
                    == column),
            column_total(final(self).columns@) == column_total(old(self).columns@) + if old(
                self,
            ).holds(row, column) {
                0int
            } else {
                1
            },
            final(self).rows@.len() <= old(self).rows@.len() + 1,
    {
        let ghost before = *self;
        let (i, fresh) = insert_unique(&mut self.rows, row);
        if fresh {
            self.columns.insert(i, Vec::new());
        }
        let ghost middle = self.columns@;
        let mut list = self.columns.remove(i);
        let ghost old_list = list@;
        let (j, new) = insert_unique(&mut list, column);
        let ghost new_list = list@;
        self.columns.insert(i, list);
        proof {
            let k = i as int;
            let rows = self.rows@;
            let columns = self.columns@;
            assert(columns =~= middle.update(k, columns[k]));
            assert(columns[k]@ == new_list);
            assert(rows[k] == row);
            let from = |g: int|
                if !fresh || g < k {
                    g
                } else {
                    g - 1
                };
            assert forall|g: int| 0 <= g < rows.len() && g != k implies 0 <= from(g)
                < before.rows@.len() && #[trigger] rows[g] == before.rows@[from(g)] && columns[g]
                == before.columns@[from(g)] by {}
            assert forall|g: int| 0 <= g < columns.len() implies increasing(
                (#[trigger] columns[g])@,
            ) && columns[g]@.len() > 0 by {
                if g != k {
                    assert(rows[g] == before.rows@[from(g)]);
                    assert(increasing(before.columns@[from(g)]@));
                }
            }
            assert(before.holds(row, column) <==> !fresh && old_list.contains(column)) by {
                if before.holds(row, column) {
                    let g = choose|g: int|
                        0 <= g < before.rows@.len() && #[trigger] before.rows@[g] == row
                            && before.columns@[g]@.contains(column);
                    assert(before.rows@.contains(row));
                    assert(!fresh);
                    if g != k {
                        if g < k {
                            assert(before.rows@[g] < before.rows@[k]);
                        } else {
                            assert(before.rows@[k] < before.rows@[g]);
                        }
                    }
                }
                if !fresh && old_list.contains(column) {
                    assert(before.rows@[k] == row);
                }
            }
            assert forall|r: u64, c: u64| #[trigger] self.holds(r, c) <==> before.holds(r, c) || (r
                == row && c == column) by {
                if self.holds(r, c) {
                    let g = choose|g: int|
                        0 <= g < rows.len() && #[trigger] rows[g] == r && columns[g]@.contains(c);
                    if g == k {
                        assert(new_list.contains(c));
                        if c != column {
                            assert(old_list.contains(c));
                            assert(!fresh);
                            assert(before.rows@[k] == r);
                        }
                    } else {
                        assert(before.rows@[from(g)] == r);
                    }
                }
                if before.holds(r, c) {
                    let g = choose|g: int|
                        0 <= g < before.rows@.len() && #[trigger] before.rows@[g] == r
                            && before.columns@[g]@.contains(c);
                    let to = if !fresh || g < k {
                        g
                    } else {
                        g + 1
                    };
                    assert(rows[to] == r);
                    if to == k {
                        assert(old_list.contains(c));
                        assert(new_list.contains(c));
                    }
                    assert(columns[to]@.contains(c));
                }
                if r == row && c == column {
                    assert(rows[k] == r);
                    assert(new_list.contains(c));
                }
            }
            lemma_column_update(middle, k, columns[k]);
            if fresh {
                assert(middle =~= before.columns@.insert(k, middle[k]));
                lemma_column_insert(before.columns@, k, middle[k]);
            }
        }
    }
}

/// Columns and rows that belong together.
spec fn area(entries: Seq<(Vec<u64>, Vec<u64>)>) -> int
    decreases entries.len(),
{
    if entries.len() == 0 {
        0
    } else {
        area(entries.drop_last()) + entries.last().0@.len() * entries.last().1@.len()
    }
}

proof fn lemma_area_update(
    entries: Seq<(Vec<u64>, Vec<u64>)>,
    at: int,
    entry: (Vec<u64>, Vec<u64>),
)
    requires
        0 <= at < entries.len(),
    ensures
        area(entries.update(at, entry)) == area(entries) - entries[at].0@.len()
            * entries[at].1@.len() + entry.0@.len() * entry.1@.len(),
    decreases entries.len(),
{
    let changed = entries.update(at, entry);
    if at == entries.len() - 1 {
        assert(changed.drop_last() =~= entries.drop_last());
    } else {
        assert(changed.drop_last() =~= entries.drop_last().update(at, entry));
        lemma_area_update(entries.drop_last(), at, entry);
    }
}

proof fn lemma_area_insert(
    entries: Seq<(Vec<u64>, Vec<u64>)>,
    at: int,
    entry: (Vec<u64>, Vec<u64>),
)
    requires
        0 <= at <= entries.len(),
    ensures
        area(entries.insert(at, entry)) == area(entries) + entry.0@.len() * entry.1@.len(),
    decreases entries.len(),
{
    let longer = entries.insert(at, entry);
    if at == entries.len() {
        assert(longer.drop_last() =~= entries);
    } else {
        assert(longer.drop_last() =~= entries.drop_last().insert(at, entry));
        lemma_area_insert(entries.drop_last(), at, entry);
    }
}

/// The groups answer every row with all the columns that are asked for in it.
spec fn grouped(by_row: RowColumns, entries: Seq<(Vec<u64>, Vec<u64>)>, home: Seq<usize>) -> bool {
    &&& home.len() == by_row.rows@.len()
    &&& forall|g: int|
        0 <= g < entries.len() ==> increasing((#[trigger] entries[g]).0@) && increasing(
            entries[g].1@,
        ) && entries[g].0@.len() > 0 && entries[g].1@.len() > 0
    &&& forall|i: int|
        0 <= i < home.len() ==> (#[trigger] home[i]) < entries.len()
            && entries[home[i] as int].1@.contains(by_row.rows@[i])
    &&& forall|i: int, c: u64|
        0 <= i < home.len() && by_row.columns@[i]@.contains(c) ==> #[trigger] entries[(
        #[trigger] home[i]) as int].0@.contains(c)
    &&& forall|g: int| 0 <= g < entries.len() ==> from_rows(by_row, #[trigger] entries[g])
}

/// The group holds only rows and columns that are asked for.
spec fn from_rows(by_row: RowColumns, entry: (Vec<u64>, Vec<u64>)) -> bool {
    &&& forall|a: int| 0 <= a < entry.1@.len() ==> by_row.rows@.contains(#[trigger] entry.1@[a])
    &&& forall|a: int| 0 <= a < entry.0@.len() ==> by_row.has_column(#[trigger] entry.0@[a])
}

impl RowColumns {
    /// All columns that are asked for in any row.
    fn all_columns(&self) -> (all: Vec<u64>)
        requires
            self.wf(),
        ensures
            increasing(all@),
            forall|i: int, c: u64|
                0 <= i < self.columns@.len() && #[trigger] self.columns@[i]@.contains(c)
                    ==> all@.contains(c),
            forall|a: int| 0 <= a < all@.len() ==> self.has_column(#[trigger] all@[a]),
            all@.len() <= column_total(self.columns@),
            self.columns@.len() > 0 ==> all@.len() > 0,
    {
        let mut all: Vec<u64> = Vec::new();
        let mut i: usize = 0;
        proof {
            assert(self.columns@.take(0) =~= Seq::<Vec<u64>>::empty());
        }
        while i < self.columns.len()
            invariant
                i <= self.columns.len(),
                self.wf(),
                increasing(all@),
                all@.len() <= column_total(self.columns@.take(i as int)),
                forall|k: int, c: u64|
                    0 <= k < i && #[trigger] self.columns@[k]@.contains(c) ==> all@.contains(c),
                forall|a: int| 0 <= a < all@.len() ==> self.has_column(#[trigger] all@[a]),
            decreases self.columns.len() - i,
        {
            let list = &self.columns[i];
            proof {
                assert(self.columns@.take(i + 1).drop_last() =~= self.columns@.take(i as int));
                assert(self.columns@.take(i + 1).last() == list);
            }
            let mut j: usize = 0;
            while j < list.len()
                invariant
                    i < self.columns.len(),
                    *list == self.columns@[i as int],
                    j <= list.len(),
                    increasing(all@),
                    all@.len() <= column_total(self.columns@.take(i as int)) + j,
                    forall|k: int, c: u64|
                        0 <= k < i && #[trigger] self.columns@[k]@.contains(c) ==> all@.contains(c),
                    forall|k: int| 0 <= k < j ==> all@.contains(#[trigger] list@[k]),
                    forall|a: int| 0 <= a < all@.len() ==> self.has_column(#[trigger] all@[a]),
                decreases list.len() - j,
            {
                let ghost before = all@;
                insert_unique(&mut all, list[j]);
                proof {
                    assert forall|k: int| 0 <= k < j + 1 implies all@.contains(
                        #[trigger] list@[k],
                    ) by {
                        if k < j {
                            assert(before.contains(list@[k]));
                        }
                    }
                    assert forall|a: int| 0 <= a < all@.len() implies self.has_column(
                        #[trigger] all@[a],
                    ) by {
                        assert(all@.contains(all@[a]));
                        if before.contains(all@[a]) {
                            let b = choose|b: int| 0 <= b < before.len() && before[b] == all@[a];
                            assert(self.has_column(before[b]));
                        } else {
                            assert(self.columns@[i as int]@.contains(list@[j as int]));
                        }
                    }
                }
                j += 1;
            }
            proof {
                assert forall|k: int, c: u64|
                    0 <= k < i + 1 && #[trigger] self.columns@[k]@.contains(c) implies all@.contains(
                    c,
                ) by {
                    if k == i {
                        let m = choose|m: int| 0 <= m < list@.len() && list@[m] == c;
                        assert(all@.contains(list@[m]));
                    }
                }
            }
            i += 1;
        }
        proof {
            assert(self.columns@.take(i as int) =~= self.columns@);
            if self.columns@.len() > 0 {
                assert(self.columns@[0]@.len() > 0);
                let c = self.columns@[0]@[0];
                assert(self.columns@[0]@.contains(c));
                assert(all@.contains(c));
            }
        }
        all
    }

    /// Rows that ask for the same columns, together. Gives for each row its group.
    fn group(&self) -> (result: (Vec<(Vec<u64>, Vec<u64>)>, Vec<usize>))
        requires
            self.wf(),
        ensures
            grouped(*self, result.0@, result.1@),
            area(result.0@) == column_total(self.columns@),
    {
        let mut groups: Groups<u64> = Groups::new();
        let mut i: usize = 0;
        proof {
            assert(self.columns@.take(0) =~= Seq::<Vec<u64>>::empty());
        }
        while i < self.rows.len()
            invariant
                i <= self.rows.len(),
                self.wf(),
                groups.wf(),
                area(groups.entries@) == column_total(self.columns@.take(i as int)),
                forall|g: int|
                    0 <= g < groups.entries@.len() ==> group_before(
                        #[trigger] groups.entries@[g],
                        self.rows@,
                        i as int,
                    ),
                forall|g: int|
                    0 <= g < groups.entries@.len() ==> names_columns(
                        self.columns@,
                        (#[trigger] groups.entries@[g]).0@,
                    ),
                forall|k: int|
                    0 <= k < i ==> groups.listed((#[trigger] self.columns@[k])@).contains(
                        self.rows@[k],
                    ),
            decreases self.rows.len() - i,
        {
            let ghost before = groups;
            let key = slice_to_vec(self.columns[i].as_slice());
            let ghost name = key@;
            let row: u64 = self.rows[i];
            let (at, fresh) = groups.push(key, row);
            proof {
                let k = at as int;
                let old_entries = before.entries@;
                let entries = groups.entries@;
                assert(self.columns@.take(i + 1).drop_last() =~= self.columns@.take(i as int));
                assert(self.columns@.take(i + 1).last() == self.columns@[i as int]);
                assert(increasing(self.columns@[i as int]@));
                let n = name.len() as int;
                if fresh {
                    lemma_area_insert(old_entries, k, entries[k]);
                    assert(entries[k].0@.len() * entries[k].1@.len() == n) by (nonlinear_arith)
                        requires
                            entries[k].0@.len() == n,
                            entries[k].1@.len() == 1,
                    ;
                } else {
                    lemma_area_update(old_entries, k, entries[k]);
                    let m = old_entries[k].1@.len() as int;
                    assert(n * (m + 1) == n * m + n) by (nonlinear_arith);
                }
                assert forall|g: int| 0 <= g < entries.len() implies names_columns(
                    self.columns@,
                    (#[trigger] entries[g]).0@,
                ) by {
                    if g == k {
                        assert(self.columns@[i as int]@ == entries[g].0@);
                    } else {
                        let from = if !fresh || g < k {
                            g
                        } else {
                            g - 1
                        };
                        assert(entries[g] == old_entries[from]);
                        assert(names_columns(self.columns@, old_entries[from].0@));
                    }
                }
                assert forall|g: int| 0 <= g < entries.len() implies group_before(
                    #[trigger] entries[g],
                    self.rows@,
                    i + 1,
                ) by {
                    if g == k {
                        let list = entries[k].1@;
                        if !fresh {
                            assert(group_before(old_entries[k], self.rows@, i as int));
                        }
                        assert forall|a: int| 0 <= a < list.len() implies self.rows@.contains(
                            #[trigger] list[a],
                        ) by {
                            if a < list.len() - 1 {
                                assert(old_entries[k].1@[a] == list[a]);
                            } else {
                                assert(self.rows@[i as int] == list[a]);
                            }
                        }
                        assert forall|a: int, b: int| 0 <= a < b < list.len() implies
                            #[trigger] list[a] < #[trigger] list[b] by {
                            if b == list.len() - 1 {
                                assert(!fresh);
                                let old_list = old_entries[k].1@;
                                assert(old_list[a] == list[a]);
                                assert(below_rows(old_list[a], self.rows@, i as int));
                            } else {
                                assert(old_entries[k].1@[a] < old_entries[k].1@[b]);
                            }
                        }
                        assert forall|a: int| 0 <= a < list.len() implies below_rows(
                            #[trigger] list[a],
                            self.rows@,
                            i + 1,
                        ) by {
                            if a < list.len() - 1 {
                                assert(below_rows(old_entries[k].1@[a], self.rows@, i as int));
                                assert(old_entries[k].1@[a] == list[a]);
                            } else {
                                assert forall|j: int| i + 1 <= j < self.rows@.len() implies row
                                    < #[trigger] self.rows@[j] by {
                                    assert(self.rows@[i as int] < self.rows@[j]);
                                }
                            }
                        }
                    } else {
                        let from = if !fresh || g < k {
                            g
                        } else {
                            g - 1
                        };
                        assert(entries[g] == old_entries[from]);
                        assert(group_before(old_entries[from], self.rows@, i as int));
                        assert forall|a: int| 0 <= a < entries[g].1@.len() implies below_rows(
                            #[trigger] entries[g].1@[a],
                            self.rows@,
                            i + 1,
                        ) by {
                            assert(below_rows(old_entries[from].1@[a], self.rows@, i as int));
                        }
                    }
                }
                assert forall|m: int| 0 <= m < i + 1 implies groups.listed(
                    (#[trigger] self.columns@[m])@,
                ).contains(self.rows@[m]) by {
                    let list = before.listed(name);
                    if m == i {
                        assert(list.push(row)[list.len() as int] == row);
                    } else if self.columns@[m]@ == name {
                        assert(list.contains(self.rows@[m]));
                        let p = choose|p: int| 0 <= p < list.len() && list[p] == self.rows@[m];
                        assert(list.push(row)[p] == self.rows@[m]);
                    }
                }
            }
            i += 1;
        }
        proof {
            assert(self.columns@.take(i as int) =~= self.columns@);
        }
        let mut home: Vec<usize> = Vec::new();
        let mut i: usize = 0;
        while i < self.rows.len()
            invariant
                i <= self.rows.len(),
                self.wf(),
                groups.wf(),
                forall|k: int|
                    0 <= k < self.rows@.len() ==> groups.listed(
                        (#[trigger] self.columns@[k])@,
                    ).contains(self.rows@[k]),
                home.len() == i,
                forall|k: int|
                    0 <= k < i ==> (#[trigger] home@[k]) < groups.entries@.len()
                        && groups.entries@[home@[k] as int].0@ == self.columns@[k]@
                        && groups.entries@[home@[k] as int].1@.contains(self.rows@[k]),
            decreases self.rows.len() - i,
        {
            let found = groups.find_key(self.columns[i].as_slice());
            proof {
                assert(groups.listed(self.columns@[i as int]@).contains(self.rows@[i as int]));
                if let Some(place) = found {
                    groups.lemma_listed(place as int);
                }
            }
            match found {
                Some(place) => {
                    home.push(place);
                },
                None => {
                    home.push(0);
                },
            }
            i += 1;
        }
        proof {
            assert forall|g: int| 0 <= g < groups.entries@.len() implies increasing(
                (#[trigger] groups.entries@[g]).0@,
            ) && increasing(groups.entries@[g].1@) && groups.entries@[g].0@.len() > 0
                && groups.entries@[g].1@.len() > 0 by {
                assert(group_before(groups.entries@[g], self.rows@, self.rows@.len() as int));
            }
            assert forall|g: int| 0 <= g < groups.entries@.len() implies from_rows(
                *self,
                #[trigger] groups.entries@[g],
            ) by {
                let entry = groups.entries@[g];
                assert(group_before(entry, self.rows@, self.rows@.len() as int));
                assert(names_columns(self.columns@, entry.0@));
                let q = choose|q: int|
                    0 <= q < self.columns@.len() && (#[trigger] self.columns@[q])@ == entry.0@;
                assert forall|a: int| 0 <= a < entry.0@.len() implies self.has_column(
                    #[trigger] entry.0@[a],
                ) by {
                    assert(self.columns@[q]@.contains(entry.0@[a]));
                }
            }
        }
        (groups.entries, home)
    }
}

/// The columns are those of one of the rows.
spec fn names_columns(columns: Seq<Vec<u64>>, key: Seq<u64>) -> bool {
    exists|q: int| 0 <= q < columns.len() && (#[trigger] columns[q])@ == key
}

/// The row comes before those that were not looked at.
spec fn below_rows(row: u64, rows: Seq<u64>, n: int) -> bool {
    forall|j: int| n <= j < rows.len() ==> row < #[trigger] rows[j]
}

/// A group of rows that were looked at, in order, under columns that are in order.
spec fn group_before(entry: (Vec<u64>, Vec<u64>), rows: Seq<u64>, n: int) -> bool {
    &&& forall|a: int| 0 <= a < entry.1@.len() ==> rows.contains(#[trigger] entry.1@[a])
    &&& increasing(entry.0@)
    &&& entry.0@.len() > 0
    &&& increasing(entry.1@)
    &&& forall|a: int| 0 <= a < entry.1@.len() ==> below_rows(#[trigger] entry.1@[a], rows, n)
}

/// A request is answered by the pair at a place of a rectangle.
pub open spec fn answers(rectangle: Rectangle, k: int, request: (usize, u64, u64)) -> bool {
    let (position, place) = rectangle_pairs(rectangle)[k];
    &&& position == request.0
    &&& 0 <= place < rectangle.rows@.len() * rectangle.columns@.len()
    &&& cell(rectangle, place) == (request.1, request.2)
}

/// The pair at a place of the rectangle answers one of the requests.
pub open spec fn pair_asked(
    rectangle: Rectangle,
    k: int,
    requests: Seq<(usize, u64, u64)>,
) -> bool {
    exists|m: int| 0 <= m < requests.len() && #[trigger] answers(rectangle, k, requests[m])
}

/// Every pair of the rectangle answers one of the requests.
pub open spec fn pairs_asked(rectangle: Rectangle, requests: Seq<(usize, u64, u64)>) -> bool {
    forall|k: int|
        0 <= k < rectangle_pairs(rectangle).len() ==> #[trigger] pair_asked(rectangle, k, requests)
}

/// The request is answered by some pair of some rectangle.
pub open spec fn is_answered(rectangles: Seq<Rectangle>, request: (usize, u64, u64)) -> bool {
    exists|r: int, k: int|
        0 <= r < rectangles.len() && 0 <= k < rectangle_pairs(rectangles[r]).len()
            && #[trigger] answers(rectangles[r], k, request)
}

/// Some request is for the row.
pub open spec fn row_asked(requests: Seq<(usize, u64, u64)>, row: u64) -> bool {
    exists|m: int| 0 <= m < requests.len() && (#[trigger] requests[m]).1 == row
}

/// Some request is for the column.
pub open spec fn column_asked(requests: Seq<(usize, u64, u64)>, column: u64) -> bool {
    exists|m: int| 0 <= m < requests.len() && (#[trigger] requests[m]).2 == column
}

/// The rectangle holds only rows and columns that are asked for.
pub open spec fn only_asked(rectangle: Rectangle, requests: Seq<(usize, u64, u64)>) -> bool {
    &&& forall|i: int|
        0 <= i < rectangle.rows@.len() ==> row_asked(requests, #[trigger] rectangle.rows@[i])
    &&& forall|j: int|
        0 <= j < rectangle.columns@.len() ==> column_asked(
            requests,
            #[trigger] rectangle.columns@[j],
        )
}

/// How many pairs the rectangles have.
pub open spec fn pair_total(rectangles: Seq<Rectangle>) -> int
    decreases rectangles.len(),
{
    if rectangles.len() == 0 {
        0
    } else {
        pair_total(rectangles.drop_last()) + rectangle_pairs(rectangles.last()).len()
    }
}

/// How many elements the rectangles compute.
pub open spec fn computed(rectangles: Seq<Rectangle>) -> int
    decreases rectangles.len(),
{
    if rectangles.len() == 0 {
        0
    } else {
        computed(rectangles.drop_last()) + rectangles.last().rows@.len()
            * rectangles.last().columns@.len()
    }
}

/// How many pairs are listed.
spec fn list_total(lists: Seq<Vec<(usize, usize)>>) -> int
    decreases lists.len(),
{
    if lists.len() == 0 {
        0
    } else {
        list_total(lists.drop_last()) + lists.last()@.len()
    }
}

proof fn lemma_list_update(lists: Seq<Vec<(usize, usize)>>, at: int, to: Vec<(usize, usize)>)
    requires
        0 <= at < lists.len(),
    ensures
        list_total(lists.update(at, to)) == list_total(lists) - lists[at]@.len() + to@.len(),
    decreases lists.len(),
{
    let changed = lists.update(at, to);
    if at == lists.len() - 1 {
        assert(changed.drop_last() =~= lists.drop_last());
    } else {
        assert(changed.drop_last() =~= lists.drop_last().update(at, to));
        lemma_list_update(lists.drop_last(), at, to);
    }
}

proof fn lemma_list_empty(lists: Seq<Vec<(usize, usize)>>)
    requires
        forall|i: int| 0 <= i < lists.len() ==> (#[trigger] lists[i])@.len() == 0,
    ensures
        list_total(lists) == 0,
    decreases lists.len(),
{
    if lists.len() > 0 {
        assert(lists[lists.len() - 1]@.len() == 0);
        assert forall|i: int| 0 <= i < lists.drop_last().len() implies (
        #[trigger] lists.drop_last()[i])@.len() == 0 by {
            assert(lists[i]@.len() == 0);
        }
        lemma_list_empty(lists.drop_last());
    }
}

/// The pair takes the request from the right place of a group.
spec fn pair_answers(
    entry: (Vec<u64>, Vec<u64>),
    pair: (usize, usize),
    request: (usize, u64, u64),
) -> bool {
    let columns = entry.0@.len() as int;
    &&& pair.0 == request.0
    &&& 0 <= pair.1 < entry.1@.len() * columns
    &&& entry.1@[pair.1 as int / columns] == request.1
    &&& entry.0@[pair.1 as int % columns] == request.2
}

/// The pair takes one of the requests from the right place of a group.
spec fn pair_taken(
    entry: (Vec<u64>, Vec<u64>),
    pair: (usize, usize),
    requests: Seq<(usize, u64, u64)>,
    n: int,
) -> bool {
    exists|q: int| 0 <= q < n && #[trigger] pair_answers(entry, pair, requests[q])
}

/// Some pair takes the request from the right place of its group.
spec fn request_taken(
    entries: Seq<(Vec<u64>, Vec<u64>)>,
    lists: Seq<Vec<(usize, usize)>>,
    request: (usize, u64, u64),
) -> bool {
    exists|g: int, k: int|
        0 <= g < lists.len() && 0 <= k < lists[g]@.len() && #[trigger] pair_answers(
            entries[g],
            lists[g]@[k],
            request,
        )
}

/// A rectangle of rows and columns that are listed holds nothing but what is asked for.
proof fn lemma_only_asked(
    by_row: RowColumns,
    rectangle: Rectangle,
    entry: (Vec<u64>, Vec<u64>),
    requests: Seq<(usize, u64, u64)>,
)
    requires
        by_row.wf(),
        forall|r: u64, c: u64| #[trigger]
            by_row.holds(r, c) <==> asked(requests).contains((r, c)),
        from_rows(by_row, entry),
        rectangle.columns@ == entry.0@,
        rectangle.rows@ == entry.1@,
    ensures
        only_asked(rectangle, requests),
{
    lemma_asked(requests);
    assert forall|i: int| 0 <= i < rectangle.rows@.len() implies row_asked(
        requests,
        #[trigger] rectangle.rows@[i],
    ) by {
        let row = rectangle.rows@[i];
        assert(by_row.rows@.contains(entry.1@[i]));
        let a = choose|a: int| 0 <= a < by_row.rows@.len() && by_row.rows@[a] == row;
        let c = by_row.columns@[a]@[0];
        assert(by_row.columns@[a]@.contains(c));
        assert(by_row.holds(row, c));
        assert(asked(requests).contains((row, c)));
    }
    assert forall|j: int| 0 <= j < rectangle.columns@.len() implies column_asked(
        requests,
        #[trigger] rectangle.columns@[j],
    ) by {
        let column = rectangle.columns@[j];
        assert(by_row.has_column(entry.0@[j]));
        let a = choose|a: int|
            0 <= a < by_row.columns@.len() && #[trigger] by_row.columns@[a]@.contains(column);
        let row = by_row.rows@[a];
        assert(by_row.holds(row, column));
        assert(asked(requests).contains((row, column)));
    }
}

/// Plan which rectangles of a matrix to compute for some of its elements. No more is computed
/// than the bound allows for each distinct element, and every request is answered.
pub fn plan_rectangles(requests: Vec<(usize, u64, u64)>) -> (rectangles: Vec<Rectangle>)
    requires
        requests@.len() <= MAX_BATCH_ELEMENTS,
    ensures
        forall|r: int|
            0 <= r < rectangles@.len() ==> rectangle_wf(#[trigger] rectangles@[r])
                && rectangles@[r].scatter is Explicit,
        forall|r: int|
            0 <= r < rectangles@.len() ==> pairs_asked(#[trigger] rectangles@[r], requests@)
                && only_asked(rectangles@[r], requests@),
        forall|m: int|
            0 <= m < requests@.len() ==> is_answered(rectangles@, #[trigger] requests@[m]),
        pair_total(rectangles@) == requests@.len(),
        computed(rectangles@) <= MAX_RECTANGLE_AMPLIFICATION * asked(requests@).len(),
{
    let mut by_row = RowColumns { rows: Vec::new(), columns: Vec::new() };
    let n: usize = requests.len();
    let mut m: usize = 0;
    proof {
        assert(requests@.take(0) =~= Seq::<(usize, u64, u64)>::empty());
    }
    while m < n
        invariant
            m <= n,
            n == requests.len(),
            by_row.wf(),
            by_row.rows@.len() <= m,
            forall|r: u64, c: u64|
                #[trigger] by_row.holds(r, c) <==> asked(requests@.take(m as int)).contains((r, c)),
            column_total(by_row.columns@) == asked(requests@.take(m as int)).len(),
            column_total(by_row.columns@) <= m,
        decreases n - m,
    {
        let (_, row, column) = requests[m];
        proof {
            assert(requests@.take(m + 1).drop_last() =~= requests@.take(m as int));
            assert(requests@.take(m + 1).last() == requests@[m as int]);
            lemma_asked(requests@.take(m as int));
            let before = asked(requests@.take(m as int));
            assert(asked(requests@.take(m + 1)) == before.insert((row, column)));
            assert(by_row.holds(row, column) <==> before.contains((row, column)));
        }
        let ghost old_rows = by_row;
        by_row.ask(row, column);
        proof {
            assert forall|r: u64, c: u64| #[trigger] by_row.holds(r, c) <==> asked(
                requests@.take(m + 1),
            ).contains((r, c)) by {
                assert(old_rows.holds(r, c) <==> asked(requests@.take(m as int)).contains((r, c)));
            }
        }
        m += 1;
    }
    let ghost unique = asked(requests@).len() as int;
    proof {
        assert(requests@.take(m as int) =~= requests@);
    }
    let columns = by_row.all_columns();
    let mut distinct: usize = 0;
    let mut i: usize = 0;
    proof {
        assert(by_row.columns@.take(0) =~= Seq::<Vec<u64>>::empty());
    }
    while i < by_row.columns.len()
        invariant
            i <= by_row.columns.len(),
            distinct == column_total(by_row.columns@.take(i as int)),
            column_total(by_row.columns@) <= MAX_BATCH_ELEMENTS,
        decreases by_row.columns.len() - i,
    {
        proof {
            assert(by_row.columns@.take(i + 1).drop_last() =~= by_row.columns@.take(i as int));
            assert(by_row.columns@.take(i + 1).last() == by_row.columns@[i as int]);
            lemma_column_prefix(by_row.columns@, i + 1);
        }
        distinct = distinct + by_row.columns[i].len();
        i += 1;
    }
    proof {
        assert(by_row.columns@.take(i as int) =~= by_row.columns@);
        assert(by_row.rows@.len() * columns@.len() <= 4096 * 4096) by (nonlinear_arith)
            requires
                0 <= by_row.rows@.len() <= 4096,
                0 <= columns@.len() <= 4096,
        ;
    }
    let (entries, home) = if by_row.rows.len() * columns.len() <= MAX_RECTANGLE_AMPLIFICATION
        * distinct {
        let rows = slice_to_vec(by_row.rows.as_slice());
        let home: Vec<usize> = vec![0; rows.len()];
        let mut entries: Vec<(Vec<u64>, Vec<u64>)> = Vec::new();
        if rows.len() > 0 {
            entries.push((columns, rows));
        }
        proof {
            assert(grouped(by_row, entries@, home@)) by {
                assert forall|i: int| 0 <= i < home@.len() implies (#[trigger] home@[i])
                    < entries@.len() && entries@[home@[i] as int].1@.contains(
                    by_row.rows@[i],
                ) by {
                    assert(entries@[0].1@[i] == by_row.rows@[i]);
                }
                assert forall|i: int, c: u64|
                    0 <= i < home@.len() && by_row.columns@[i]@.contains(c) implies
                    #[trigger] entries@[(#[trigger] home@[i]) as int].0@.contains(c) by {
                    assert(columns@.contains(c));
                }
            }
            if rows@.len() > 0 {
                assert(entries@.drop_last() =~= Seq::<(Vec<u64>, Vec<u64>)>::empty());
                assert(area(entries@.drop_last()) == 0);
                vstd::arithmetic::mul::lemma_mul_is_commutative(
                    rows@.len() as int,
                    columns@.len() as int,
                );
            }
        }
        (entries, home)
    } else {
        by_row.group()
    };
    assert(area(entries@) <= MAX_RECTANGLE_AMPLIFICATION * unique);
    proof {
        lemma_area_bound(entries@);
    }
    let mut scatters: Vec<Vec<(usize, usize)>> = Vec::new();
    let mut g: usize = 0;
    while g < entries.len()
        invariant
            g <= entries.len(),
            scatters.len() == g,
            forall|k: int| 0 <= k < g ==> (#[trigger] scatters@[k])@.len() == 0,
        decreases entries.len() - g,
    {
        scatters.push(Vec::new());
        g += 1;
    }
    proof {
        lemma_list_empty(scatters@);
    }
    let mut m: usize = 0;
    while m < n
        invariant
            m <= n,
            n == requests.len(),
            by_row.wf(),
            forall|r: u64, c: u64|
                #[trigger] by_row.holds(r, c) <==> asked(requests@).contains((r, c)),
            grouped(by_row, entries@, home@),
            area(entries@) <= 2 * 4096,
            forall|g: int|
                0 <= g < entries@.len() ==> (#[trigger] entries@[g]).0@.len() * entries@[g].1@.len()
                    <= area(entries@),
            scatters@.len() == entries@.len(),
            list_total(scatters@) == m,
            forall|g: int, k: int|
                0 <= g < scatters@.len() && 0 <= k < scatters@[g]@.len() ==> pair_taken(
                    entries@[g],
                    #[trigger] scatters@[g]@[k],
                    requests@,
                    m as int,
                ),
            forall|q: int|
                0 <= q < m ==> request_taken(entries@, scatters@, #[trigger] requests@[q]),
        decreases n - m,
    {
        let (position, row, column) = requests[m];
        let ghost request = requests@[m as int];
        proof {
            lemma_asked(requests@);
            assert(asked(requests@).contains((requests@[m as int].1, requests@[m as int].2)));
            assert(by_row.holds(row, column));
            let i = choose|i: int|
                0 <= i < by_row.rows@.len() && #[trigger] by_row.rows@[i] == row
                    && by_row.columns@[i]@.contains(column);
            assert(by_row.rows@.contains(row));
        }
        let at: usize = match find(by_row.rows.as_slice(), row) {
            Some(at) => at,
            None => 0,
        };
        proof {
            let i = choose|i: int|
                0 <= i < by_row.rows@.len() && #[trigger] by_row.rows@[i] == row
                    && by_row.columns@[i]@.contains(column);
            if i < at {
                assert(by_row.rows@[i] < by_row.rows@[at as int]);
            } else if at < i {
                assert(by_row.rows@[at as int] < by_row.rows@[i]);
            }
            assert(by_row.columns@[at as int]@.contains(column));
            assert(entries@[home@[at as int] as int].0@.contains(column));
        }
        let g: usize = home[at];
        let i: usize = match find(entries[g].1.as_slice(), row) {
            Some(i) => i,
            None => 0,
        };
        let j: usize = match find(entries[g].0.as_slice(), column) {
            Some(j) => j,
            None => 0,
        };
        let width: usize = entries[g].0.len();
        let ghost height = entries@[g as int].1@.len() as int;
        proof {
            assert(entries@[g as int].0@.len() * entries@[g as int].1@.len() <= area(entries@));
            assert(i * width + j < height * width && 0 <= i * width && height * width == width
                * height) by (nonlinear_arith)
                requires
                    0 <= i < height,
                    0 <= j < width,
            ;
            vstd::arithmetic::div_mod::lemma_fundamental_div_mod_converse(
                i * width + j,
                width as int,
                i as int,
                j as int,
            );
        }
        let pair: (usize, usize) = (position, i * width + j);
        let ghost before = scatters@;
        let mut list = scatters.remove(g);
        let ghost old_list = list@;
        list.push(pair);
        scatters.insert(g, list);
        proof {
            let after = scatters@;
            assert(after =~= before.update(g as int, after[g as int]));
            lemma_list_update(before, g as int, after[g as int]);
            let last = old_list.len() as int;
            assert(pair_answers(entries@[g as int], after[g as int]@[last], requests@[m as int]));
            assert forall|h: int, k: int|
                0 <= h < after.len() && 0 <= k < after[h]@.len() implies pair_taken(
                entries@[h],
                #[trigger] after[h]@[k],
                requests@,
                m + 1,
            ) by {
                if h == g && k == last {
                    assert(pair_answers(entries@[h], after[h]@[k], requests@[m as int]));
                } else {
                    assert(before[h]@[k] == after[h]@[k]);
                    assert(pair_taken(entries@[h], before[h]@[k], requests@, m as int));
                    let q = choose|q: int|
                        0 <= q < m && #[trigger] pair_answers(
                            entries@[h],
                            before[h]@[k],
                            requests@[q],
                        );
                    assert(pair_answers(entries@[h], after[h]@[k], requests@[q]));
                }
            }
            assert forall|q: int| 0 <= q < m + 1 implies request_taken(
                entries@,
                after,
                #[trigger] requests@[q],
            ) by {
                if q < m {
                    assert(request_taken(entries@, before, requests@[q]));
                    let (h, k) = choose|h: int, k: int|
                        0 <= h < before.len() && 0 <= k < before[h]@.len() && #[trigger] pair_answers(
                            entries@[h],
                            before[h]@[k],
                            requests@[q],
                        );
                    assert(after[h]@[k] == before[h]@[k]);
                    assert(pair_answers(entries@[h], after[h]@[k], requests@[q]));
                } else {
                    assert(pair_answers(entries@[g as int], after[g as int]@[last], requests@[q]));
                }
            }
        }
        m += 1;
    }
    let ghost all_entries = entries@;
    let ghost all_scatters = scatters@;
    let mut entries = entries;
    let mut scatters = scatters;
    let mut rectangles: Vec<Rectangle> = Vec::new();
    while entries.len() > 0
        invariant
            entries@.len() == scatters@.len(),
            entries@.len() + rectangles@.len() == all_entries.len(),
            all_entries.len() == all_scatters.len(),
            entries@ == all_entries.skip(rectangles@.len() as int),
            scatters@ == all_scatters.skip(rectangles@.len() as int),
            forall|r: int|
                0 <= r < rectangles@.len() ==> is_rectangle(
                    #[trigger] rectangles@[r],
                    all_entries[r],
                    all_scatters[r],
                ),
            pair_total(rectangles@) == list_total(all_scatters.take(rectangles@.len() as int)),
            computed(rectangles@) == area(all_entries.take(rectangles@.len() as int)),
        decreases entries.len(),
    {
        let ghost before = rectangles@;
        let ghost r = rectangles@.len() as int;
        let (columns, rows) = entries.remove(0);
        let list = scatters.remove(0);
        let rectangle = Rectangle { rows, columns, scatter: Scatter::Explicit(list) };
        rectangles.push(rectangle);
        proof {
            assert(all_entries.skip(r)[0] == all_entries[r]);
            assert(all_scatters.skip(r)[0] == all_scatters[r]);
            assert(entries@ =~= all_entries.skip(r + 1));
            assert(scatters@ =~= all_scatters.skip(r + 1));
            assert(rectangles@.drop_last() =~= before);
            assert(all_scatters.take(r + 1).drop_last() =~= all_scatters.take(r));
            assert(all_entries.take(r + 1).drop_last() =~= all_entries.take(r));
            vstd::arithmetic::mul::lemma_mul_is_commutative(
                rows@.len() as int,
                columns@.len() as int,
            );
        }
    }
    proof {
        assert(all_scatters.take(rectangles@.len() as int) =~= all_scatters);
        assert(all_entries.take(rectangles@.len() as int) =~= all_entries);
        assert forall|r: int| 0 <= r < rectangles@.len() implies rectangle_wf(
            #[trigger] rectangles@[r],
        ) && rectangles@[r].scatter is Explicit && pairs_asked(rectangles@[r], requests@)
            && only_asked(rectangles@[r], requests@) by {
            assert(is_rectangle(rectangles@[r], all_entries[r], all_scatters[r]));
            assert(from_rows(by_row, all_entries[r]));
            lemma_only_asked(by_row, rectangles@[r], all_entries[r], requests@);
            assert(increasing(all_entries[r].0@));
            assert forall|k: int|
                0 <= k < rectangle_pairs(rectangles@[r]).len() implies #[trigger] pair_asked(
                rectangles@[r],
                k,
                requests@,
            ) by {
                let pair = all_scatters[r]@[k];
                assert(pair_taken(all_entries[r], pair, requests@, n as int));
                let q = choose|q: int|
                    0 <= q < n && #[trigger] pair_answers(all_entries[r], pair, requests@[q]);
                assert(answers(rectangles@[r], k, requests@[q]));
            }
        }
        assert forall|m: int| 0 <= m < requests@.len() implies is_answered(
            rectangles@,
            #[trigger] requests@[m],
        ) by {
            assert(request_taken(all_entries, all_scatters, requests@[m]));
            let (g, k) = choose|g: int, k: int|
                0 <= g < all_scatters.len() && 0 <= k < all_scatters[g]@.len()
                    && #[trigger] pair_answers(
                    all_entries[g],
                    all_scatters[g]@[k],
                    requests@[m],
                );
            assert(is_rectangle(rectangles@[g], all_entries[g], all_scatters[g]));
            assert(answers(rectangles@[g], k, requests@[m]));
        }
    }
    rectangles
}

/// The rectangle of a group and its pairs.
spec fn is_rectangle(
    rectangle: Rectangle,
    entry: (Vec<u64>, Vec<u64>),
    list: Vec<(usize, usize)>,
) -> bool {
    &&& rectangle.columns@ == entry.0@
    &&& rectangle.rows@ == entry.1@
    &&& rectangle.scatter == Scatter::Explicit(list)
}

proof fn lemma_column_prefix(columns: Seq<Vec<u64>>, n: int)
    requires
        0 <= n <= columns.len(),
    ensures
        0 <= column_total(columns.take(n)) <= column_total(columns),
    decreases columns.len(),
{
    if n == columns.len() {
        assert(columns.take(n) =~= columns);
        if n > 0 {
            lemma_column_prefix(columns.drop_last(), n - 1);
            assert(columns.drop_last().take(n - 1) =~= columns.drop_last());
        }
    } else {
        lemma_column_prefix(columns.drop_last(), n);
        assert(columns.drop_last().take(n) =~= columns.take(n));
    }
}

proof fn lemma_area_bound(entries: Seq<(Vec<u64>, Vec<u64>)>)
    ensures
        0 <= area(entries),
        forall|g: int|
            0 <= g < entries.len() ==> (#[trigger] entries[g]).0@.len() * entries[g].1@.len() <= area(
                entries,
            ),
    decreases entries.len(),
{
    if entries.len() > 0 {
        lemma_area_bound(entries.drop_last());
        let last = entries.last();
        assert(0 <= last.0@.len() * last.1@.len()) by (nonlinear_arith)
            requires
                last.0@.len() >= 0,
                last.1@.len() >= 0,
        ;
        assert forall|g: int| 0 <= g < entries.len() implies (#[trigger] entries[g]).0@.len()
            * entries[g].1@.len() <= area(entries) by {
            if g < entries.len() - 1 {
                assert(entries.drop_last()[g] == entries[g]);
            }
        }
    }
}

/// One rectangle of one matrix of a batch of matrices.
#[derive(Debug)]
pub struct MatrixPlan {
    /// Which matrix of the batch.
    pub prefix: Vec<u64>,
    pub rectangle: Rectangle,
}

/// The coordinate at a place of a plan's rectangle.
pub open spec fn plan_coord(plan: MatrixPlan, place: int) -> Seq<u64> {
    let (row, column) = cell(plan.rectangle, place);
    plan.prefix@.push(row).push(column)
}

/// The pair at a place takes the right element for a request of these coordinates.
pub open spec fn plan_pair_fits(plan: MatrixPlan, k: int, coords: Seq<Seq<u64>>) -> bool {
    let (position, place) = rectangle_pairs(plan.rectangle)[k];
    &&& 0 <= position < coords.len()
    &&& 0 <= place < plan.rectangle.rows@.len() * plan.rectangle.columns@.len()
    &&& plan_coord(plan, place) == coords[position]
}

/// The numbers lie in one tile of an axis.
pub open spec fn one_tile(values: Seq<u64>) -> bool {
    forall|i: int, j: int|
        0 <= i < values.len() && 0 <= j < values.len() ==> (#[trigger] values[i]) as int
            / TILE_SIDE as int == (#[trigger] values[j]) as int / TILE_SIDE as int
}

/// The coordinate is one of the matrix.
pub open spec fn in_matrix(prefix: Seq<u64>, coord: Seq<u64>) -> bool {
    &&& coord.len() == prefix.len() + 2
    &&& coord.take(prefix.len() as int) == prefix
}

/// Some element of the matrix that is asked for lies in the row.
pub open spec fn row_drawn(prefix: Seq<u64>, row: u64, coords: Seq<Seq<u64>>) -> bool {
    exists|o: int|
        0 <= o < coords.len() && in_matrix(prefix, #[trigger] coords[o])
            && coords[o][prefix.len() as int] == row
}

/// Some element of the matrix that is asked for lies in the column.
pub open spec fn column_drawn(prefix: Seq<u64>, column: u64, coords: Seq<Seq<u64>>) -> bool {
    exists|o: int|
        0 <= o < coords.len() && in_matrix(prefix, #[trigger] coords[o])
            && coords[o][prefix.len() as int + 1] == column
}

/// The plan computes nothing but rows and columns that are asked for, within one tile.
pub open spec fn drawn(plan: MatrixPlan, coords: Seq<Seq<u64>>) -> bool {
    &&& one_tile(plan.rectangle.rows@)
    &&& one_tile(plan.rectangle.columns@)
    &&& forall|i: int|
        0 <= i < plan.rectangle.rows@.len() ==> row_drawn(
            plan.prefix@,
            #[trigger] plan.rectangle.rows@[i],
            coords,
        )
    &&& forall|j: int|
        0 <= j < plan.rectangle.columns@.len() ==> column_drawn(
            plan.prefix@,
            #[trigger] plan.rectangle.columns@[j],
            coords,
        )
}

/// The plan computes rows and columns that are in order and asked for, and each of its pairs
/// takes the right element.
pub open spec fn plan_fits(plan: MatrixPlan, coords: Seq<Seq<u64>>) -> bool {
    &&& rectangle_wf(plan.rectangle)
    &&& drawn(plan, coords)
    &&& forall|k: int|
        0 <= k < rectangle_pairs(plan.rectangle).len() ==> #[trigger] plan_pair_fits(
            plan,
            k,
            coords,
        )
}

/// Some pair of some plan is for the element at a place of the request.
pub open spec fn is_planned(plans: Seq<MatrixPlan>, position: int) -> bool {
    exists|p: int, k: int|
        0 <= p < plans.len() && 0 <= k < rectangle_pairs(plans[p].rectangle).len() && (
        #[trigger] rectangle_pairs(plans[p].rectangle)[k]).0 == position
}

/// How many pairs the plans have.
pub open spec fn plan_total(plans: Seq<MatrixPlan>) -> int
    decreases plans.len(),
{
    if plans.len() == 0 {
        0
    } else {
        plan_total(plans.drop_last()) + rectangle_pairs(plans.last().rectangle).len()
    }
}

/// The plans answer a request of these coordinates: every pair takes the right element, every
/// element has a pair, and there are no more pairs than elements.
pub open spec fn covers(plans: Seq<MatrixPlan>, coords: Seq<Seq<u64>>) -> bool {
    &&& forall|p: int| 0 <= p < plans.len() ==> plan_fits(#[trigger] plans[p], coords)
    &&& forall|o: int| 0 <= o < coords.len() ==> #[trigger] is_planned(plans, o)
    &&& plan_total(plans) == coords.len()
}

proof fn lemma_planned_push(plans: Seq<MatrixPlan>, more: MatrixPlan)
    ensures
        plan_total(plans.push(more)) == plan_total(plans) + rectangle_pairs(more.rectangle).len(),
        forall|o: int| #[trigger] is_planned(plans, o) ==> is_planned(plans.push(more), o),
        forall|k: int|
            0 <= k < rectangle_pairs(more.rectangle).len() ==> is_planned(
                plans.push(more),
                (#[trigger] rectangle_pairs(more.rectangle)[k]).0,
            ),
{
    let longer = plans.push(more);
    assert(longer.drop_last() =~= plans);
    assert forall|o: int| #[trigger] is_planned(plans, o) implies is_planned(longer, o) by {
        let (p, k) = choose|p: int, k: int|
            0 <= p < plans.len() && 0 <= k < rectangle_pairs(plans[p].rectangle).len() && (
            #[trigger] rectangle_pairs(plans[p].rectangle)[k]).0 == o;
        assert(longer[p] == plans[p]);
        assert(rectangle_pairs(longer[p].rectangle)[k].0 == o);
    }
    assert forall|k: int| 0 <= k < rectangle_pairs(more.rectangle).len() implies is_planned(
        longer,
        (#[trigger] rectangle_pairs(more.rectangle)[k]).0,
    ) by {
        let p = plans.len() as int;
        assert(longer[p] == more);
        assert(rectangle_pairs(longer[p].rectangle)[k].0 == rectangle_pairs(more.rectangle)[k].0);
    }
}

/// The key of the tile that holds a coordinate: its matrix, and the tile of its row and column.
pub open spec fn tile_key(coord: Seq<u64>) -> Seq<u64> {
    let n = coord.len() as int;
    coord.take(n - 2).push((coord[n - 2] / TILE_SIDE as u64) as u64).push(
        (coord[n - 1] / TILE_SIDE as u64) as u64,
    )
}

/// The elements of a tile, in the order of the request: where each one stands in the request,
/// its row and its column.
pub open spec fn tile_list(coords: Seq<Seq<u64>>, key: Seq<u64>) -> Seq<(usize, u64, u64)>
    decreases coords.len(),
{
    if coords.len() == 0 {
        Seq::empty()
    } else {
        let rest = tile_list(coords.drop_last(), key);
        let coord = coords.last();
        if tile_key(coord) == key {
            rest.push(
                (
                    (coords.len() - 1) as usize,
                    coord[coord.len() - 2],
                    coord[coord.len() - 1],
                ),
            )
        } else {
            rest
        }
    }
}

/// The requested elements by tile.
pub type TileRequests = Groups<(usize, u64, u64)>;

/// The coordinates in the product that a request of a view on it names.
pub open spec fn resolved(map: Mapping, coords: Seq<Seq<u64>>, shape: Seq<u64>) -> Seq<Seq<u64>> {
    Seq::new(coords.len(), |o: int| coordinate_at(offset_at(map, coords[o]), shape))
}

/// The shape is that of a batch of matrices, with its row-major strides.
pub open spec fn matrix_shape(shape: Seq<u64>, strides: Seq<u64>) -> bool {
    &&& shape.len() >= 2
    &&& all_positive(shape)
    &&& volume(shape) <= u64::MAX
    &&& are_strides(strides, shape)
}

/// Sort the elements of a request by tile.
pub fn plan_tiles(
    mapping: &CoordinateMap,
    shape: &[u64],
    strides: &[u64],
    coords: &BatchRequest,
) -> (result: Result<TileRequests>)
    requires
        mapping.tables_wf(),
        coords.wf(),
        matrix_shape(shape@, strides@),
    ensures
        result is Ok <==> request_fits(coords@, mapping@.shape) && all_resolve(
            mapping@,
            request_coords(coords@, mapping@.shape),
            shape@,
            strides@,
        ),
        result matches Ok(tiles) ==> {
            let list = resolved(mapping@, request_coords(coords@, mapping@.shape), shape@);
            &&& tiles.wf()
            &&& forall|key: Seq<u64>| #[trigger] tiles.listed(key) == tile_list(list, key)
            &&& entry_total(tiles.entries@) == list.len()
            &&& forall|o: int| 0 <= o < list.len() ==> in_box(#[trigger] list[o], shape@)
        },
        (result matches Err(Error::InvalidSchema(_))) <==> coords@ is Linear && !product_fits(
            mapping@.shape,
        ),
        result matches Err(error) ==> error is InvalidSchema || error is InvalidCoord,
{
    let ghost map = mapping@;
    let ghost all = request_coords(coords@, map.shape);
    let ghost list = resolved(map, all, shape@);
    let rank: usize = shape.len();
    let mut tiles: TileRequests = Groups::new();
    let mut cursor = coords.cursor(mapping.shape.as_slice())?;
    let mut input = Coord::new();
    let mut mapped = Coord::new();
    let mut position: usize = 0;
    proof {
        coords.lemma_wf();
        assert forall|key: Seq<u64>| #[trigger] tiles.listed(key) == tile_list(
            list.take(0),
            key,
        ) by {
            assert(tiles.listed(key) =~= tile_list(list.take(0), key));
        }
    }
    let mut more = cursor.next_into(&mut input);
    while more
        invariant
            mapping.tables_wf(),
            map == mapping@,
            matrix_shape(shape@, strides@),
            rank == shape.len(),
            coords.wf(),
            request_fits(coords@, map.shape),
            all == request_coords(coords@, map.shape),
            all.len() == request_len(coords@),
            all.len() <= MAX_BATCH_ELEMENTS,
            list == resolved(map, all, shape@),
            cursor.wf(),
            cursor.spec_request() == coords@,
            cursor.spec_shape() == map.shape,
            more ==> cursor.spec_position() == position + 1 && position < all.len() && input@
                == all[position as int],
            !more ==> position == all.len(),
            position <= all.len(),
            tiles.wf(),
            forall|key: Seq<u64>|
                #[trigger] tiles.listed(key) == tile_list(list.take(position as int), key),
            entry_total(tiles.entries@) == position,
            forall|o: int|
                0 <= o < position ==> resolves(map, #[trigger] all[o], shape@, strides@),
            forall|o: int| 0 <= o < position ==> in_box(#[trigger] list[o], shape@),
        decreases all.len() - position,
    {
        match mapping.resolve_into(input.as_slice(), shape, strides, &mut mapped) {
            Ok(()) => {},
            Err(error) => {
                assert(!resolves(map, all[position as int], shape@, strides@));
                return Err(error);
            },
        }
        let coord = mapped.as_slice();
        let ghost here = list[position as int];
        proof {
            let offset = offset_at(map, all[position as int]);
            lemma_unravel(offset, shape@, strides@);
            lemma_coordinate_position(offset, shape@);
            assert(coord@ == here);
        }
        let column: u64 = coord[rank - 1];
        let row: u64 = coord[rank - 2];
        let mut key = slice_to_vec(slice_subrange(coord, 0, rank - 2));
        key.push(row / TILE_SIDE as u64);
        key.push(column / TILE_SIDE as u64);
        let ghost name = key@;
        let ghost before = tiles;
        proof {
            assert(name =~= tile_key(here));
            assert(list.take(position + 1).drop_last() =~= list.take(position as int));
            assert(list.take(position + 1).last() == here);
        }
        tiles.push(key, (position, row, column));
        proof {
            assert forall|other: Seq<u64>| #[trigger] tiles.listed(other) == tile_list(
                list.take(position + 1),
                other,
            ) by {
                assert(before.listed(other) == tile_list(list.take(position as int), other));
            }
        }
        position += 1;
        more = cursor.next_into(&mut input);
    }
    proof {
        assert(list.take(position as int) =~= list);
    }
    Ok(tiles)
}

/// The list of a tile names exactly the coordinates of the tile.
proof fn lemma_tile_list(coords: Seq<Seq<u64>>, key: Seq<u64>)
    requires
        coords.len() <= usize::MAX,
        forall|o: int| 0 <= o < coords.len() ==> (#[trigger] coords[o]).len() >= 2,
    ensures
        tile_list(coords, key).len() <= coords.len(),
        forall|m: int|
            0 <= m < tile_list(coords, key).len() ==> in_tile(
                coords,
                key,
                #[trigger] tile_list(coords, key)[m],
            ),
        forall|o: int|
            0 <= o < coords.len() && tile_key(coords[o]) == key ==> #[trigger] is_listed(
                tile_list(coords, key),
                o,
            ),
    decreases coords.len(),
{
    let list = tile_list(coords, key);
    if coords.len() > 0 {
        let init = coords.drop_last();
        let before = tile_list(init, key);
        assert forall|o: int| 0 <= o < init.len() implies (#[trigger] init[o]).len() >= 2 by {
            assert(coords[o].len() >= 2);
        }
        lemma_tile_list(init, key);
        let n = coords.len() - 1;
        assert forall|m: int| 0 <= m < list.len() implies in_tile(
            coords,
            key,
            #[trigger] list[m],
        ) by {
            if m < before.len() {
                assert(in_tile(init, key, before[m]));
                assert(init[before[m].0 as int] == coords[before[m].0 as int]);
            } else {
                assert(coords[n as int].len() >= 2);
                let coord = coords.last();
                assert(coord =~= coord.take(coord.len() - 2).push(coord[coord.len() - 2]).push(
                    coord[coord.len() - 1],
                ));
                assert(tile_key(coord).take(coord.len() - 2) =~= coord.take(coord.len() - 2));
            }
        }
        assert forall|o: int|
            0 <= o < coords.len() && tile_key(coords[o]) == key implies #[trigger] is_listed(
            list,
            o,
        ) by {
            if o < n {
                assert(init[o] == coords[o]);
                assert(is_listed(before, o));
                let m = choose|m: int| 0 <= m < before.len() && (#[trigger] before[m]).0 == o;
                assert(list[m].0 == o);
            } else {
                assert(list[before.len() as int].0 == o);
            }
        }
    }
}

/// The entry names a coordinate of the tile.
spec fn in_tile(coords: Seq<Seq<u64>>, key: Seq<u64>, entry: (usize, u64, u64)) -> bool {
    &&& entry.0 < coords.len()
    &&& tile_key(coords[entry.0 as int]) == key
    &&& key.len() >= 2
    &&& coords[entry.0 as int] == key.take(key.len() - 2).push(entry.1).push(entry.2)
}

/// Some entry is for the element at a place of the request.
spec fn is_listed(list: Seq<(usize, u64, u64)>, position: int) -> bool {
    exists|m: int| 0 <= m < list.len() && (#[trigger] list[m]).0 == position
}

/// A plan for some elements of a tile draws on nothing else.
proof fn lemma_tile_drawn(
    plan: MatrixPlan,
    coords: Seq<Seq<u64>>,
    key: Seq<u64>,
    list: Seq<(usize, u64, u64)>,
)
    requires
        key.len() >= 2,
        plan.prefix@ == key.take(key.len() - 2),
        only_asked(plan.rectangle, list),
        forall|m: int| 0 <= m < list.len() ==> in_tile(coords, key, #[trigger] list[m]),
    ensures
        drawn(plan, coords),
{
    let n = key.len() - 2;
    let rows = plan.rectangle.rows@;
    let columns = plan.rectangle.columns@;
    assert forall|i: int| 0 <= i < rows.len() implies row_drawn(
        plan.prefix@,
        #[trigger] rows[i],
        coords,
    ) && rows[i] as int / TILE_SIDE as int == key[n] by {
        assert(row_asked(list, rows[i]));
        let m = choose|m: int| 0 <= m < list.len() && (#[trigger] list[m]).1 == rows[i];
        assert(in_tile(coords, key, list[m]));
        let coord = coords[list[m].0 as int];
        assert(coord.take(n) =~= plan.prefix@);
        assert(tile_key(coord)[n] == key[n]);
        assert(in_matrix(plan.prefix@, coord));
    }
    assert forall|j: int| 0 <= j < columns.len() implies column_drawn(
        plan.prefix@,
        #[trigger] columns[j],
        coords,
    ) && columns[j] as int / TILE_SIDE as int == key[n + 1] by {
        assert(column_asked(list, columns[j]));
        let m = choose|m: int| 0 <= m < list.len() && (#[trigger] list[m]).2 == columns[j];
        assert(in_tile(coords, key, list[m]));
        let coord = coords[list[m].0 as int];
        assert(coord.take(n) =~= plan.prefix@);
        assert(tile_key(coord)[n + 1] == key[n + 1]);
        assert(in_matrix(plan.prefix@, coord));
    }
}

/// Plans for the elements of a request, tile by tile.
fn tile_plans(tiles: TileRequests, Ghost(coords): Ghost<Seq<Seq<u64>>>) -> (plans: Vec<MatrixPlan>)
    requires
        tiles.wf(),
        forall|key: Seq<u64>| #[trigger] tiles.listed(key) == tile_list(coords, key),
        entry_total(tiles.entries@) == coords.len(),
        coords.len() <= MAX_BATCH_ELEMENTS,
        forall|o: int| 0 <= o < coords.len() ==> (#[trigger] coords[o]).len() >= 2,
    ensures
        covers(plans@, coords),
        forall|p: int| 0 <= p < plans@.len() ==> (#[trigger] plans@[p]).rectangle.scatter is Explicit,
{
    let mut plans: Vec<MatrixPlan> = Vec::new();
    let mut e: usize = 0;
    let ghost entries = tiles.entries@;
    proof {
        assert(entries.take(0) =~= Seq::<(Vec<u64>, Vec<(usize, u64, u64)>)>::empty());
    }
    while e < tiles.entries.len()
        invariant
            e <= tiles.entries.len(),
            entries == tiles.entries@,
            tiles.wf(),
            forall|key: Seq<u64>| #[trigger] tiles.listed(key) == tile_list(coords, key),
            coords.len() <= MAX_BATCH_ELEMENTS,
            forall|o: int| 0 <= o < coords.len() ==> (#[trigger] coords[o]).len() >= 2,
            forall|p: int| 0 <= p < plans@.len() ==> plan_fits(#[trigger] plans@[p], coords),
            forall|p: int|
                0 <= p < plans@.len() ==> (#[trigger] plans@[p]).rectangle.scatter is Explicit,
            forall|o: int, d: int|
                0 <= o < coords.len() && 0 <= d < e && tile_key(coords[o]) == (
                #[trigger] entries[d]).0@ ==> #[trigger] is_planned(plans@, o),
            plan_total(plans@) == entry_total(entries.take(e as int)),
        decreases tiles.entries.len() - e,
    {
        let ghost key = entries[e as int].0@;
        let ghost list = entries[e as int].1@;
        proof {
            tiles.lemma_listed(e as int);
            lemma_tile_list(coords, key);
            assert(list == tile_list(coords, key));
            assert(list.len() > 0);
            assert(in_tile(coords, key, list[0]));
            assert(entries.take(e + 1).drop_last() =~= entries.take(e as int));
            assert(entries.take(e + 1).last() == entries[e as int]);
        }
        let rank: usize = tiles.entries[e].0.len();
        let rectangles = plan_rectangles(slice_to_vec(tiles.entries[e].1.as_slice()));
        let ghost all = rectangles@;
        let ghost start = plan_total(plans@);
        let mut rectangles = rectangles;
        let ghost mut r = 0int;
        while rectangles.len() > 0
            invariant
                e < tiles.entries.len(),
                entries == tiles.entries@,
                rank == entries[e as int].0@.len(),
                rank >= 2,
                key == entries[e as int].0@,
                list == tile_list(coords, key),
                coords.len() <= MAX_BATCH_ELEMENTS,
                forall|m: int|
                    0 <= m < list.len() ==> in_tile(coords, key, #[trigger] list[m]),
                0 <= r <= all.len(),
                rectangles@ == all.skip(r),
                forall|q: int|
                    0 <= q < all.len() ==> rectangle_wf(#[trigger] all[q])
                        && all[q].scatter is Explicit,
                forall|q: int|
                    0 <= q < all.len() ==> pairs_asked(#[trigger] all[q], list) && only_asked(
                        all[q],
                        list,
                    ),
                forall|p: int| 0 <= p < plans@.len() ==> plan_fits(#[trigger] plans@[p], coords),
                forall|p: int|
                    0 <= p < plans@.len() ==> (#[trigger] plans@[p]).rectangle.scatter is Explicit,
                forall|o: int, d: int|
                    0 <= o < coords.len() && 0 <= d < e && tile_key(coords[o]) == (
                    #[trigger] entries[d]).0@ ==> #[trigger] is_planned(plans@, o),
                plan_total(plans@) == start + pair_total(all.take(r)),
                forall|q: int, k: int|
                    0 <= q < r && 0 <= k < rectangle_pairs(all[q]).len() ==> is_planned(
                        plans@,
                        (#[trigger] rectangle_pairs(all[q])[k]).0,
                    ),
            decreases rectangles.len(),
        {
            let rectangle = rectangles.remove(0);
            proof {
                assert(rectangle == all[r]);
                assert(rectangles@ =~= all.skip(r + 1));
                assert(all.take(r + 1).drop_last() =~= all.take(r));
                assert(all.take(r + 1).last() == all[r]);
            }
            let prefix = slice_to_vec(
                slice_subrange(tiles.entries[e].0.as_slice(), 0, rank - 2),
            );
            let plan = MatrixPlan { prefix, rectangle };
            let ghost before = plans@;
            proof {
                assert(prefix@ =~= key.take(rank - 2));
                assert forall|k: int|
                    0 <= k < rectangle_pairs(rectangle).len() implies #[trigger] plan_pair_fits(
                    plan,
                    k,
                    coords,
                ) by {
                    assert(pair_asked(all[r], k, list));
                    let m = choose|m: int|
                        0 <= m < list.len() && #[trigger] answers(all[r], k, list[m]);
                    assert(in_tile(coords, key, list[m]));
                }
                lemma_tile_drawn(plan, coords, key, list);
                lemma_planned_push(before, plan);
            }
            plans.push(plan);
            proof {
                assert forall|q: int, k: int|
                    0 <= q < r + 1 && 0 <= k < rectangle_pairs(all[q]).len() implies is_planned(
                    plans@,
                    (#[trigger] rectangle_pairs(all[q])[k]).0,
                ) by {
                    if q < r {
                        assert(is_planned(before, rectangle_pairs(all[q])[k].0));
                    }
                }
                assert forall|o: int, d: int|
                    0 <= o < coords.len() && 0 <= d < e && tile_key(coords[o]) == (
                    #[trigger] entries[d]).0@ implies #[trigger] is_planned(plans@, o) by {
                    assert(is_planned(before, o));
                }
                r = r + 1;
            }
        }
        proof {
            assert(r == all.len());
            assert(all.take(r) =~= all);
            assert forall|o: int, d: int|
                0 <= o < coords.len() && 0 <= d < e + 1 && tile_key(coords[o]) == (
                #[trigger] entries[d]).0@ implies #[trigger] is_planned(plans@, o) by {
                if d == e {
                    assert(is_listed(list, o));
                    let m = choose|m: int| 0 <= m < list.len() && (#[trigger] list[m]).0 == o;
                    assert(is_answered(all, list[m]));
                    let (q, k) = choose|q: int, k: int|
                        0 <= q < all.len() && 0 <= k < rectangle_pairs(all[q]).len()
                            && #[trigger] answers(all[q], k, list[m]);
                    assert(is_planned(plans@, rectangle_pairs(all[q])[k].0));
                }
            }
        }
        e += 1;
    }
    proof {
        assert(entries.take(e as int) =~= entries);
        assert forall|o: int| 0 <= o < coords.len() implies #[trigger] is_planned(plans@, o) by {
            let key = tile_key(coords[o]);
            lemma_tile_list(coords, key);
            assert(is_listed(tile_list(coords, key), o));
            assert(tiles.listed(key).len() > 0);
            let d = choose|d: int| 0 <= d < entries.len() && (#[trigger] entries[d]).0@ == key;
            assert(entries[d].0@ == key);
        }
    }
    plans
}

/// The places of an axis by tile: each place with its index.
pub type AxisTiles = Groups<(usize, u64)>;

/// Some entry is for the place of the axis.
pub open spec fn place_listed(entries: Seq<(Vec<u64>, Vec<(usize, u64)>)>, place: int) -> bool {
    exists|t: int, m: int|
        0 <= t < entries.len() && 0 <= m < entries[t].1@.len() && (#[trigger] entries[t].1@[m]).0
            == place
}

/// The tiles list the first places of an axis, each under the tile of its index.
pub open spec fn tiles_list_axis(tiles: AxisTiles, axis: Selection, n: int) -> bool {
    let entries = tiles.entries@;
    &&& tiles.wf()
    &&& forall|t: int, m: int|
        0 <= t < entries.len() && 0 <= m < entries[t].1@.len() ==> {
            let (place, value) = #[trigger] entries[t].1@[m];
            &&& place < n
            &&& value == axis_at(axis, place as int)
            &&& entries[t].0@ == seq![(value / TILE_SIDE as u64) as u64]
        }
    &&& forall|place: int| 0 <= place < n ==> #[trigger] place_listed(entries, place)
    &&& entry_total(entries) == n
}

/// The places of an axis by tile.
pub fn axis_tiles(axis: &Axis) -> (tiles: AxisTiles)
    requires
        exists|dim: u64| #[trigger] axis_fits(axis@, dim),
        axis_len(axis@) <= usize::MAX,
    ensures
        tiles_list_axis(tiles, axis@, axis_len(axis@)),
{
    let ghost dim = choose|dim: u64| #[trigger] axis_fits(axis@, dim);
    let mut tiles: AxisTiles = Groups::new();
    let len: u64 = axis.len();
    let mut place: u64 = 0;
    while place < len
        invariant
            place <= len,
            len == axis_len(axis@),
            axis_len(axis@) <= usize::MAX,
            axis_fits(axis@, dim),
            tiles_list_axis(tiles, axis@, place as int),
        decreases len - place,
    {
        proof {
            lemma_axis_at(axis@, dim, place as int);
        }
        let value: u64 = axis.at(place);
        let key = vec![value / TILE_SIDE as u64];
        let ghost name = key@;
        let ghost before = tiles;
        let item: (usize, u64) = (place as usize, value);
        let (at, fresh) = tiles.push(key, item);
        proof {
            let k = at as int;
            let old_entries = before.entries@;
            let entries = tiles.entries@;
            assert(name =~= seq![(value / TILE_SIDE as u64) as u64]);
            assert forall|t: int, m: int|
                0 <= t < entries.len() && 0 <= m < entries[t].1@.len() implies {
                let (p, v) = #[trigger] entries[t].1@[m];
                &&& p < place + 1
                &&& v == axis_at(axis@, p as int)
                &&& entries[t].0@ == seq![(v / TILE_SIDE as u64) as u64]
            } by {
                let from = if !fresh || t < k {
                    t
                } else {
                    t - 1
                };
                if t == k {
                    if fresh {
                        assert(entries[k].1@[m] == item);
                    } else if m < old_entries[k].1@.len() {
                        assert(entries[k].1@[m] == old_entries[k].1@[m]);
                    } else {
                        assert(entries[k].1@[m] == item);
                    }
                } else {
                    assert(entries[t] == old_entries[from]);
                    assert(entries[t].1@[m] == old_entries[from].1@[m]);
                }
            }
            assert forall|p: int| 0 <= p < place + 1 implies #[trigger] place_listed(entries, p) by {
                if p < place {
                    assert(place_listed(old_entries, p));
                    let (t, m) = choose|t: int, m: int|
                        0 <= t < old_entries.len() && 0 <= m < old_entries[t].1@.len() && (
                        #[trigger] old_entries[t].1@[m]).0 == p;
                    let to = if !fresh || t < k {
                        t
                    } else {
                        t + 1
                    };
                    assert(entries[to].1@[m] == old_entries[t].1@[m]);
                    assert(entries[to].1@[m].0 == p);
                } else {
                    let m = entries[k].1@.len() - 1;
                    assert(entries[k].1@[m].0 == p);
                }
            }
        }
        place += 1;
    }
    tiles
}

/// The indices of some places, in order and each once, and for each place where its index
/// stands among them.
pub fn selected_axis(positions: &[(usize, u64)]) -> (result: (Vec<u64>, Vec<(usize, usize)>))
    ensures
        increasing(result.0@),
        positions@.len() > 0 ==> result.0@.len() > 0,
        forall|v: u64|
            #[trigger] result.0@.contains(v) <==> exists|m: int|
                0 <= m < positions@.len() && (#[trigger] positions@[m]).1 == v,
        result.0@.len() <= positions@.len(),
        result.1@.len() == positions@.len(),
        forall|m: int|
            0 <= m < positions@.len() ==> (#[trigger] result.1@[m]).0 == positions@[m].0
                && result.1@[m].1 < result.0@.len() && result.0@[result.1@[m].1 as int]
                == positions@[m].1,
{
    let mut values: Vec<u64> = Vec::new();
    let mut m: usize = 0;
    while m < positions.len()
        invariant
            m <= positions.len(),
            increasing(values@),
            values@.len() <= m,
            m > 0 ==> values@.len() > 0,
            forall|v: u64|
                #[trigger] values@.contains(v) <==> exists|q: int|
                    0 <= q < m && (#[trigger] positions@[q]).1 == v,
        decreases positions.len() - m,
    {
        let (_, value) = positions[m];
        let ghost before = values@;
        insert_unique(&mut values, value);
        proof {
            assert forall|v: u64| #[trigger] values@.contains(v) <==> exists|q: int|
                0 <= q < m + 1 && (#[trigger] positions@[q]).1 == v by {
                if values@.contains(v) {
                    if v == value {
                        assert(positions@[m as int].1 == v);
                    } else {
                        assert(before.contains(v));
                        let q = choose|q: int| 0 <= q < m && (#[trigger] positions@[q]).1 == v;
                        assert(positions@[q].1 == v);
                    }
                }
                if exists|q: int| 0 <= q < m + 1 && (#[trigger] positions@[q]).1 == v {
                    let q = choose|q: int| 0 <= q < m + 1 && (#[trigger] positions@[q]).1 == v;
                    if q < m {
                        assert(before.contains(v));
                    }
                }
            }
        }
        m += 1;
    }
    let mut scatter: Vec<(usize, usize)> = Vec::new();
    let mut m: usize = 0;
    while m < positions.len()
        invariant
            m <= positions.len(),
            increasing(values@),
            forall|v: u64|
                #[trigger] values@.contains(v) <==> exists|q: int|
                    0 <= q < positions@.len() && (#[trigger] positions@[q]).1 == v,
            scatter.len() == m,
            forall|q: int|
                0 <= q < m ==> (#[trigger] scatter@[q]).0 == positions@[q].0 && scatter@[q].1
                    < values@.len() && values@[scatter@[q].1 as int] == positions@[q].1,
        decreases positions.len() - m,
    {
        let (place, value) = positions[m];
        assert(positions@[m as int].1 == value);
        assert(values@.contains(value));
        match find(values.as_slice(), value) {
            Some(at) => {
                scatter.push((place, at));
            },
            None => {
                scatter.push((place, 0));
            },
        }
        m += 1;
    }
    (values, scatter)
}

/// The number is the index of some listed place.
spec fn value_of(list: Seq<(usize, u64)>, value: u64) -> bool {
    exists|m: int| 0 <= m < list.len() && (#[trigger] list[m]).1 == value
}

/// The matrix of a request that starts at a place: its rows and columns are those of two axes.
spec fn matrix_at(
    coords: Seq<Seq<u64>>,
    prefix: Seq<u64>,
    start: int,
    rows: Selection,
    columns: Selection,
) -> bool {
    forall|a: int, b: int|
        0 <= a < axis_len(rows) && 0 <= b < axis_len(columns) ==> 0 <= matrix_place(
            start,
            a,
            b,
            axis_len(columns),
        ) < coords.len() && coords[#[trigger] matrix_place(start, a, b, axis_len(columns))]
            == prefix.push(axis_at(rows, a) as u64).push(axis_at(columns, b) as u64)
}

/// Where the element of a row and a column stands.
pub open spec fn matrix_place(start: int, row: int, column: int, width: int) -> int {
    start + row * width + column
}

/// Plans for one matrix: every tile of rows with every tile of columns.
fn matrix_plans(
    plans: &mut Vec<MatrixPlan>,
    prefix: &[u64],
    start: usize,
    width: usize,
    row_tiles: &AxisTiles,
    column_tiles: &AxisTiles,
    Ghost(coords): Ghost<Seq<Seq<u64>>>,
    Ghost(rows_axis): Ghost<Selection>,
    Ghost(columns_axis): Ghost<Selection>,
)
    requires
        coords.len() <= MAX_BATCH_ELEMENTS,
        width == axis_len(columns_axis),
        axis_len(rows_axis) > 0,
        axis_len(columns_axis) > 0,
        tiles_list_axis(*row_tiles, rows_axis, axis_len(rows_axis)),
        tiles_list_axis(*column_tiles, columns_axis, axis_len(columns_axis)),
        matrix_at(coords, prefix@, start as int, rows_axis, columns_axis),
        forall|p: int| 0 <= p < old(plans)@.len() ==> plan_fits(#[trigger] old(plans)@[p], coords),
        forall|p: int|
            0 <= p < old(plans)@.len() ==> !((#[trigger] old(plans)@[p]).rectangle.scatter is Explicit),
    ensures
        forall|p: int| 0 <= p < final(plans)@.len() ==> plan_fits(#[trigger] final(plans)@[p], coords),
        forall|p: int|
            0 <= p < final(plans)@.len() ==> !((
            #[trigger] final(plans)@[p]).rectangle.scatter is Explicit),
        forall|o: int| #[trigger] is_planned(old(plans)@, o) ==> is_planned(final(plans)@, o),
        forall|a: int, b: int|
            0 <= a < axis_len(rows_axis) && 0 <= b < axis_len(columns_axis) ==> is_planned(
                final(plans)@,
                #[trigger] matrix_place(start as int, a, b, width as int),
            ),
        plan_total(final(plans)@) == plan_total(old(plans)@) + axis_len(rows_axis) * axis_len(
            columns_axis,
        ),
{
    let ghost first = plans@;
    let ghost rentries = row_tiles.entries@;
    let ghost centries = column_tiles.entries@;
    let ghost w = width as int;
    let mut tr: usize = 0;
    proof {
        assert(rentries.take(0) =~= Seq::<(Vec<u64>, Vec<(usize, u64)>)>::empty());
        assert(0 * w == 0);
    }
    while tr < row_tiles.entries.len()
        invariant
            tr <= row_tiles.entries.len(),
            rentries == row_tiles.entries@,
            centries == column_tiles.entries@,
            w == width,
            coords.len() <= MAX_BATCH_ELEMENTS,
            w == axis_len(columns_axis),
            axis_len(rows_axis) > 0,
            axis_len(columns_axis) > 0,
            tiles_list_axis(*row_tiles, rows_axis, axis_len(rows_axis)),
            tiles_list_axis(*column_tiles, columns_axis, axis_len(columns_axis)),
            matrix_at(coords, prefix@, start as int, rows_axis, columns_axis),
            forall|p: int| 0 <= p < plans@.len() ==> plan_fits(#[trigger] plans@[p], coords),
            forall|p: int|
                0 <= p < plans@.len() ==> !((#[trigger] plans@[p]).rectangle.scatter is Explicit),
            forall|o: int| #[trigger] is_planned(first, o) ==> is_planned(plans@, o),
            forall|t: int, m: int, b: int|
                #![trigger rentries[t].1@[m], matrix_place(start as int, rentries[t].1@[m].0 as int, b, w)]
                0 <= t < tr && 0 <= m < rentries[t].1@.len() && 0 <= b < w ==> is_planned(
                    plans@,
                    matrix_place(start as int, rentries[t].1@[m].0 as int, b, w),
                ),
            plan_total(plans@) == plan_total(first) + entry_total(rentries.take(tr as int)) * w,
        decreases row_tiles.entries.len() - tr,
    {
        let ghost row_list = rentries[tr as int].1@;
        let ghost h = row_list.len() as int;
        let (rows, row_scatter) = selected_axis(row_tiles.entries[tr].1.as_slice());
        let ghost row_start = plan_total(plans@);
        let ghost before_row = plans@;
        let mut tc: usize = 0;
        proof {
            assert(row_list.len() > 0);
            assert forall|i: int| 0 <= i < rows@.len() implies value_of(
                row_list,
                #[trigger] rows@[i],
            ) by {
                assert(rows@.contains(rows@[i]));
            }
            assert(centries.take(0) =~= Seq::<(Vec<u64>, Vec<(usize, u64)>)>::empty());
            assert(h * 0 == 0);
            assert(rentries.take(tr + 1).drop_last() =~= rentries.take(tr as int));
            assert(rentries.take(tr + 1).last() == rentries[tr as int]);
        }
        while tc < column_tiles.entries.len()
            invariant
                tr < row_tiles.entries.len(),
                tc <= column_tiles.entries.len(),
                rentries == row_tiles.entries@,
                centries == column_tiles.entries@,
                w == width,
                coords.len() <= MAX_BATCH_ELEMENTS,
                w == axis_len(columns_axis),
                axis_len(rows_axis) > 0,
                axis_len(columns_axis) > 0,
                tiles_list_axis(*row_tiles, rows_axis, axis_len(rows_axis)),
                tiles_list_axis(*column_tiles, columns_axis, axis_len(columns_axis)),
                matrix_at(coords, prefix@, start as int, rows_axis, columns_axis),
                row_list == rentries[tr as int].1@,
                h == row_list.len(),
                h > 0,
                increasing(rows@),
                rows@.len() > 0,
                rows@.len() <= h,
                row_scatter@.len() == h,
                forall|m: int|
                    0 <= m < h ==> (#[trigger] row_scatter@[m]).0 == row_list[m].0
                        && row_scatter@[m].1 < rows@.len() && rows@[row_scatter@[m].1 as int]
                        == row_list[m].1,
                forall|i: int| 0 <= i < rows@.len() ==> value_of(row_list, #[trigger] rows@[i]),
                forall|p: int| 0 <= p < plans@.len() ==> plan_fits(#[trigger] plans@[p], coords),
                forall|p: int|
                    0 <= p < plans@.len() ==> !((
                    #[trigger] plans@[p]).rectangle.scatter is Explicit),
                forall|o: int| #[trigger] is_planned(before_row, o) ==> is_planned(plans@, o),
                forall|m: int, t: int, q: int|
                    #![trigger row_list[m], centries[t].1@[q]]
                    0 <= m < h && 0 <= t < tc && 0 <= q < centries[t].1@.len() ==> is_planned(
                        plans@,
                        matrix_place(
                            start as int,
                            row_list[m].0 as int,
                            centries[t].1@[q].0 as int,
                            w,
                        ),
                    ),
                plan_total(plans@) == row_start + h * entry_total(centries.take(tc as int)),
            decreases column_tiles.entries.len() - tc,
        {
            let ghost column_list = centries[tc as int].1@;
            let ghost v = column_list.len() as int;
            let (columns, column_scatter) = selected_axis(column_tiles.entries[tc].1.as_slice());
            let ghost nc = columns@.len() as int;
            let rectangle = Rectangle {
                rows: slice_to_vec(rows.as_slice()),
                columns,
                scatter: Scatter::Cartesian {
                    start,
                    width,
                    rows: slice_to_vec(row_scatter.as_slice()),
                    columns: column_scatter,
                },
            };
            let plan = MatrixPlan { prefix: slice_to_vec(prefix), rectangle };
            let ghost before = plans@;
            let ghost pairs = rectangle_pairs(rectangle);
            proof {
                assert(column_list.len() > 0);
                assert(pairs.len() == h * v);
                assert(centries.take(tc + 1).drop_last() =~= centries.take(tc as int));
                assert(centries.take(tc + 1).last() == centries[tc as int]);
                assert forall|k: int| 0 <= k < pairs.len() implies #[trigger] plan_pair_fits(
                    plan,
                    k,
                    coords,
                ) by {
                    lemma_split_index(k, h, v);
                    let m = k / v;
                    let q = k % v;
                    let i = row_scatter@[m].1 as int;
                    let j = column_scatter@[q].1 as int;
                    assert(row_scatter@[m].0 == row_list[m].0);
                    assert(column_scatter@[q].0 == column_list[q].0);
                    let (a, value) = row_list[m];
                    let (b, other) = column_list[q];
                    assert(rentries[tr as int].1@[m] == (a, value));
                    assert(centries[tc as int].1@[q] == (b, other));
                    assert(pairs[k] == (start + a * w + b, i * nc + j));
                    assert(coords[matrix_place(start as int, a as int, b as int, w)]
                        == prefix@.push(axis_at(rows_axis, a as int) as u64).push(
                        axis_at(columns_axis, b as int) as u64,
                    ));
                    lemma_join_index(i, j, rows@.len() as int, nc);
                    assert(plan_coord(plan, i * nc + j) =~= prefix@.push(value).push(other));
                }
                assert forall|j: int| 0 <= j < columns@.len() implies value_of(
                    column_list,
                    #[trigger] columns@[j],
                ) by {
                    assert(columns@.contains(columns@[j]));
                }
                assert forall|i: int| 0 <= i < rows@.len() implies row_drawn(
                    prefix@,
                    #[trigger] rows@[i],
                    coords,
                ) && seq![(rows@[i] / TILE_SIDE as u64) as u64] == rentries[tr as int].0@ by {
                    let m = choose|m: int|
                        0 <= m < row_list.len() && (#[trigger] row_list[m]).1 == rows@[i];
                    let (a, value) = rentries[tr as int].1@[m];
                    let coord = coords[matrix_place(start as int, a as int, 0, w)];
                    assert(coord.take(prefix@.len() as int) =~= prefix@);
                    assert(in_matrix(prefix@, coord));
                }
                assert forall|j: int| 0 <= j < columns@.len() implies column_drawn(
                    prefix@,
                    #[trigger] columns@[j],
                    coords,
                ) && seq![(columns@[j] / TILE_SIDE as u64) as u64] == centries[tc as int].0@ by {
                    let q = choose|q: int|
                        0 <= q < column_list.len() && (#[trigger] column_list[q]).1 == columns@[j];
                    let (b, other) = centries[tc as int].1@[q];
                    let coord = coords[matrix_place(start as int, 0, b as int, w)];
                    assert(coord.take(prefix@.len() as int) =~= prefix@);
                    assert(in_matrix(prefix@, coord));
                }
                assert forall|i: int, j: int|
                    0 <= i < rows@.len() && 0 <= j < rows@.len() implies (
                #[trigger] rows@[i]) as int / TILE_SIDE as int == (#[trigger] rows@[j]) as int
                    / TILE_SIDE as int by {
                    assert(seq![(rows@[i] / TILE_SIDE as u64) as u64][0] == rentries[tr as int].0@[0]);
                    assert(seq![(rows@[j] / TILE_SIDE as u64) as u64][0] == rentries[tr as int].0@[0]);
                }
                assert forall|i: int, j: int|
                    0 <= i < columns@.len() && 0 <= j < columns@.len() implies (
                #[trigger] columns@[i]) as int / TILE_SIDE as int == (#[trigger] columns@[j]) as int
                    / TILE_SIDE as int by {
                    assert(seq![(columns@[i] / TILE_SIDE as u64) as u64][0]
                        == centries[tc as int].0@[0]);
                    assert(seq![(columns@[j] / TILE_SIDE as u64) as u64][0]
                        == centries[tc as int].0@[0]);
                }
                assert(drawn(plan, coords));
                lemma_planned_push(before, plan);
            }
            plans.push(plan);
            proof {
                assert forall|m: int, t: int, q: int|
                    #![trigger row_list[m], centries[t].1@[q]]
                    0 <= m < h && 0 <= t < tc + 1 && 0 <= q < centries[t].1@.len() implies is_planned(
                    plans@,
                    matrix_place(
                        start as int,
                        row_list[m].0 as int,
                        centries[t].1@[q].0 as int,
                        w,
                    ),
                ) by {
                    let place = matrix_place(
                        start as int,
                        row_list[m].0 as int,
                        centries[t].1@[q].0 as int,
                        w,
                    );
                    if t < tc {
                        assert(is_planned(before, place));
                    } else {
                        lemma_join_index(m, q, h, v);
                        let k = m * v + q;
                        assert(row_scatter@[m].0 == row_list[m].0);
                        assert(column_scatter@[q].0 == column_list[q].0);
                        assert(pairs[k].0 == place);
                        assert(is_planned(plans@, pairs[k].0));
                    }
                }
                assert(h * (entry_total(centries.take(tc as int)) + v) == h * entry_total(
                    centries.take(tc as int),
                ) + h * v) by (nonlinear_arith);
            }
            tc += 1;
        }
        proof {
            assert(centries.take(tc as int) =~= centries);
            assert((entry_total(rentries.take(tr as int)) + h) * w == entry_total(
                rentries.take(tr as int),
            ) * w + h * w) by (nonlinear_arith);
            assert forall|t: int, m: int, b: int|
                #![trigger rentries[t].1@[m], matrix_place(start as int, rentries[t].1@[m].0 as int, b, w)]
                0 <= t < tr + 1 && 0 <= m < rentries[t].1@.len() && 0 <= b < w implies is_planned(
                plans@,
                matrix_place(start as int, rentries[t].1@[m].0 as int, b, w),
            ) by {
                let place = matrix_place(start as int, rentries[t].1@[m].0 as int, b, w);
                if t < tr {
                    assert(is_planned(before_row, place));
                } else {
                    assert(place_listed(centries, b));
                    let (c, q) = choose|c: int, q: int|
                        0 <= c < centries.len() && 0 <= q < centries[c].1@.len() && (
                        #[trigger] centries[c].1@[q]).0 == b;
                    assert(row_list[m] == rentries[t].1@[m]);
                    assert(is_planned(
                        plans@,
                        matrix_place(
                            start as int,
                            row_list[m].0 as int,
                            centries[c].1@[q].0 as int,
                            w,
                        ),
                    ));
                }
            }
        }
        tr += 1;
    }
    proof {
        assert(rentries.take(tr as int) =~= rentries);
        assert forall|a: int, b: int|
            0 <= a < axis_len(rows_axis) && 0 <= b < axis_len(columns_axis) implies is_planned(
            plans@,
            #[trigger] matrix_place(start as int, a, b, w),
        ) by {
            assert(place_listed(rentries, a));
            let (t, m) = choose|t: int, m: int|
                0 <= t < rentries.len() && 0 <= m < rentries[t].1@.len() && (
                #[trigger] rentries[t].1@[m]).0 == a;
            assert(is_planned(
                plans@,
                matrix_place(start as int, rentries[t].1@[m].0 as int, b, w),
            ));
        }
    }
}

/// A place in a box of rows is a row and a column.
pub proof fn lemma_split_index(k: int, rows: int, columns: int)
    requires
        0 <= k < rows * columns,
        columns > 0,
    ensures
        0 <= k / columns < rows,
        0 <= k % columns < columns,
{
    vstd::arithmetic::div_mod::lemma_mod_bound(k, columns);
    vstd::arithmetic::mul::lemma_mul_is_commutative(rows, columns);
    vstd::arithmetic::div_mod::lemma_multiply_divide_lt(k, columns, rows);
    vstd::arithmetic::div_mod::lemma_div_pos_is_pos(k, columns);
}

/// A row and a column are a place in a box of rows.
pub proof fn lemma_join_index(row: int, column: int, rows: int, columns: int)
    requires
        0 <= row < rows,
        0 <= column < columns,
    ensures
        0 <= row * columns + column < rows * columns,
        (row * columns + column) / columns == row,
        (row * columns + column) % columns == column,
{
    assert(0 <= row * columns + column < rows * columns) by (nonlinear_arith)
        requires
            0 <= row < rows,
            0 <= column < columns,
    ;
    vstd::arithmetic::div_mod::lemma_fundamental_div_mod_converse(
        row * columns + column,
        columns,
        row,
        column,
    );
}

/// The coordinates of a box of matrices: those of the batch, each with every row and column.
pub proof fn lemma_matrix_coord(
    axes: Seq<Selection>,
    shape: Seq<u64>,
    matrix: int,
    row: int,
    column: int,
)
    requires
        axes_fit(axes, shape),
        lens_fit(axes),
        axes.len() >= 2,
        axes_volume(axes) > 0,
        0 <= matrix < axes_volume(axes.take(axes.len() - 2)),
        0 <= row < axis_len(axes[axes.len() - 2]),
        0 <= column < axis_len(axes[axes.len() - 1]),
    ensures
        ({
            let n = axes.len() as int;
            let h = axis_len(axes[n - 2]);
            let w = axis_len(axes[n - 1]);
            let k = matrix_place(matrix * (h * w), row, column, w);
            &&& 0 <= k < axes_volume(axes)
            &&& box_coords(axes)[k] == box_coords(axes.take(n - 2))[matrix].push(
                axis_at(axes[n - 2], row) as u64,
            ).push(axis_at(axes[n - 1], column) as u64)
            &&& axes_volume(axes) == axes_volume(axes.take(n - 2)) * (h * w)
        }),
{
    let n = axes.len() as int;
    let lens = axes_lens(axes);
    let head = axes.take(n - 2);
    let left = axes_lens(head);
    let h = axis_len(axes[n - 2]);
    let w = axis_len(axes[n - 1]);
    assert(axis_len(axes[n - 2]) <= u64::MAX);
    assert(axis_len(axes[n - 1]) <= u64::MAX);
    let right = seq![h as u64, w as u64];
    assert(lens =~= left + right);
    lemma_volume_positive(lens);
    assert(all_positive(left)) by {
        assert forall|i: int| 0 <= i < left.len() implies #[trigger] left[i] > 0 by {
            assert(lens[i] > 0);
        }
    }
    assert(all_positive(right)) by {
        assert(lens[n - 2] > 0);
        assert(lens[n - 1] > 0);
    }
    lemma_volume_concat(left, right);
    assert(right.skip(1) =~= seq![w as u64]);
    lemma_volume_one(w as u64);
    assert(volume(right) == h * w);
    let k = matrix_place(matrix * (h * w), row, column, w);
    let inner = row * w + column;
    lemma_join_index(row, column, h, w);
    lemma_join_index(matrix, inner, volume(left), h * w);
    lemma_coordinate_concat(k, left, right);
    let place = coordinate_at(inner, right);
    assert(place =~= seq![row as u64, column as u64]) by {
        let rest = right.skip(1);
        assert(place == seq![(inner / volume(rest)) as u64] + coordinate_at(
            inner % volume(rest),
            rest,
        ));
        assert(rest.skip(1) =~= Seq::<u64>::empty());
        assert(volume(rest.skip(1)) == 1);
        assert(column / 1 == column);
        assert(coordinate_at(column, rest) == seq![(column / volume(rest.skip(1))) as u64]
            + coordinate_at(column % 1, rest.skip(1)));
        assert(coordinate_at(column % 1, rest.skip(1)) =~= Seq::<u64>::empty());
    }
    lemma_coordinate_len(matrix, left);
    let places = coordinate_at(k, lens);
    assert(places == coordinate_at(matrix, left) + place);
    let coord = box_coords(axes)[k];
    let target = box_coords(head)[matrix].push(axis_at(axes[n - 2], row) as u64).push(
        axis_at(axes[n - 1], column) as u64,
    );
    lemma_volume_positive(left);
    assert(coord =~= target) by {
        assert forall|i: int| 0 <= i < n implies coord[i] == target[i] by {
            if i < n - 2 {
                assert(head[i] == axes[i]);
                assert(places[i] == coordinate_at(matrix, left)[i]);
            }
        }
    }
}

/// The batch axes of a box can be walked on their own.
pub open spec fn batch_bounded(axes: Seq<Selection>) -> bool {
    axes.len() >= 2 ==> axes_volume(axes.take(axes.len() - 2)) <= MAX_BATCH_ELEMENTS
}

/// Plans for boxes of a batch of matrices.
pub fn cartesian_plans(rectangles: &[Cartesian], shape: &[u64]) -> (result: Result<
    Vec<MatrixPlan>,
>)
    requires
        shape@.len() >= 2,
        boxes_fit(boxes_of(rectangles@), shape@),
        forall|r: int| 0 <= r < rectangles@.len() ==> (#[trigger] rectangles@[r]).wf(),
        boxes_len(boxes_of(rectangles@)) <= MAX_BATCH_ELEMENTS,
    ensures
        result is Ok <==> forall|r: int|
            0 <= r < rectangles@.len() ==> batch_bounded((#[trigger] rectangles@[r])@),
        result matches Ok(plans) ==> {
            &&& covers(plans@, boxes_coords(boxes_of(rectangles@)))
            &&& forall|p: int|
                0 <= p < plans@.len() ==> !((
                #[trigger] plans@[p]).rectangle.scatter is Explicit)
        },
        result matches Err(error) ==> error is InvalidLayout,
{
    let rank: usize = shape.len();
    let ghost boxes = boxes_of(rectangles@);
    let ghost coords = boxes_coords(boxes);
    let mut plans: Vec<MatrixPlan> = Vec::new();
    let mut start: usize = 0;
    let mut r: usize = 0;
    proof {
        lemma_boxes_len(boxes);
        assert(boxes.take(0) =~= Seq::<Seq<Selection>>::empty());
    }
    while r < rectangles.len()
        invariant
            r <= rectangles.len(),
            rank == shape.len(),
            rank >= 2,
            boxes == boxes_of(rectangles@),
            coords == boxes_coords(boxes),
            coords.len() == boxes_len(boxes),
            coords.len() <= MAX_BATCH_ELEMENTS,
            boxes_fit(boxes, shape@),
            forall|q: int| 0 <= q < rectangles@.len() ==> (#[trigger] rectangles@[q]).wf(),
            forall|q: int| 0 <= q < r ==> batch_bounded((#[trigger] rectangles@[q])@),
            start == boxes_len(boxes.take(r as int)),
            forall|p: int| 0 <= p < plans@.len() ==> plan_fits(#[trigger] plans@[p], coords),
            forall|p: int|
                0 <= p < plans@.len() ==> !((#[trigger] plans@[p]).rectangle.scatter is Explicit),
            forall|o: int| 0 <= o < start ==> #[trigger] is_planned(plans@, o),
            plan_total(plans@) == start,
        decreases rectangles.len() - r,
    {
        let rect = &rectangles[r];
        let ghost view = rect@;
        let axes = rect.axes();
        let ghost head = view.take(rank - 2);
        proof {
            assert(rectangles@[r as int].wf());
            assert(boxes[r as int] == view);
            assert(axes_fit(boxes[r as int], shape@));
            lemma_boxes_prefix(boxes, r as int);
            assert(axes_of(axes@).take(rank - 2) =~= axes_of(axes@.subrange(0, rank - 2)));
            assert(lists_bounded(head)) by {
                assert forall|i: int| 0 <= i < head.len() implies ((
                #[trigger] head[i]) matches Selection::Selected(values) ==> values.len()
                    <= MAX_BATCH_ELEMENTS) by {
                    assert(head[i] == view[i]);
                }
            }
        }
        let prefix_axes = copy_axes(slice_subrange(axes, 0, rank - 2));
        let prefix_rect = match Cartesian::new(prefix_axes) {
            Ok(rect) => rect,
            Err(error) => {
                assert(!batch_bounded(rectangles@[r as int]@));
                return Err(error);
            },
        };
        let ghost matrices = axes_volume(head);
        let prefix_list = vec![prefix_rect];
        let ghost single = boxes_of(prefix_list@);
        proof {
            assert(single =~= seq![head]);
            assert(single.drop_last() =~= Seq::<Seq<Selection>>::empty());
            assert(boxes_len(single.drop_last()) == 0);
            assert(boxes_coords(single.drop_last()) =~= Seq::<Seq<u64>>::empty());
            assert(boxes_len(single) == matrices);
            assert(boxes_coords(single) =~= box_coords(head));
            lemma_volume_positive(axes_lens(head));
        }
        let prefix_request = BatchRequest::rectangles(prefix_list)?;
        let prefix_shape = slice_subrange(shape, 0, rank - 2);
        proof {
            assert(axes_fit(head, prefix_shape@)) by {
                assert forall|i: int| 0 <= i < head.len() implies axis_fits(
                    #[trigger] head[i],
                    prefix_shape@[i],
                ) by {
                    assert(axis_fits(view[i], shape@[i]));
                }
            }
            assert(boxes_fit(single, prefix_shape@));
            prefix_request.lemma_wf();
        }
        if rect.len() > 0 {
            let ghost rows_axis = view[rank - 2];
            let ghost columns_axis = view[rank - 1];
            let ghost h = axis_len(rows_axis);
            let ghost w = axis_len(columns_axis);
            let ghost lens = axes_lens(view);
            proof {
                lemma_volume_positive(lens);
                assert(lens[rank - 2] > 0);
                assert(lens[rank - 1] > 0);
                assert(axis_len(view[rank - 2]) <= u64::MAX);
                assert(axis_len(view[rank - 1]) <= u64::MAX);
                assert(lens.take(rank - 2) =~= axes_lens(head));
                lemma_volume_suffix_bound(lens, rank - 2);
                lemma_matrix_coord(view, shape@, 0, 0, 0);
                assert(h * w <= MAX_BATCH_ELEMENTS && h <= MAX_BATCH_ELEMENTS && w
                    <= MAX_BATCH_ELEMENTS) by (nonlinear_arith)
                    requires
                        matrices * (h * w) <= MAX_BATCH_ELEMENTS,
                        matrices >= 1,
                        h >= 1,
                        w >= 1,
                ;
                assert(axes_of(axes@)[rank - 2] == axes@[rank - 2]@);
                assert(axes_of(axes@)[rank - 1] == axes@[rank - 1]@);
                assert(axis_fits(view[rank - 2], shape@[rank - 2]));
                assert(axis_fits(view[rank - 1], shape@[rank - 1]));
            }
            let row_tiles = axis_tiles(&axes[rank - 2]);
            let column_tiles = axis_tiles(&axes[rank - 1]);
            let height: usize = axes[rank - 2].len() as usize;
            let width: usize = axes[rank - 1].len() as usize;
            let mut prefixes = prefix_request.cursor(prefix_shape)?;
            let mut prefix = Coord::new();
            let ghost base = start as int;
            let ghost mut matrix = 0int;
            proof {
                assert(0 * (h * w) == 0);
            }
            let mut more = prefixes.next_into(&mut prefix);
            while more
                invariant
                    rank == shape.len(),
                    rank >= 2,
                    r < rectangles.len(),
                    boxes == boxes_of(rectangles@),
                    boxes[r as int] == view,
                    coords == boxes_coords(boxes),
                    coords.len() == boxes_len(boxes),
                    coords.len() <= MAX_BATCH_ELEMENTS,
                    axes_fit(view, shape@),
                    lens_fit(view),
                    head == view.take(rank - 2),
                    view.len() == rank,
                    matrices == axes_volume(head),
                    axes_volume(view) > 0,
                    axes_volume(view) == matrices * (h * w),
                    rows_axis == view[rank - 2],
                    columns_axis == view[rank - 1],
                    h == axis_len(rows_axis),
                    w == axis_len(columns_axis),
                    height == h,
                    width == w,
                    h > 0,
                    w > 0,
                    h * w <= MAX_BATCH_ELEMENTS,
                    tiles_list_axis(row_tiles, rows_axis, h),
                    tiles_list_axis(column_tiles, columns_axis, w),
                    single == seq![head],
                    prefixes.wf(),
                    prefixes.spec_request() == Requested::Rectangles(single),
                    prefixes.spec_shape() == prefix_shape@,
                    boxes_coords(single) == box_coords(head),
                    boxes_len(single) == matrices,
                    base == boxes_len(boxes.take(r as int)),
                    0 <= base,
                    base + matrices * (h * w) <= coords.len(),
                    0 <= matrix <= matrices,
                    more ==> prefixes.spec_position() == matrix + 1 && matrix < matrices && prefix@
                        == box_coords(head)[matrix],
                    !more ==> matrix == matrices,
                    start == base + matrix * (h * w),
                    forall|p: int| 0 <= p < plans@.len() ==> plan_fits(#[trigger] plans@[p], coords),
                    forall|p: int|
                        0 <= p < plans@.len() ==> !((
                        #[trigger] plans@[p]).rectangle.scatter is Explicit),
                    forall|o: int| 0 <= o < start ==> #[trigger] is_planned(plans@, o),
                    plan_total(plans@) == start,
                decreases matrices - matrix,
            {
                let ghost before = plans@;
                proof {
                    assert forall|a: int, b: int|
                        0 <= a < h && 0 <= b < w implies 0 <= matrix_place(start as int, a, b, w)
                        < coords.len() && coords[#[trigger] matrix_place(start as int, a, b, w)]
                        == prefix@.push(axis_at(rows_axis, a) as u64).push(
                        axis_at(columns_axis, b) as u64,
                    ) by {
                        lemma_matrix_coord(view, shape@, matrix, a, b);
                        let k = matrix_place(matrix * (h * w), a, b, w);
                        lemma_boxes_index(boxes, r as int, k);
                    }
                    assert((matrix + 1) * (h * w) == matrix * (h * w) + h * w) by (nonlinear_arith);
                    assert((matrix + 1) * (h * w) <= matrices * (h * w)) by (nonlinear_arith)
                        requires
                            matrix + 1 <= matrices,
                            h * w >= 0,
                    ;
                }
                matrix_plans(
                    &mut plans,
                    prefix.as_slice(),
                    start,
                    width,
                    &row_tiles,
                    &column_tiles,
                    Ghost(coords),
                    Ghost(rows_axis),
                    Ghost(columns_axis),
                );
                proof {
                    assert forall|o: int| 0 <= o < start + h * w implies #[trigger] is_planned(
                        plans@,
                        o,
                    ) by {
                        if o < start {
                            assert(is_planned(before, o));
                        } else {
                            let k = o - start;
                            lemma_split_index(k, h, w);
                            vstd::arithmetic::div_mod::lemma_fundamental_div_mod(k, w);
                            vstd::arithmetic::mul::lemma_mul_is_commutative(k / w, w);
                            assert(matrix_place(start as int, k / w, k % w, w) == o);
                        }
                    }
                    matrix = matrix + 1;
                }
                start = start + height * width;
                more = prefixes.next_into(&mut prefix);
            }
        }
        r += 1;
    }
    proof {
        assert(boxes.take(r as int) =~= boxes);
    }
    Ok(plans)
}

/// A stretch of a row within a tile: where it starts in the request, its row, its first column
/// and its length.
pub type Segment = (usize, u64, u64, usize);

/// The segment names coordinates of the tile.
spec fn segment_fits(
    coords: Seq<Seq<u64>>,
    key: Seq<u64>,
    segment: Segment,
    done: int,
) -> bool {
    &&& segment.3 > 0
    &&& segment.0 + segment.3 <= done
    &&& done <= coords.len()
    &&& key.len() >= 2
    &&& segment.2 + segment.3 <= u64::MAX
    &&& segment.1 as int / TILE_SIDE as int == key[key.len() - 2]
    &&& segment.2 as int / TILE_SIDE as int == key[key.len() - 1]
    &&& segment.2 as int % TILE_SIDE as int + segment.3 <= TILE_SIDE
    &&& forall|j: int|
        0 <= j < segment.3 ==> #[trigger] coords[segment.0 + j] == key.take(key.len() - 2).push(
            segment.1,
        ).push((segment.2 + j) as u64)
}

/// Some segment holds the element at a place of the request.
spec fn in_segments(entries: Seq<(Vec<u64>, Vec<Segment>)>, position: int) -> bool {
    exists|t: int, m: int|
        0 <= t < entries.len() && 0 <= m < entries[t].1@.len() && (#[trigger] entries[t].1@[m]).0
            <= position < entries[t].1@[m].0 + entries[t].1@[m].3
}

/// How many elements the segments of a tile hold.
spec fn segment_total(segments: Seq<Segment>) -> int
    decreases segments.len(),
{
    if segments.len() == 0 {
        0
    } else {
        segment_total(segments.drop_last()) + segments.last().3
    }
}

/// How many elements the segments of all tiles hold.
spec fn segments_total(entries: Seq<(Vec<u64>, Vec<Segment>)>) -> int
    decreases entries.len(),
{
    if entries.len() == 0 {
        0
    } else {
        segments_total(entries.drop_last()) + segment_total(entries.last().1@)
    }
}

proof fn lemma_segments_update(
    entries: Seq<(Vec<u64>, Vec<Segment>)>,
    at: int,
    entry: (Vec<u64>, Vec<Segment>),
)
    requires
        0 <= at < entries.len(),
    ensures
        segments_total(entries.update(at, entry)) == segments_total(entries) - segment_total(
            entries[at].1@,
        ) + segment_total(entry.1@),
    decreases entries.len(),
{
    let changed = entries.update(at, entry);
    if at == entries.len() - 1 {
        assert(changed.drop_last() =~= entries.drop_last());
    } else {
        assert(changed.drop_last() =~= entries.drop_last().update(at, entry));
        lemma_segments_update(entries.drop_last(), at, entry);
    }
}

proof fn lemma_segments_insert(
    entries: Seq<(Vec<u64>, Vec<Segment>)>,
    at: int,
    entry: (Vec<u64>, Vec<Segment>),
)
    requires
        0 <= at <= entries.len(),
    ensures
        segments_total(entries.insert(at, entry)) == segments_total(entries) + segment_total(
            entry.1@,
        ),
    decreases entries.len(),
{
    let longer = entries.insert(at, entry);
    if at == entries.len() {
        assert(longer.drop_last() =~= entries);
    } else {
        assert(longer.drop_last() =~= entries.drop_last().insert(at, entry));
        lemma_segments_insert(entries.drop_last(), at, entry);
    }
}

/// The coordinates of consecutive positions of a tensor.
pub open spec fn span_coords(start: int, len: nat, shape: Seq<u64>) -> Seq<Seq<u64>> {
    Seq::new(len, |i: int| coordinate_at(start + i, shape))
}

/// The segments of the first elements of a span, by tile.
spec fn segments_of(tiles: Groups<Segment>, coords: Seq<Seq<u64>>, done: int) -> bool {
    let entries = tiles.entries@;
    &&& tiles.wf()
    &&& forall|t: int, m: int|
        0 <= t < entries.len() && 0 <= m < entries[t].1@.len() ==> segment_fits(
            coords,
            entries[t].0@,
            #[trigger] entries[t].1@[m],
            done,
        )
    &&& forall|o: int| 0 <= o < done ==> #[trigger] in_segments(entries, o)
    &&& segments_total(entries) == done
}

/// A stretch of a row that does not leave its row or its tile is a segment.
proof fn lemma_segment_fits(
    start: int,
    len: nat,
    shape: Seq<u64>,
    key: Seq<u64>,
    segment: Segment,
)
    requires
        shape.len() >= 2,
        all_positive(shape),
        0 <= start,
        start + len <= volume(shape),
        segment.3 > 0,
        segment.0 + segment.3 <= len,
        ({
            let here = coordinate_at(start + segment.0, shape);
            let column = here[shape.len() - 1];
            &&& segment.1 == here[shape.len() - 2]
            &&& segment.2 == column
            &&& column + segment.3 <= shape[shape.len() - 1]
            &&& column as int % TILE_SIDE as int + segment.3 <= TILE_SIDE
            &&& key == tile_key(here)
        }),
    ensures
        segment_fits(span_coords(start, len, shape), key, segment, segment.0 + segment.3),
{
    let coords = span_coords(start, len, shape);
    let (done, row, column, count) = segment;
    let rank = shape.len() as int;
    let flat = start + done;
    let here = coordinate_at(flat, shape);
    lemma_coordinate_len(flat, shape);
    assert(key.take(rank - 2) =~= here.take(rank - 2));
    assert forall|j: int| 0 <= j < count implies #[trigger] coords[done + j] == key.take(
        rank - 2,
    ).push(row).push((column + j) as u64) by {
        let k = flat + j;
        let init = shape.drop_last();
        let d = shape.last() as int;
        lemma_coordinate_last(flat, shape);
        vstd::arithmetic::div_mod::lemma_fundamental_div_mod(flat, d);
        vstd::arithmetic::mul::lemma_mul_is_commutative(d, flat / d);
        vstd::arithmetic::div_mod::lemma_fundamental_div_mod_converse(k, d, flat / d, column + j);
        lemma_coordinate_last(k, shape);
        let at = coordinate_at(k, shape);
        assert(at == coordinate_at(flat / d, init).push((column + j) as u64));
        assert(here == coordinate_at(flat / d, init).push(column));
        lemma_coordinate_len(flat / d, init);
        assert(at =~= here.take(rank - 2).push(row).push((column + j) as u64));
    }
}

/// One more segment lists the elements after those that are listed.
proof fn lemma_segments_push(
    old_entries: Seq<(Vec<u64>, Vec<Segment>)>,
    entries: Seq<(Vec<u64>, Vec<Segment>)>,
    t0: int,
    fresh: bool,
    name: Seq<u64>,
    segment: Segment,
    coords: Seq<Seq<u64>>,
)
    requires
        segment_fits(coords, name, segment, segment.0 + segment.3),
        pushed(old_entries, entries, name, segment, t0, fresh),
        forall|t: int, m: int|
            0 <= t < old_entries.len() && 0 <= m < old_entries[t].1@.len() ==> segment_fits(
                coords,
                old_entries[t].0@,
                #[trigger] old_entries[t].1@[m],
                segment.0 as int,
            ),
        forall|o: int| 0 <= o < segment.0 ==> #[trigger] in_segments(old_entries, o),
        segments_total(old_entries) == segment.0,
    ensures
        forall|t: int, m: int|
            0 <= t < entries.len() && 0 <= m < entries[t].1@.len() ==> segment_fits(
                coords,
                entries[t].0@,
                #[trigger] entries[t].1@[m],
                segment.0 + segment.3,
            ),
        forall|o: int| 0 <= o < segment.0 + segment.3 ==> #[trigger] in_segments(entries, o),
        segments_total(entries) == segment.0 + segment.3,
{
    let done = segment.0 as int;
    let next = segment.0 + segment.3;
    assert(segment_fits(coords, name, segment, next));
    if fresh {
        lemma_segments_insert(old_entries, t0, entries[t0]);
        assert(entries[t0].1@.drop_last() =~= Seq::<Segment>::empty());
        assert(segment_total(entries[t0].1@.drop_last()) == 0);
    } else {
        lemma_segments_update(old_entries, t0, entries[t0]);
        assert(entries[t0].1@.drop_last() =~= old_entries[t0].1@);
    }
    assert forall|t: int, m: int|
        0 <= t < entries.len() && 0 <= m < entries[t].1@.len() implies segment_fits(
        coords,
        entries[t].0@,
        #[trigger] entries[t].1@[m],
        next,
    ) by {
        let from = if !fresh || t < t0 {
            t
        } else {
            t - 1
        };
        if t == t0 {
            if fresh || m == old_entries[t0].1@.len() {
                assert(entries[t].1@[m] == segment);
            } else {
                assert(entries[t].1@[m] == old_entries[t0].1@[m]);
                assert(segment_fits(
                    coords,
                    old_entries[t0].0@,
                    old_entries[t0].1@[m],
                    done,
                ));
            }
        } else {
            assert(entries[t] == old_entries[from]);
            assert(segment_fits(
                coords,
                old_entries[from].0@,
                old_entries[from].1@[m],
                done,
            ));
        }
    }
    assert forall|o: int| 0 <= o < next implies #[trigger] in_segments(entries, o) by {
        if o < done {
            assert(in_segments(old_entries, o));
            let (t, m) = choose|t: int, m: int|
                0 <= t < old_entries.len() && 0 <= m < old_entries[t].1@.len() && (
                #[trigger] old_entries[t].1@[m]).0 <= o < old_entries[t].1@[m].0
                    + old_entries[t].1@[m].3;
            let to = if !fresh || t < t0 {
                t
            } else {
                t + 1
            };
            assert(entries[to].1@[m] == old_entries[t].1@[m]);
        } else {
            let m = entries[t0].1@.len() - 1;
            assert(entries[t0].1@[m] == segment);
        }
    }
}

/// The stretch of a span that starts at a place of it: to the end of the span, of the row or of the
/// tile, whichever comes first.
pub open spec fn cut_at(start: int, len: int, shape: Seq<u64>, done: int) -> Segment {
    let here = coordinate_at(start + done, shape);
    let column = here[shape.len() - 1] as int;
    let left = len - done;
    let row_left = shape[shape.len() - 1] - column;
    let tile_left = TILE_SIDE as int - column % TILE_SIDE as int;
    let count = if row_left < left {
        row_left
    } else {
        left
    };
    (
        done as usize,
        here[shape.len() - 2],
        column as u64,
        (if tile_left < count {
            tile_left
        } else {
            count
        }) as usize,
    )
}

/// A span from a place of it on, cut at the ends of rows and tiles.
pub open spec fn cuts(start: int, len: int, shape: Seq<u64>, done: int) -> Seq<Segment>
    decreases len - done,
{
    if done >= len {
        Seq::empty()
    } else {
        let segment = cut_at(start, len, shape, done);
        if segment.3 <= 0 || done + segment.3 > len {
            Seq::empty()
        } else {
            seq![segment] + cuts(start, len, shape, done + segment.3)
        }
    }
}

/// The stretches that lie in a tile, in order.
pub open spec fn tile_cuts(
    start: int,
    shape: Seq<u64>,
    segments: Seq<Segment>,
    key: Seq<u64>,
) -> Seq<Segment>
    decreases segments.len(),
{
    if segments.len() == 0 {
        Seq::empty()
    } else {
        let before = tile_cuts(start, shape, segments.drop_last(), key);
        if tile_key(coordinate_at(start + segments.last().0, shape)) == key {
            before.push(segments.last())
        } else {
            before
        }
    }
}

/// Cut a span of positions at the ends of rows and tiles.
fn cut_segments(start: u64, len: usize, shape: &[u64]) -> (tiles: Groups<Segment>)
    requires
        shape@.len() >= 2,
        all_positive(shape@),
        start + len <= volume(shape@),
        start + len <= u64::MAX,
    ensures
        segments_of(tiles, span_coords(start as int, len as nat, shape@), len as int),
        forall|key: Seq<u64>| #[trigger]
            tiles.listed(key) == tile_cuts(
                start as int,
                shape@,
                cuts(start as int, len as int, shape@, 0),
                key,
            ),
{
    let ghost coords = span_coords(start as int, len as nat, shape@);
    let rank: usize = shape.len();
    let width: u64 = shape[rank - 1];
    let mut tiles: Groups<Segment> = Groups::new();
    let mut coord = Coord::new();
    let mut done: usize = 0;
    let ghost all = cuts(start as int, len as int, shape@, 0);
    let ghost mut sofar = Seq::<Segment>::empty();
    proof {
        assert(sofar + cuts(start as int, len as int, shape@, 0) =~= all);
    }
    while done < len
        invariant
            done <= len,
            rank == shape.len(),
            rank >= 2,
            all_positive(shape@),
            width == shape@[rank - 1],
            start + len <= volume(shape@),
            start + len <= u64::MAX,
            sofar + cuts(start as int, len as int, shape@, done as int) == all,
            forall|key: Seq<u64>| #[trigger]
                tiles.listed(key) == tile_cuts(start as int, shape@, sofar, key),
            coords == span_coords(start as int, len as nat, shape@),
            segments_of(tiles, coords, done as int),
        decreases len - done,
    {
        let flat: u64 = start + done as u64;
        let decoded = decode_flat(flat, shape, &mut coord);
        assert(decoded is Ok);
        let ghost here = coord@;
        proof {
            lemma_coordinate_position(flat as int, shape@);
            lemma_coordinate_last(flat as int, shape@);
            assert(shape@.last() == width);
            assert(here[rank - 1] < shape@[rank - 1]);
        }
        let column: u64 = coord.as_slice()[rank - 1];
        let row: u64 = coord.as_slice()[rank - 2];
        let side: u64 = TILE_SIDE as u64;
        let left: u64 = (len - done) as u64;
        let row_left: u64 = width - column;
        let tile_left: u64 = side - column % side;
        let mut count: u64 = left;
        if row_left < count {
            count = row_left;
        }
        if tile_left < count {
            count = tile_left;
        }
        let mut key = slice_to_vec(slice_subrange(coord.as_slice(), 0, rank - 2));
        key.push(row / side);
        key.push(column / side);
        let ghost name = key@;
        let segment: Segment = (done, row, column, count as usize);
        let ghost before = tiles;
        proof {
            assert(name =~= tile_key(here));
            lemma_segment_fits(start as int, len as nat, shape@, name, segment);
        }
        let (at, fresh) = tiles.push(key, segment);
        proof {
            let t0 = at as int;
            let old_entries = before.entries@;
            let entries = tiles.entries@;
            lemma_segments_push(old_entries, entries, t0, fresh, name, segment, coords);
            let rest = cuts(start as int, len as int, shape@, done as int);
            let next = cuts(start as int, len as int, shape@, done + count);
            assert(segment == cut_at(start as int, len as int, shape@, done as int));
            assert(rest == seq![segment] + next);
            assert(sofar.push(segment) + next =~= sofar + rest);
            assert(sofar.push(segment).drop_last() =~= sofar);
            assert forall|other: Seq<u64>| #[trigger]
                tiles.listed(other) == tile_cuts(
                    start as int,
                    shape@,
                    sofar.push(segment),
                    other,
                ) by {
                assert(before.listed(other) == tile_cuts(start as int, shape@, sofar, other));
            }
            sofar = sofar.push(segment);
        }
        done = done + count as usize;
    }
    proof {
        assert(sofar =~= all);
    }
    tiles
}

proof fn lemma_span_place(spans: Seq<(usize, usize, usize)>, s: int, j: int) -> (k: int)
    requires
        0 <= s < spans.len(),
        0 <= j < spans[s].2,
    ensures
        0 <= k < spans_pairs(spans).len(),
        spans_pairs(spans)[k] == (spans[s].0 + j, spans[s].1 + j),
    decreases spans.len(),
{
    let init = spans.drop_last();
    if s == spans.len() - 1 {
        spans_pairs(init).len() + j
    } else {
        lemma_span_place(init, s, j)
    }
}

proof fn lemma_span_pair(spans: Seq<(usize, usize, usize)>, k: int) -> (at: (int, int))
    requires
        0 <= k < spans_pairs(spans).len(),
    ensures
        0 <= at.0 < spans.len(),
        0 <= at.1 < spans[at.0].2,
        spans_pairs(spans)[k] == (spans[at.0].0 + at.1, spans[at.0].1 + at.1),
    decreases spans.len(),
{
    let init = spans.drop_last();
    let n = spans_pairs(init).len() as int;
    if k < n {
        lemma_span_pair(init, k)
    } else {
        (spans.len() - 1, k - n)
    }
}

/// In a sorted list that holds consecutive numbers, they stand next to each other.
proof fn lemma_consecutive(values: Seq<u64>, at: int, first: u64, j: int)
    requires
        increasing(values),
        0 <= at < values.len(),
        values[at] == first,
        0 <= j,
        first + j <= u64::MAX,
        forall|i: int| 0 <= i <= j ==> values.contains(#[trigger] nth(first, i)),
    ensures
        at + j < values.len(),
        values[at + j] == first + j,
    decreases j,
{
    if j > 0 {
        assert forall|i: int| 0 <= i <= j - 1 implies values.contains(#[trigger] nth(first, i)) by {}
        lemma_consecutive(values, at, first, j - 1);
        assert(values.contains(nth(first, j)));
        let p = choose|p: int| 0 <= p < values.len() && values[p] == nth(first, j);
        if p < at + j {
            if p < at + j - 1 {
                assert(values[p] < values[at + j - 1]);
            }
        } else if p > at + j {
            assert(values[at + j - 1] < values[at + j]);
            assert(values[at + j] < values[p]);
        }
    }
}

/// A number some places further.
pub open spec fn nth(first: u64, i: int) -> u64 {
    (first + i) as u64
}

/// Some segment lies in the row.
pub open spec fn segment_row(segments: Seq<Segment>, row: u64) -> bool {
    exists|q: int| 0 <= q < segments.len() && (#[trigger] segments[q]).1 == row
}

/// Some segment has an element in the column.
pub open spec fn segment_column(segments: Seq<Segment>, column: u64) -> bool {
    exists|q: int, i: int|
        0 <= q < segments.len() && 0 <= i < segments[q].3 && #[trigger] nth(segments[q].2, i)
            == column
}

/// A plan for some segments of a tile draws on nothing else.
proof fn lemma_segments_drawn(
    plan: MatrixPlan,
    coords: Seq<Seq<u64>>,
    key: Seq<u64>,
    segments: Seq<Segment>,
)
    requires
        key.len() >= 2,
        plan.prefix@ == key.take(key.len() - 2),
        forall|m: int|
            0 <= m < segments.len() ==> segment_fits(
                coords,
                key,
                #[trigger] segments[m],
                coords.len() as int,
            ),
        forall|i: int|
            0 <= i < plan.rectangle.rows@.len() ==> segment_row(
                segments,
                #[trigger] plan.rectangle.rows@[i],
            ),
        forall|j: int|
            0 <= j < plan.rectangle.columns@.len() ==> segment_column(
                segments,
                #[trigger] plan.rectangle.columns@[j],
            ),
    ensures
        drawn(plan, coords),
{
    let n = key.len() - 2;
    let rows = plan.rectangle.rows@;
    let columns = plan.rectangle.columns@;
    assert forall|i: int| 0 <= i < rows.len() implies row_drawn(
        plan.prefix@,
        #[trigger] rows[i],
        coords,
    ) && rows[i] as int / TILE_SIDE as int == key[n] by {
        let q = choose|q: int| 0 <= q < segments.len() && (#[trigger] segments[q]).1 == rows[i];
        assert(segment_fits(coords, key, segments[q], coords.len() as int));
        let coord = coords[segments[q].0 + 0];
        assert(coord.take(n) =~= plan.prefix@);
        assert(in_matrix(plan.prefix@, coord));
    }
    assert forall|j: int| 0 <= j < columns.len() implies column_drawn(
        plan.prefix@,
        #[trigger] columns[j],
        coords,
    ) && columns[j] as int / TILE_SIDE as int == key[n + 1] by {
        let (q, i) = choose|q: int, i: int|
            0 <= q < segments.len() && 0 <= i < segments[q].3 && #[trigger] nth(segments[q].2, i)
                == columns[j];
        assert(segment_fits(coords, key, segments[q], coords.len() as int));
        let coord = coords[segments[q].0 + i];
        assert(coord.take(n) =~= plan.prefix@);
        assert(in_matrix(plan.prefix@, coord));
        let first = segments[q].2 as int;
        assert((first + i) / 32 == first / 32) by (nonlinear_arith)
            requires
                0 <= i,
                first % 32 + i < 32,
        ;
    }
}

/// The rows and columns of the segments of a tile lie in the tile.
proof fn lemma_segments_tile(
    coords: Seq<Seq<u64>>,
    key: Seq<u64>,
    segments: Seq<Segment>,
    rows: Seq<u64>,
    columns: Seq<u64>,
)
    requires
        forall|m: int|
            0 <= m < segments.len() ==> segment_fits(
                coords,
                key,
                #[trigger] segments[m],
                coords.len() as int,
            ),
        rows.len() > 0,
        columns.len() > 0,
        increasing(rows),
        increasing(columns),
        forall|i: int| 0 <= i < rows.len() ==> segment_row(segments, #[trigger] rows[i]),
        forall|j: int| 0 <= j < columns.len() ==> segment_column(segments, #[trigger] columns[j]),
    ensures
        rows.len() <= TILE_SIDE,
        columns.len() <= TILE_SIDE,
{
    let n = key.len() - 2;
    assert forall|i: int| 0 <= i < rows.len() implies (#[trigger] rows[i]) as int
        / TILE_SIDE as int == key[n] by {
        assert(segment_row(segments, rows[i]));
        let q = choose|q: int| 0 <= q < segments.len() && (#[trigger] segments[q]).1 == rows[i];
        assert(segment_fits(coords, key, segments[q], coords.len() as int));
    }
    assert forall|j: int| 0 <= j < columns.len() implies (#[trigger] columns[j]) as int
        / TILE_SIDE as int == key[n + 1] by {
        assert(segment_column(segments, columns[j]));
        let (q, i) = choose|q: int, i: int|
            0 <= q < segments.len() && 0 <= i < segments[q].3 && #[trigger] nth(segments[q].2, i)
                == columns[j];
        assert(segment_fits(coords, key, segments[q], coords.len() as int));
        let first = segments[q].2 as int;
        assert((first + i) / 32 == first / 32) by (nonlinear_arith)
            requires
                0 <= i,
                first % 32 + i < 32,
        ;
    }
    lemma_tile_len(rows);
    lemma_tile_len(columns);
}

/// Plan one tile of a span.
fn segment_plan(key: &[u64], segments: &[Segment], Ghost(coords): Ghost<Seq<Seq<u64>>>) -> (plan:
    MatrixPlan)
    requires
        key@.len() >= 2,
        segments@.len() > 0,
        forall|m: int|
            0 <= m < segments@.len() ==> segment_fits(
                coords,
                key@,
                #[trigger] segments@[m],
                coords.len() as int,
            ),
    ensures
        plan_fits(plan, coords),
        is_tile_plan(plan, segments@),
        plan_tile(plan) == key@,
        rectangle_pairs(plan.rectangle).len() == segment_total(segments@),
        forall|m: int, o: int|
            0 <= m < segments@.len() && (#[trigger] segments@[m]).0 <= o < segments@[m].0
                + segments@[m].3 ==> #[trigger] takes(plan, o),
{
    let rank: usize = key.len();
    let n: usize = segments.len();
    let mut rows: Vec<u64> = Vec::new();
    let mut columns: Vec<u64> = Vec::new();
    let mut m: usize = 0;
    proof {
        assert(segments@.take(0) =~= Seq::<Segment>::empty());
    }
    while m < n
        invariant
            m <= n,
            n == segments.len(),
            forall|q: int|
                0 <= q < segments@.len() ==> segment_fits(
                    coords,
                    key@,
                    #[trigger] segments@[q],
                    coords.len() as int,
                ),
            increasing(rows@),
            increasing(columns@),
            m > 0 ==> rows@.len() > 0 && columns@.len() > 0,
            forall|i: int| 0 <= i < rows@.len() ==> segment_row(segments@, #[trigger] rows@[i]),
            forall|i: int|
                0 <= i < columns@.len() ==> segment_column(segments@, #[trigger] columns@[i]),
            forall|q: int| 0 <= q < m ==> rows@.contains((#[trigger] segments@[q]).1),
            forall|q: int, i: int|
                0 <= q < m && 0 <= i < (#[trigger] segments@[q]).3 ==> columns@.contains(
                    #[trigger] nth(segments@[q].2, i),
                ),
        decreases n - m,
    {
        let (d, row, column, count) = segments[m];
        let ghost old_rows = rows@;
        let ghost old_columns = columns@;
        proof {
            assert(segment_fits(coords, key@, segments@[m as int], coords.len() as int));
            assert(segments@.take(m + 1).drop_last() =~= segments@.take(m as int));
            assert(segments@.take(m + 1).last() == segments@[m as int]);
        }
        insert_unique(&mut rows, row);
        let mut j: usize = 0;
        while j < count
            invariant
                j <= count,
                m < n,
                n == segments.len(),
                (d, row, column, count) == segments@[m as int],
                column + count <= u64::MAX,
                increasing(columns@),
                forall|i: int|
                    0 <= i < columns@.len() ==> segment_column(segments@, #[trigger] columns@[i]),
                m > 0 || j > 0 ==> columns@.len() > 0,
                forall|q: int, i: int|
                    0 <= q < m && 0 <= i < (#[trigger] segments@[q]).3 ==> columns@.contains(
                        #[trigger] nth(segments@[q].2, i),
                    ),
                forall|i: int| 0 <= i < j ==> columns@.contains(#[trigger] nth(column, i)),
            decreases count - j,
        {
            let ghost before = columns@;
            insert_unique(&mut columns, column + j as u64);
            proof {
                assert forall|i: int| 0 <= i < j + 1 implies columns@.contains(
                    #[trigger] nth(column, i),
                ) by {
                    if i < j {
                        assert(before.contains(nth(column, i)));
                    }
                }
                assert forall|i: int| 0 <= i < columns@.len() implies segment_column(
                    segments@,
                    #[trigger] columns@[i],
                ) by {
                    assert(columns@.contains(columns@[i]));
                    if before.contains(columns@[i]) {
                        let b = choose|b: int| 0 <= b < before.len() && before[b] == columns@[i];
                        assert(segment_column(segments@, before[b]));
                    } else {
                        assert(nth(segments@[m as int].2, j as int) == columns@[i]);
                    }
                }
                assert forall|q: int, i: int|
                    0 <= q < m && 0 <= i < (#[trigger] segments@[q]).3 implies columns@.contains(
                    #[trigger] nth(segments@[q].2, i),
                ) by {
                    assert(before.contains(nth(segments@[q].2, i)));
                }
            }
            j += 1;
        }
        proof {
            assert forall|q: int| 0 <= q < m + 1 implies rows@.contains(
                (#[trigger] segments@[q]).1,
            ) by {
                if q < m {
                    assert(old_rows.contains(segments@[q].1));
                }
            }
            assert forall|i: int| 0 <= i < rows@.len() implies segment_row(
                segments@,
                #[trigger] rows@[i],
            ) by {
                assert(rows@.contains(rows@[i]));
                if old_rows.contains(rows@[i]) {
                    let b = choose|b: int| 0 <= b < old_rows.len() && old_rows[b] == rows@[i];
                    assert(segment_row(segments@, old_rows[b]));
                } else {
                    assert(segments@[m as int].1 == rows@[i]);
                }
            }
        }
        m += 1;
    }
    proof {
        assert(segments@.take(m as int) =~= segments@);
    }
    proof {
        lemma_segments_tile(coords, key@, segments@, rows@, columns@);
    }
    let width: usize = columns.len();
    let mut spans: Vec<(usize, usize, usize)> = Vec::new();
    let mut m: usize = 0;
    proof {
        assert(spans@ =~= Seq::<(usize, usize, usize)>::empty());
    }
    while m < n
        invariant
            m <= n,
            n == segments.len(),
            forall|q: int|
                0 <= q < segments@.len() ==> segment_fits(
                    coords,
                    key@,
                    #[trigger] segments@[q],
                    coords.len() as int,
                ),
            increasing(rows@),
            increasing(columns@),
            rows@.len() <= TILE_SIDE,
            width == columns@.len(),
            width <= TILE_SIDE,
            forall|q: int| 0 <= q < n ==> rows@.contains((#[trigger] segments@[q]).1),
            forall|q: int, i: int|
                0 <= q < n && 0 <= i < (#[trigger] segments@[q]).3 ==> columns@.contains(
                    #[trigger] nth(segments@[q].2, i),
                ),
            spans.len() == m,
            spans_pairs(spans@).len() == segment_total(segments@.take(m as int)),
            forall|q: int|
                0 <= q < m ==> span_of(
                    #[trigger] spans@[q],
                    segments@[q],
                    rows@,
                    columns@,
                ),
        decreases n - m,
    {
        let (d, row, column, count) = segments[m];
        proof {
            assert(segment_fits(coords, key@, segments@[m as int], coords.len() as int));
            assert(rows@.contains(segments@[m as int].1));
            assert(columns@.contains(nth(segments@[m as int].2, 0)));
        }
        let i: usize = match find(rows.as_slice(), row) {
            Some(i) => i,
            None => 0,
        };
        let c: usize = match find(columns.as_slice(), column) {
            Some(c) => c,
            None => 0,
        };
        proof {
            assert(0 <= i * width <= 32 * 32) by (nonlinear_arith)
                requires
                    0 <= i <= 32,
                    0 <= width <= 32,
            ;
            lemma_join_index(i as int, c as int, rows@.len() as int, width as int);
        }
        let ghost before = spans@;
        let span: (usize, usize, usize) = (d, i * width + c, count);
        spans.push(span);
        proof {
            assert(spans@.drop_last() =~= before);
            assert(segments@.take(m + 1).drop_last() =~= segments@.take(m as int));
            assert(segments@.take(m + 1).last() == segments@[m as int]);
            assert(span_of(span, segments@[m as int], rows@, columns@));
        }
        m += 1;
    }
    proof {
        assert(segments@.take(m as int) =~= segments@);
    }
    let ghost all_spans = spans@;
    let plan = MatrixPlan {
        prefix: slice_to_vec(slice_subrange(key, 0, rank - 2)),
        rectangle: Rectangle { rows, columns, scatter: Scatter::Spans(spans) },
    };
    proof {
        let pairs = rectangle_pairs(plan.rectangle);
        assert(plan.prefix@ =~= key@.take(rank - 2));
        lemma_tile_plan(plan, coords, key@, segments@, all_spans);
        lemma_segments_drawn(plan, coords, key@, segments@);
        assert forall|k: int| 0 <= k < pairs.len() implies #[trigger] plan_pair_fits(
            plan,
            k,
            coords,
        ) by {
            let (q, j) = lemma_span_pair(all_spans, k);
            let segment = segments@[q];
            assert(span_of(all_spans[q], segment, rows@, columns@));
            assert(segment_fits(coords, key@, segment, coords.len() as int));
            let i = all_spans[q].1 as int / width as int;
            let c = all_spans[q].1 as int % width as int;
            assert forall|x: int| 0 <= x <= j implies columns@.contains(
                #[trigger] nth(segment.2, x),
            ) by {
                assert(columns@.contains(nth(segments@[q].2, x)));
            }
            lemma_consecutive(columns@, c, segment.2, j);
            vstd::arithmetic::div_mod::lemma_fundamental_div_mod(
                all_spans[q].1 as int,
                width as int,
            );
            vstd::arithmetic::mul::lemma_mul_is_commutative(width as int, i);
            lemma_join_index(i, c + j, rows@.len() as int, width as int);
            assert(coords[segment.0 + j] == key@.take(rank - 2).push(segment.1).push(
                (segment.2 + j) as u64,
            ));
        }
        assert forall|m: int, o: int|
            0 <= m < segments@.len() && (#[trigger] segments@[m]).0 <= o < segments@[m].0
                + segments@[m].3 implies #[trigger] takes(plan, o) by {
            assert(span_of(all_spans[m], segments@[m], rows@, columns@));
            let k = lemma_span_place(all_spans, m, o - segments@[m].0);
            assert(pairs[k].0 == o);
        }
    }
    plan
}

/// The plan has a pair for the element at a place of the request.
pub open spec fn takes(plan: MatrixPlan, position: int) -> bool {
    exists|k: int|
        0 <= k < rectangle_pairs(plan.rectangle).len() && (#[trigger] rectangle_pairs(
            plan.rectangle,
        )[k]).0 == position
}

/// The span takes a segment from its row, at its first column.
pub open spec fn span_of(
    span: (usize, usize, usize),
    segment: Segment,
    rows: Seq<u64>,
    columns: Seq<u64>,
) -> bool {
    let width = columns.len() as int;
    &&& span.0 == segment.0
    &&& span.2 == segment.3
    &&& 0 <= span.1 < rows.len() * width
    &&& 0 <= span.1 as int / width < rows.len()
    &&& 0 <= span.1 as int % width < width
    &&& rows[span.1 as int / width] == segment.1
    &&& columns[span.1 as int % width] == segment.2
}

/// The tile of a plan: its matrix, and the row and the column of tiles.
pub open spec fn plan_tile(plan: MatrixPlan) -> Seq<u64> {
    plan.prefix@.push((plan.rectangle.rows@[0] as int / TILE_SIDE as int) as u64).push(
        (plan.rectangle.columns@[0] as int / TILE_SIDE as int) as u64,
    )
}

/// The plan takes these stretches, one span for each, and its rows and columns are those of the
/// stretches.
pub open spec fn is_tile_plan(plan: MatrixPlan, segments: Seq<Segment>) -> bool {
    let rows = plan.rectangle.rows@;
    let columns = plan.rectangle.columns@;
    &&& increasing(rows)
    &&& increasing(columns)
    &&& forall|row: u64| #[trigger] rows.contains(row) <==> segment_row(segments, row)
    &&& forall|column: u64| #[trigger]
        columns.contains(column) <==> segment_column(segments, column)
    &&& plan.rectangle.scatter is Spans
    &&& plan.rectangle.scatter matches Scatter::Spans(spans) ==> spans@.len() == segments.len()
        && forall|m: int|
        0 <= m < segments.len() ==> span_of(#[trigger] spans@[m], segments[m], rows, columns)
}

proof fn lemma_tile_plan(
    plan: MatrixPlan,
    coords: Seq<Seq<u64>>,
    key: Seq<u64>,
    segments: Seq<Segment>,
    spans: Seq<(usize, usize, usize)>,
)
    requires
        key.len() >= 2,
        segments.len() > 0,
        plan.prefix@ == key.take(key.len() - 2),
        forall|m: int|
            0 <= m < segments.len() ==> segment_fits(
                coords,
                key,
                #[trigger] segments[m],
                coords.len() as int,
            ),
        increasing(plan.rectangle.rows@),
        increasing(plan.rectangle.columns@),
        forall|i: int|
            0 <= i < plan.rectangle.rows@.len() ==> segment_row(
                segments,
                #[trigger] plan.rectangle.rows@[i],
            ),
        forall|j: int|
            0 <= j < plan.rectangle.columns@.len() ==> segment_column(
                segments,
                #[trigger] plan.rectangle.columns@[j],
            ),
        forall|q: int|
            0 <= q < segments.len() ==> plan.rectangle.rows@.contains((#[trigger] segments[q]).1),
        forall|q: int, i: int|
            0 <= q < segments.len() && 0 <= i < (#[trigger] segments[q]).3
                ==> plan.rectangle.columns@.contains(#[trigger] nth(segments[q].2, i)),
        plan.rectangle.scatter matches Scatter::Spans(list) && list@ == spans,
        spans.len() == segments.len(),
        forall|m: int|
            0 <= m < segments.len() ==> span_of(
                #[trigger] spans[m],
                segments[m],
                plan.rectangle.rows@,
                plan.rectangle.columns@,
            ),
    ensures
        is_tile_plan(plan, segments),
        plan_tile(plan) == key,
{
    let rows = plan.rectangle.rows@;
    let columns = plan.rectangle.columns@;
    let n = key.len() - 2;
    assert forall|row: u64| #[trigger] rows.contains(row) <==> segment_row(segments, row) by {
        if rows.contains(row) {
            let i = choose|i: int| 0 <= i < rows.len() && rows[i] == row;
            assert(segment_row(segments, rows[i]));
        }
        if segment_row(segments, row) {
            let q = choose|q: int| 0 <= q < segments.len() && (#[trigger] segments[q]).1 == row;
            assert(rows.contains(segments[q].1));
        }
    }
    assert forall|column: u64| #[trigger]
        columns.contains(column) <==> segment_column(segments, column) by {
        if columns.contains(column) {
            let j = choose|j: int| 0 <= j < columns.len() && columns[j] == column;
            assert(segment_column(segments, columns[j]));
        }
        if segment_column(segments, column) {
            let (q, i) = choose|q: int, i: int|
                0 <= q < segments.len() && 0 <= i < segments[q].3 && #[trigger] nth(
                    segments[q].2,
                    i,
                ) == column;
            assert(segments[q].3 > i);
            assert(columns.contains(nth(segments[q].2, i)));
        }
    }
    assert(rows.contains(segments[0].1));
    assert(segment_fits(coords, key, segments[0], coords.len() as int));
    assert(columns.contains(nth(segments[0].2, 0)));
    assert(segment_row(segments, rows[0]));
    let q = choose|q: int| 0 <= q < segments.len() && (#[trigger] segments[q]).1 == rows[0];
    assert(segment_fits(coords, key, segments[q], coords.len() as int));
    assert(segment_column(segments, columns[0]));
    let (r, i) = choose|r: int, i: int|
        0 <= r < segments.len() && 0 <= i < segments[r].3 && #[trigger] nth(segments[r].2, i)
            == columns[0];
    assert(segment_fits(coords, key, segments[r], coords.len() as int));
    let first = segments[r].2 as int;
    assert((first + i) / 32 == first / 32) by (nonlinear_arith)
        requires
            0 <= i,
            first % 32 + i < 32,
    ;
    assert(plan_tile(plan) =~= key);
}

/// There is one plan for each tile that a span meets, in the order of the tiles, and it takes the
/// stretches of the span that lie in the tile.
pub open spec fn are_linear_plans(
    plans: Seq<MatrixPlan>,
    start: int,
    len: int,
    shape: Seq<u64>,
) -> bool {
    &&& forall|p: int, q: int|
        0 <= p < q < plans.len() ==> lex_below(
            plan_tile(#[trigger] plans[p]),
            plan_tile(#[trigger] plans[q]),
        )
    &&& forall|p: int|
        0 <= p < plans.len() ==> is_tile_plan(
            #[trigger] plans[p],
            tile_cuts(start, shape, cuts(start, len, shape, 0), plan_tile(plans[p])),
        )
}

/// Plans for consecutive positions of a batch of matrices.
pub fn linear_plans(start: u64, len: usize, shape: &[u64]) -> (plans: Vec<MatrixPlan>)
    requires
        shape@.len() >= 2,
        all_positive(shape@),
        start + len <= volume(shape@),
        start + len <= u64::MAX,
    ensures
        covers(plans@, span_coords(start as int, len as nat, shape@)),
        are_linear_plans(plans@, start as int, len as int, shape@),
{
    let ghost coords = span_coords(start as int, len as nat, shape@);
    let tiles = cut_segments(start, len, shape);
    let ghost entries = tiles.entries@;
    let mut plans: Vec<MatrixPlan> = Vec::new();
    let mut e: usize = 0;
    proof {
        assert(entries.take(0) =~= Seq::<(Vec<u64>, Vec<Segment>)>::empty());
    }
    while e < tiles.entries.len()
        invariant
            e <= tiles.entries.len(),
            entries == tiles.entries@,
            coords.len() == len,
            segments_of(tiles, coords, len as int),
            forall|p: int| 0 <= p < plans@.len() ==> plan_fits(#[trigger] plans@[p], coords),
            plans@.len() == e,
            forall|p: int|
                0 <= p < plans@.len() ==> is_tile_plan(#[trigger] plans@[p], entries[p].1@)
                    && plan_tile(plans@[p]) == entries[p].0@,
            forall|t: int, m: int, o: int|
                0 <= t < e && 0 <= m < entries[t].1@.len() && (#[trigger] entries[t].1@[m]).0 <= o
                    < entries[t].1@[m].0 + entries[t].1@[m].3 ==> #[trigger] is_planned(plans@, o),
            plan_total(plans@) == segments_total(entries.take(e as int)),
        decreases tiles.entries.len() - e,
    {
        let ghost segments = entries[e as int].1@;
        let ghost before = plans@;
        proof {
            assert(segments.len() > 0);
            assert(segment_fits(
                coords,
                entries[e as int].0@,
                entries[e as int].1@[0],
                len as int,
            ));
            assert(entries.take(e + 1).drop_last() =~= entries.take(e as int));
            assert(entries.take(e + 1).last() == entries[e as int]);
            assert forall|m: int| 0 <= m < segments.len() implies segment_fits(
                coords,
                entries[e as int].0@,
                #[trigger] segments[m],
                coords.len() as int,
            ) by {
                assert(segment_fits(
                    coords,
                    entries[e as int].0@,
                    entries[e as int].1@[m],
                    len as int,
                ));
            }
        }
        let plan = segment_plan(
            tiles.entries[e].0.as_slice(),
            tiles.entries[e].1.as_slice(),
            Ghost(coords),
        );
        proof {
            lemma_planned_push(before, plan);
        }
        plans.push(plan);
        proof {
            assert forall|t: int, m: int, o: int|
                0 <= t < e + 1 && 0 <= m < entries[t].1@.len() && (#[trigger] entries[t].1@[m]).0
                    <= o < entries[t].1@[m].0 + entries[t].1@[m].3 implies #[trigger] is_planned(
                plans@,
                o,
            ) by {
                if t < e {
                    assert(is_planned(before, o));
                } else {
                    assert(segments[m] == entries[t].1@[m]);
                    assert(takes(plan, o));
                    let k = choose|k: int|
                        0 <= k < rectangle_pairs(plan.rectangle).len() && (
                        #[trigger] rectangle_pairs(plan.rectangle)[k]).0 == o;
                    assert(is_planned(plans@, rectangle_pairs(plan.rectangle)[k].0));
                }
            }
        }
        e += 1;
    }
    proof {
        assert(entries.take(e as int) =~= entries);
        assert forall|p: int| 0 <= p < plans@.len() implies is_tile_plan(
            #[trigger] plans@[p],
            tile_cuts(
                start as int,
                shape@,
                cuts(start as int, len as int, shape@, 0),
                plan_tile(plans@[p]),
            ),
        ) by {
            tiles.lemma_listed(p);
        }
        assert forall|p: int, q: int| 0 <= p < q < plans@.len() implies lex_below(
            plan_tile(#[trigger] plans@[p]),
            plan_tile(#[trigger] plans@[q]),
        ) by {
            assert(lex_below(entries[p].0@, entries[q].0@));
        }
        assert forall|o: int| 0 <= o < coords.len() implies #[trigger] is_planned(plans@, o) by {
            assert(in_segments(entries, o));
            let (t, m) = choose|t: int, m: int|
                0 <= t < entries.len() && 0 <= m < entries[t].1@.len() && (
                #[trigger] entries[t].1@[m]).0 <= o < entries[t].1@[m].0 + entries[t].1@[m].3;
            assert(entries[t].1@[m].0 <= o);
        }
    }
    plans
}

/// Every coordinate of a tensor stands at itself in the tensor.
proof fn lemma_identity_resolves(shape: Seq<u64>, strides: Seq<u64>, coords: Seq<Seq<u64>>)
    requires
        matrix_shape(shape, strides),
        forall|o: int| 0 <= o < coords.len() ==> in_box(#[trigger] coords[o], shape),
    ensures
        all_resolve(identity_map(shape, strides), coords, shape, strides),
        resolved(identity_map(shape, strides), coords, shape) == coords,
{
    let map = identity_map(shape, strides);
    lemma_product_fits(shape);
    assert forall|i: int| 0 <= i < strides.len() implies #[trigger] strides[i] > 0 by {
        assert(strides[i] == volume(shape.skip(i + 1)));
        lemma_volume_positive(shape.skip(i + 1));
        assert forall|j: int| 0 <= j < shape.skip(i + 1).len() implies #[trigger] shape.skip(
            i + 1,
        )[j] > 0 by {
            assert(shape.skip(i + 1)[j] == shape[j + i + 1]);
        }
    }
    assert forall|o: int| 0 <= o < coords.len() implies resolves(
        map,
        #[trigger] coords[o],
        shape,
        strides,
    ) && coordinate_at(offset_at(map, coords[o]), shape) == coords[o] by {
        let coord = coords[o];
        lemma_identity_offset(shape, strides, coord);
        lemma_position_bound(coord, shape);
        lemma_position_coordinate(coord, shape);
        lemma_identity_fits(shape, strides, coord);
    }
    assert(resolved(map, coords, shape) =~= coords);
}

/// The offset of a coordinate of a tensor stays within the machine's numbers.
proof fn lemma_identity_fits(shape: Seq<u64>, strides: Seq<u64>, coord: Seq<u64>)
    requires
        matrix_shape(shape, strides),
        in_box(coord, shape),
    ensures
        offset_fits(identity_map(shape, strides), coord),
{
    let map = identity_map(shape, strides);
    lemma_identity_offset(shape, strides, coord);
    lemma_position_bound(coord, shape);
    assert forall|i: int| 0 <= i < map.axes.len() implies {
        &&& index_known(#[trigger] map.axes[i], coord[i])
        &&& fits(contribution(map.axes[i], coord[i] as int))
        &&& fits(map.base + total(map.axes.take(i + 1), coord.take(i + 1)))
    } by {
        lemma_stride_totals(strides, coord, i + 1);
        lemma_stride_totals(strides, coord, i);
        lemma_total_take(map.axes, coord, i);
        assert(0 <= strides[i] * coord[i]) by (nonlinear_arith)
            requires
                strides[i] >= 0,
                coord[i] >= 0,
        ;
        assert(contribution(map.axes[i], coord[i] as int) == strides[i] * coord[i]);
    }
}

/// The offset so far never exceeds the whole offset.
proof fn lemma_stride_totals(strides: Seq<u64>, coord: Seq<u64>, n: int)
    requires
        strides.len() == coord.len(),
        0 <= n <= strides.len(),
    ensures
        0 <= total(stride_axes(strides).take(n), coord.take(n)) <= total(
            stride_axes(strides),
            coord,
        ),
    decreases strides.len() - n,
{
    let axes = stride_axes(strides);
    lemma_stride_total_positive(strides.take(n), coord.take(n));
    assert(stride_axes(strides.take(n)) =~= axes.take(n));
    if n == strides.len() {
        assert(axes.take(n) =~= axes);
        assert(coord.take(n) =~= coord);
    } else {
        lemma_stride_totals(strides, coord, n + 1);
        lemma_total_take(axes, coord, n);
        assert(0 <= strides[n] * coord[n]) by (nonlinear_arith)
            requires
                strides[n] >= 0,
                coord[n] >= 0,
        ;
        assert(contribution(axes[n], coord[n] as int) == strides[n] * coord[n]);
    }
}

proof fn lemma_stride_total_positive(strides: Seq<u64>, coord: Seq<u64>)
    requires
        strides.len() == coord.len(),
    ensures
        0 <= total(stride_axes(strides), coord),
    decreases strides.len(),
{
    if strides.len() > 0 {
        lemma_stride_total_positive(strides.drop_last(), coord.drop_last());
        assert(stride_axes(strides).drop_last() =~= stride_axes(strides.drop_last()));
        let n = strides.len() - 1;
        assert(0 <= strides[n] * coord[n]) by (nonlinear_arith)
            requires
                strides[n] >= 0,
                coord[n] >= 0,
        ;
        assert(contribution(stride_axes(strides).last(), coord.last() as int) == strides[n]
            * coord[n]);
    }
}

/// The matrices of every box can be walked on their own.
pub open spec fn matrices_bounded(request: Requested) -> bool {
    request matches Requested::Rectangles(boxes) ==> boxes_bounded(boxes)
}

/// The matrices of every box can be walked on their own.
pub open spec fn boxes_bounded(boxes: Seq<Seq<Selection>>) -> bool {
    forall|r: int| 0 <= r < boxes.len() ==> batch_bounded(#[trigger] boxes[r])
}

/// Plan the rectangles that answer a request of a view on a product of this shape. Boxes and
/// spans of the product itself are planned without listing their elements.
pub fn plan_request(
    mapping: &CoordinateMap,
    shape: &[u64],
    strides: &[u64],
    request: &BatchRequest,
) -> (result: Result<Vec<MatrixPlan>>)
    requires
        mapping.tables_wf(),
        request.wf(),
        matrix_shape(shape@, strides@),
    ensures
        result is Ok <==> {
            &&& request_fits(request@, mapping@.shape)
            &&& all_resolve(
                mapping@,
                request_coords(request@, mapping@.shape),
                shape@,
                strides@,
            )
            &&& mapping@ == identity_map(shape@, strides@) ==> matrices_bounded(request@)
        },
        result matches Ok(plans) ==> {
            &&& covers(
                plans@,
                resolved(mapping@, request_coords(request@, mapping@.shape), shape@),
            )
            &&& forall|p: int|
                0 <= p < plans@.len() ==> ((#[trigger] plans@[p]).rectangle.scatter is Explicit
                    ==> mapping@ != identity_map(shape@, strides@) || request@ is Explicit)
            &&& mapping@ == identity_map(shape@, strides@) ==> (
            request@ matches Requested::Linear { start, len } ==> are_linear_plans(
                plans@,
                start as int,
                len as int,
                shape@,
            ))
        },
        (result matches Err(Error::InvalidSchema(_))) <==> request@ is Linear && !product_fits(
            mapping@.shape,
        ),
        (result matches Err(Error::InvalidLayout(_))) <==> {
            &&& request_fits(request@, mapping@.shape)
            &&& mapping@ == identity_map(shape@, strides@)
            &&& !matrices_bounded(request@)
        },
        result matches Err(error) ==> error is InvalidSchema || error is InvalidCoord
            || error is InvalidLayout,
{
    let ghost coords = request_coords(request@, mapping@.shape);
    proof {
        request.lemma_wf();
    }
    request.validate(mapping.shape.as_slice())?;
    proof {
        assert forall|o: int| 0 <= o < coords.len() implies in_box(
            #[trigger] coords[o],
            mapping@.shape,
        ) by {
            lemma_request_len(request@, mapping@.shape);
            requested_coordinates_lie_in_the_shape(request@, mapping@.shape, o);
        }
    }
    if mapping.is_identity(shape, strides) {
        proof {
            lemma_identity_resolves(shape@, strides@, coords);
        }
        match request.kind() {
            RequestKind::Rectangles(rectangles) => {
                proof {
                    assert(boxes_fit(boxes_of(rectangles@), shape@));
                    assert forall|r: int| 0 <= r < rectangles@.len() implies batch_bounded(
                        (#[trigger] rectangles@[r])@,
                    ) == batch_bounded(boxes_of(rectangles@)[r]) by {}
                }
                let result = cartesian_plans(rectangles.as_slice(), shape);
                proof {
                    if result is Ok {
                        assert(boxes_bounded(boxes_of(rectangles@)));
                    } else if boxes_bounded(boxes_of(rectangles@)) {
                        assert forall|r: int| 0 <= r < rectangles@.len() implies batch_bounded(
                            (#[trigger] rectangles@[r])@,
                        ) by {
                            assert(batch_bounded(boxes_of(rectangles@)[r]));
                        }
                    }
                }
                return result;
            },
            RequestKind::Linear { start } => {
                proof {
                    assert(coords =~= span_coords(*start as int, request.spec_len() as nat, shape@));
                }
                return Ok(linear_plans(*start, request.len(), shape));
            },
            RequestKind::Explicit(_) => {},
        }
    }
    let tiles = plan_tiles(mapping, shape, strides, request)?;
    let ghost list = resolved(mapping@, coords, shape@);
    proof {
        lemma_request_len(request@, mapping@.shape);
        assert forall|o: int| 0 <= o < list.len() implies (#[trigger] list[o]).len() >= 2 by {
            assert(in_box(list[o], shape@));
        }
    }
    Ok(tile_plans(tiles, Ghost(list)))
}

/// No plan computes more rows or more columns than a tile has.
pub proof fn plans_stay_within_a_tile(plan: MatrixPlan, coords: Seq<Seq<u64>>)
    requires
        plan_fits(plan, coords),
    ensures
        0 < plan.rectangle.rows@.len() <= TILE_SIDE,
        0 < plan.rectangle.columns@.len() <= TILE_SIDE,
{
    lemma_tile_len(plan.rectangle.rows@);
    lemma_tile_len(plan.rectangle.columns@);
}

/// Increasing numbers of one tile are no more than a tile is long.
proof fn lemma_tile_len(values: Seq<u64>)
    requires
        increasing(values),
        one_tile(values),
    ensures
        values.len() <= TILE_SIDE,
{
    if values.len() > 0 {
        let n = values.len() - 1;
        lemma_increasing_gap(values, n);
        let first = values[0] as int;
        let last = values[n] as int;
        assert(first / TILE_SIDE as int == last / TILE_SIDE as int);
        assert(last - first < 32) by (nonlinear_arith)
            requires
                first / 32 == last / 32,
                0 <= first,
                0 <= last,
        ;
    }
}

proof fn lemma_increasing_gap(values: Seq<u64>, n: int)
    requires
        increasing(values),
        0 <= n < values.len(),
    ensures
        values[n] >= values[0] + n,
    decreases n,
{
    if n > 0 {
        lemma_increasing_gap(values, n - 1);
        assert(values[n - 1] < values[n]);
    }
}

/// A plan for elements of a batch of matrices names rows, columns and a matrix that are there.
pub proof fn plans_lie_in_the_shape(
    plan: MatrixPlan,
    coords: Seq<Seq<u64>>,
    shape: Seq<u64>,
)
    requires
        plan_fits(plan, coords),
        shape.len() >= 2,
        forall|o: int| 0 <= o < coords.len() ==> in_box(#[trigger] coords[o], shape),
    ensures
        in_box(plan.prefix@, shape.take(shape.len() - 2)),
        each_below(plan.rectangle.rows@, shape[shape.len() - 2]),
        each_below(plan.rectangle.columns@, shape[shape.len() - 1]),
{
    let prefix = plan.prefix@;
    let rows = plan.rectangle.rows@;
    let columns = plan.rectangle.columns@;
    let n = shape.len() - 2;
    assert forall|i: int| 0 <= i < rows.len() implies #[trigger] rows[i] < shape[n] && in_box(
        prefix,
        shape.take(n),
    ) by {
        assert(row_drawn(prefix, rows[i], coords));
        let o = choose|o: int|
            0 <= o < coords.len() && in_matrix(prefix, #[trigger] coords[o])
                && coords[o][prefix.len() as int] == rows[i];
        assert(in_box(coords[o], shape));
        assert(prefix =~= coords[o].take(n));
        assert(coords[o][n] < shape[n]);
        assert forall|k: int| 0 <= k < n implies #[trigger] prefix[k] < shape.take(n)[k] by {
            assert(coords[o][k] < shape[k]);
        }
    }
    assert(rows[0] < shape[n]);
    assert forall|j: int| 0 <= j < columns.len() implies #[trigger] columns[j] < shape[n + 1] by {
        assert(column_drawn(prefix, columns[j], coords));
        let o = choose|o: int|
            0 <= o < coords.len() && in_matrix(prefix, #[trigger] coords[o])
                && coords[o][prefix.len() as int + 1] == columns[j];
        assert(in_box(coords[o], shape));
        assert(coords[o][n + 1] < shape[n + 1]);
    }
}

} // verus!
