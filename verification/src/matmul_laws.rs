//! What a whole batch of a matrix product holds: at every place the product and its support.

use vstd::prelude::*;
use crate::backend::wrapped;
use crate::expression::{answers, masked_values, Source, supported};
use crate::element_laws::is_congruent;
use crate::geometry::{in_box, lemma_coordinate_position, lemma_volume_positive, position_of};
use crate::mapping::{Mapping, offset_at, resolves};
use crate::matmul::{
    any_column_support, any_row_support, answered_operands_are_parts, Chunk, chunk_fits, chunk_of,
    chunk_sums, chunks_reach, column_supported, contraction, in_plan, is_scattered, left_place,
    operand_box, operand_coordinates, place_supported, right_place, row_supported, stays,
    support_flag, TileProduct, tiles_hold_matrix_products,
};
use crate::matmul_plan::{
    covers, is_planned, lemma_split_index, MatrixPlan, plan_coord, plan_fits, plan_pair_fits,
    rectangle_pairs, resolved,
};
use crate::request::{axes_fit, request_coords, Requested};
use crate::storage_read::all_resolve;

verus! {

/// The value of a product at a coordinate: the sum, over the contraction, of the products of the
/// row with the column.
pub open spec fn product_value(
    left: Source<u8>,
    right: Source<u8>,
    coord: Seq<u64>,
    inner: int,
) -> u8 {
    let n = coord.len() - 2;
    wrapped(
        contraction(
            left.value,
            right.value,
            coord.take(n),
            coord[n],
            coord[n + 1],
            inner as nat,
        ),
    )
}

/// Some position of the contraction has support in the row or in the column.
pub open spec fn product_supported(
    left: Source<u8>,
    right: Source<u8>,
    coord: Seq<u64>,
    inner: int,
) -> bool {
    exists|k: int| 0 <= k < inner && #[trigger] position_has(left, right, coord, k)
}

/// The row or the column of an element of a product has support at a position.
pub open spec fn position_has(
    left: Source<u8>,
    right: Source<u8>,
    coord: Seq<u64>,
    k: int,
) -> bool {
    let n = coord.len() - 2;
    row_has(left, coord.take(n), coord[n], k) || column_has(
        right,
        coord.take(n),
        coord[n + 1],
        k,
    )
}

/// The row of a matrix has support at a position.
pub open spec fn row_has(source: Source<u8>, prefix: Seq<u64>, row: u64, k: int) -> bool {
    (source.supported)(prefix.push(row).push(k as u64))
}

/// The column of a matrix has support at a position.
pub open spec fn column_has(source: Source<u8>, prefix: Seq<u64>, column: u64, k: int) -> bool {
    (source.supported)(prefix.push(k as u64).push(column))
}

/// The parts of a step are what two sources have at the operands of the step.
pub open spec fn chunk_answers(
    chunk: Chunk<u8>,
    plan: MatrixPlan,
    left_shape: Seq<u64>,
    right_shape: Seq<u64>,
    left: Source<u8>,
    right: Source<u8>,
) -> bool {
    let start = chunk.start as u64;
    let count = chunk.count as u64;
    let rows = operand_box(plan.prefix@, plan.rectangle.rows@, start, count, true);
    let columns = operand_box(plan.prefix@, plan.rectangle.columns@, start, count, false);
    &&& axes_fit(rows, left_shape)
    &&& axes_fit(columns, right_shape)
    &&& answers(
        left,
        request_coords(Requested::Rectangles(seq![rows]), left_shape),
        chunk.left,
        chunk.left_support,
    )
    &&& answers(
        right,
        request_coords(Requested::Rectangles(seq![columns]), right_shape),
        chunk.right,
        chunk.right_support,
    )
}

/// The tile is finished, and each of its steps was answered by two sources.
pub open spec fn tile_answers(
    tile: TileProduct<u8>,
    plan: MatrixPlan,
    inner: int,
    left_shape: Seq<u64>,
    right_shape: Seq<u64>,
    left: Source<u8>,
    right: Source<u8>,
) -> bool {
    &&& tile.wf()
    &&& tile.spec_plan() == plan
    &&& tile.spec_inner() == inner
    &&& tile.spec_start() == inner
    &&& forall|c: int|
        0 <= c < tile.spec_chunks().len() ==> chunk_answers(
            #[trigger] tile.spec_chunks()[c],
            plan,
            left_shape,
            right_shape,
            left,
            right,
        )
}

proof fn lemma_chunks(chunks: Seq<Chunk<u8>>, rows: int, columns: int, end: int, c: int)
    requires
        chunks_reach(chunks, rows, columns, end),
        0 <= c < chunks.len(),
    ensures
        0 <= chunks[c].start,
        chunk_fits(chunks[c], rows, columns),
        chunks[c].start + chunks[c].count <= end,
    decreases chunks.len(),
{
    let last = chunks.last();
    lemma_reach_positive(chunks.drop_last(), rows, columns, last.start);
    if c < chunks.len() - 1 {
        lemma_chunks(chunks.drop_last(), rows, columns, last.start, c);
        assert(chunks.drop_last()[c] == chunks[c]);
    }
}

proof fn lemma_reach_positive(chunks: Seq<Chunk<u8>>, rows: int, columns: int, end: int)
    requires
        chunks_reach(chunks, rows, columns, end),
    ensures
        end >= 0,
    decreases chunks.len(),
{
    if chunks.len() > 0 {
        lemma_reach_positive(chunks.drop_last(), rows, columns, chunks.last().start);
    }
}

/// Every position of the contraction lies in some step.
proof fn lemma_chunk_of_position(
    chunks: Seq<Chunk<u8>>,
    rows: int,
    columns: int,
    end: int,
    k: int,
) -> (c: int)
    requires
        chunks_reach(chunks, rows, columns, end),
        0 <= k < end,
    ensures
        0 <= c < chunks.len(),
        chunks[c].start <= k < chunks[c].start + chunks[c].count,
    decreases chunks.len(),
{
    let last = chunks.last();
    if k >= last.start {
        chunks.len() - 1
    } else {
        let c = lemma_chunk_of_position(chunks.drop_last(), rows, columns, last.start, k);
        assert(chunks.drop_last()[c] == chunks[c]);
        c
    }
}

/// What the support of a step says of a row and a column.
proof fn lemma_chunk_support(
    chunk: Chunk<u8>,
    plan: MatrixPlan,
    left_shape: Seq<u64>,
    right_shape: Seq<u64>,
    left: Source<u8>,
    right: Source<u8>,
    i: int,
    j: int,
)
    requires
        chunk_answers(chunk, plan, left_shape, right_shape, left, right),
        plan.rectangle.rows@.len() <= u64::MAX,
        plan.rectangle.columns@.len() <= u64::MAX,
        0 <= chunk.start,
        0 < chunk.count,
        chunk.start + chunk.count <= u64::MAX,
        0 <= i < plan.rectangle.rows@.len(),
        0 <= j < plan.rectangle.columns@.len(),
    ensures
        row_supported(chunk, i) <==> exists|k: int|
            0 <= k < chunk.count && #[trigger] row_has(
                left,
                plan.prefix@,
                plan.rectangle.rows@[i],
                chunk.start + k,
            ),
        column_supported(chunk, j, plan.rectangle.columns@.len() as int) <==> exists|k: int|
            0 <= k < chunk.count && #[trigger] column_has(
                right,
                plan.prefix@,
                plan.rectangle.columns@[j],
                chunk.start + k,
            ),
{
    let start = chunk.start as u64;
    let count = chunk.count as u64;
    let rows = plan.rectangle.rows@;
    let columns = plan.rectangle.columns@;
    let w = columns.len() as int;
    assert forall|k: int| 0 <= k < chunk.count implies (#[trigger] row_has(
        left,
        plan.prefix@,
        rows[i],
        chunk.start + k,
    ) <==> supported(chunk.left_support, left_place(i, k, chunk.count))) by {
        operand_coordinates(left_shape, plan.prefix@, rows, start, count, true, i, k);
    }
    assert forall|k: int| 0 <= k < chunk.count implies (#[trigger] column_has(
        right,
        plan.prefix@,
        columns[j],
        chunk.start + k,
    ) <==> supported(chunk.right_support, right_place(k, j, w))) by {
        operand_coordinates(right_shape, plan.prefix@, columns, start, count, false, j, k);
    }
    assert(row_has(left, plan.prefix@, rows[i], chunk.start + 0) <==> supported(
        chunk.left_support,
        left_place(i, 0, chunk.count),
    ));
    assert(column_has(right, plan.prefix@, columns[j], chunk.start + 0) <==> supported(
        chunk.right_support,
        right_place(0, j, w),
    ));
    if row_supported(chunk, i) {
        if let Some(mask) = chunk.left_support {
            let k = choose|k: int|
                0 <= k < chunk.count && mask[#[trigger] left_place(i, k, chunk.count)] != 0;
            assert(row_has(left, plan.prefix@, rows[i], chunk.start + k));
        }
    }
    if column_supported(chunk, j, w) {
        if let Some(mask) = chunk.right_support {
            let k = choose|k: int|
                0 <= k < chunk.count && mask[#[trigger] right_place(k, j, w)] != 0;
            assert(column_has(right, plan.prefix@, columns[j], chunk.start + k));
        }
    }
}

/// A finished tile has at every place the product and the support of its element.
pub proof fn tiles_hold_products_and_support(
    tile: TileProduct<u8>,
    plan: MatrixPlan,
    inner: int,
    left_shape: Seq<u64>,
    right_shape: Seq<u64>,
    left: Source<u8>,
    right: Source<u8>,
    place: int,
)
    requires
        tile_answers(tile, plan, inner, left_shape, right_shape, left, right),
        0 < inner <= u64::MAX,
        0 <= place < plan.rectangle.rows@.len() * plan.rectangle.columns@.len(),
    ensures
        chunk_sums(tile.spec_chunks())[place] == product_value(
            left,
            right,
            plan_coord(plan, place),
            inner,
        ),
        place_supported(tile.spec_chunks(), place, tile.columns()) <==> product_supported(
            left,
            right,
            plan_coord(plan, place),
            inner,
        ),
{
    tile.lemma_wf();
    let chunks = tile.spec_chunks();
    let rows = plan.rectangle.rows@;
    let columns = plan.rectangle.columns@;
    let h = rows.len() as int;
    let w = columns.len() as int;
    let i = place / w;
    let j = place % w;
    let coord = plan_coord(plan, place);
    let n = plan.prefix@.len() as int;
    lemma_split_index(place, h, w);
    assert(coord.take(n) =~= plan.prefix@);
    assert(coord[n] == rows[i]);
    assert(coord[n + 1] == columns[j]);
    assert(coord.len() == n + 2);
    assert forall|c: int| 0 <= c < chunks.len() implies chunk_of(
        #[trigger] chunks[c],
        plan,
        left.value,
        right.value,
    ) by {
        lemma_chunks(chunks, h, w, inner, c);
        let chunk = chunks[c];
        assert(chunk_answers(chunk, plan, left_shape, right_shape, left, right));
        let start = chunk.start as u64;
        let count = chunk.count as u64;
        let lefts = request_coords(
            Requested::Rectangles(seq![operand_box(plan.prefix@, rows, start, count, true)]),
            left_shape,
        );
        let rights = request_coords(
            Requested::Rectangles(seq![operand_box(plan.prefix@, columns, start, count, false)]),
            right_shape,
        );
        assert(chunk.left =~= Seq::new(lefts.len(), |x: int| (left.value)(lefts[x])));
        assert(chunk.right =~= Seq::new(rights.len(), |x: int| (right.value)(rights[x])));
        answered_operands_are_parts(
            chunk,
            plan,
            left_shape,
            right_shape,
            left.value,
            right.value,
        );
    }
    tiles_hold_matrix_products(tile, left.value, right.value, place);
    if place_supported(chunks, place, w) {
        if any_row_support(chunks, i) {
            let c = choose|c: int| 0 <= c < chunks.len() && row_supported(#[trigger] chunks[c], i);
            lemma_chunks(chunks, h, w, inner, c);
            lemma_chunk_support(chunks[c], plan, left_shape, right_shape, left, right, i, j);
            let k = choose|k: int|
                0 <= k < chunks[c].count && #[trigger] row_has(
                    left,
                    plan.prefix@,
                    rows[i],
                    chunks[c].start + k,
                );
            let at = chunks[c].start + k;
            assert(position_has(left, right, coord, at));
        } else {
            let c = choose|c: int|
                0 <= c < chunks.len() && column_supported(#[trigger] chunks[c], j, w);
            lemma_chunks(chunks, h, w, inner, c);
            lemma_chunk_support(chunks[c], plan, left_shape, right_shape, left, right, i, j);
            let k = choose|k: int|
                0 <= k < chunks[c].count && #[trigger] column_has(
                    right,
                    plan.prefix@,
                    columns[j],
                    chunks[c].start + k,
                );
            let at = chunks[c].start + k;
            assert(position_has(left, right, coord, at));
        }
    }
    if product_supported(left, right, coord, inner) {
        let k = choose|k: int| 0 <= k < inner && #[trigger] position_has(left, right, coord, k);
        let c = lemma_chunk_of_position(chunks, h, w, inner, k);
        lemma_chunks(chunks, h, w, inner, c);
        lemma_chunk_support(chunks[c], plan, left_shape, right_shape, left, right, i, j);
        let offset = k - chunks[c].start;
        if row_has(left, plan.prefix@, rows[i], k) {
            assert(row_has(left, plan.prefix@, rows[i], chunks[c].start + offset));
            assert(row_supported(chunks[c], i));
            assert(any_row_support(chunks, i));
        } else {
            assert(column_has(right, plan.prefix@, columns[j], chunks[c].start + offset));
            assert(column_supported(chunks[c], j, w));
            assert(any_column_support(chunks, j, w));
        }
        assert(place_supported(chunks, place, w));
    }
}

/// The batch after some tiles, and its support.
pub ghost struct Scattered {
    pub values: Seq<u8>,
    pub support: Option<Seq<u8>>,
}

/// The place has the product at its coordinate, and its support.
pub open spec fn is_product(
    state: Scattered,
    o: int,
    coord: Seq<u64>,
    inner: int,
    left: Source<u8>,
    right: Source<u8>,
) -> bool {
    &&& state.values[o] == product_value(left, right, coord, inner)
    &&& state.support matches Some(mask) ==> mask[o] == support_flag(
        product_supported(left, right, coord, inner),
    )
}

/// Each tile is that of its plan.
pub open spec fn tiles_answer(
    tiles: Seq<TileProduct<u8>>,
    plans: Seq<MatrixPlan>,
    inner: int,
    left_shape: Seq<u64>,
    right_shape: Seq<u64>,
    left: Source<u8>,
    right: Source<u8>,
) -> bool {
    forall|p: int|
        0 <= p < plans.len() ==> tile_answers(
            #[trigger] tiles[p],
            plans[p],
            inner,
            left_shape,
            right_shape,
            left,
            right,
        )
}

/// The tiles were spread over the batch, one after the other.
pub open spec fn are_scattered(tiles: Seq<TileProduct<u8>>, states: Seq<Scattered>) -> bool {
    forall|p: int|
        0 <= p < tiles.len() ==> is_scattered(
            #[trigger] tiles[p],
            states[p].values,
            states[p + 1].values,
            states[p].support,
            states[p + 1].support,
        ) && (states[p].support is Some <==> states[p + 1].support is Some)
}

proof fn lemma_tiles_so_far(
    plans: Seq<MatrixPlan>,
    tiles: Seq<TileProduct<u8>>,
    states: Seq<Scattered>,
    coords: Seq<Seq<u64>>,
    inner: int,
    left_shape: Seq<u64>,
    right_shape: Seq<u64>,
    left: Source<u8>,
    right: Source<u8>,
    n: int,
)
    requires
        0 < inner <= u64::MAX,
        0 <= n <= plans.len(),
        tiles.len() == plans.len(),
        states.len() == plans.len() + 1,
        states[0].values.len() == coords.len(),
        forall|p: int| 0 <= p < plans.len() ==> plan_fits(#[trigger] plans[p], coords),
        tiles_answer(tiles, plans, inner, left_shape, right_shape, left, right),
        are_scattered(tiles, states),
    ensures
        states[n].values.len() == coords.len(),
        forall|o: int|
            0 <= o < coords.len() && #[trigger] is_planned(plans.take(n), o) ==> is_product(
                states[n],
                o,
                coords[o],
                inner,
                left,
                right,
            ),
    decreases n,
{
    if n > 0 {
        lemma_tiles_so_far(
            plans,
            tiles,
            states,
            coords,
            inner,
            left_shape,
            right_shape,
            left,
            right,
            n - 1,
        );
        let p = n - 1;
        let plan = plans[p];
        let tile = tiles[p];
        assert(plan_fits(plan, coords));
        assert(tile_answers(tile, plan, inner, left_shape, right_shape, left, right));
        assert(is_scattered(
            tile,
            states[p].values,
            states[p + 1].values,
            states[p].support,
            states[p + 1].support,
        ));
        let pairs = rectangle_pairs(plan.rectangle);
        assert forall|o: int| 0 <= o < coords.len() && #[trigger] is_planned(
            plans.take(n),
            o,
        ) implies is_product(states[n], o, coords[o], inner, left, right) by {
            if in_plan(plan, o) {
                let k = choose|k: int| 0 <= k < pairs.len() && (#[trigger] pairs[k]).0 == o;
                assert(plan_pair_fits(plan, k, coords));
                let place = pairs[k].1;
                tiles_hold_products_and_support(
                    tile,
                    plan,
                    inner,
                    left_shape,
                    right_shape,
                    left,
                    right,
                    place,
                );
                assert(rectangle_pairs(tile.spec_plan().rectangle)[k] == pairs[k]);
            } else {
                let (q, k) = choose|q: int, k: int|
                    0 <= q < plans.take(n).len() && 0 <= k < rectangle_pairs(
                        plans.take(n)[q].rectangle,
                    ).len() && (#[trigger] rectangle_pairs(plans.take(n)[q].rectangle)[k]).0 == o;
                if q == p {
                    assert(pairs[k].0 == o);
                }
                assert(plans.take(n - 1)[q] == plans.take(n)[q]);
                assert(rectangle_pairs(plans.take(n - 1)[q].rectangle)[k].0 == o);
                assert(is_planned(plans.take(n - 1), o));
                assert(stays(
                    o,
                    states[p].values,
                    states[p + 1].values,
                    states[p].support,
                    states[p + 1].support,
                ));
            }
        }
    }
}

/// A batch over which the tiles of all plans of a request were spread, one after the other, has at
/// every requested place the product of the sources at its coordinate. It has support there if
/// either source has some at any position of the contraction. Once it is masked, it is zero where
/// it has no support.
pub proof fn batches_hold_matrix_products(
    plans: Seq<MatrixPlan>,
    tiles: Seq<TileProduct<u8>>,
    states: Seq<Scattered>,
    coords: Seq<Seq<u64>>,
    inner: int,
    left_shape: Seq<u64>,
    right_shape: Seq<u64>,
    left: Source<u8>,
    right: Source<u8>,
    o: int,
)
    requires
        0 < inner <= u64::MAX,
        covers(plans, coords),
        tiles.len() == plans.len(),
        states.len() == plans.len() + 1,
        states[0].values.len() == coords.len(),
        tiles_answer(tiles, plans, inner, left_shape, right_shape, left, right),
        are_scattered(tiles, states),
        0 <= o < coords.len(),
    ensures
        ({
            let batch = states[plans.len() as int];
            &&& is_product(batch, o, coords[o], inner, left, right)
            &&& batch.values.len() == coords.len()
            &&& masked_values(batch.values, batch.support)[o] == if batch.support is None
                || product_supported(left, right, coords[o], inner) {
                product_value(left, right, coords[o], inner)
            } else {
                0
            }
        }),
{
    let n = plans.len() as int;
    lemma_tiles_so_far(
        plans,
        tiles,
        states,
        coords,
        inner,
        left_shape,
        right_shape,
        left,
        right,
        n,
    );
    assert(plans.take(n) =~= plans);
    assert(is_planned(plans, o));
}

/// A product of matrices adds up, position by position of the contraction, the element of the row
/// times that of the column, but for a multiple of 256. It has support if some of them has.
pub proof fn products_add_up_row_by_column(
    left: Source<u8>,
    right: Source<u8>,
    prefix: Seq<u64>,
    row: u64,
    column: u64,
    inner: int,
)
    requires
        0 <= inner < u64::MAX,
    ensures
        ({
            let coord = prefix.push(row).push(column);
            let in_row = prefix.push(row).push(inner as u64);
            let in_column = prefix.push(inner as u64).push(column);
            let before = product_value(left, right, coord, inner);
            &&& product_value(left, right, coord, 0) == 0
            &&& is_congruent(
                product_value(left, right, coord, inner + 1) as int,
                before + (left.value)(in_row) * (right.value)(in_column),
            )
            &&& product_supported(left, right, coord, inner + 1) <==> product_supported(
                left,
                right,
                coord,
                inner,
            ) || (left.supported)(in_row) || (right.supported)(in_column)
            &&& !product_supported(left, right, coord, 0)
        }),
{
    let coord = prefix.push(row).push(column);
    let in_row = prefix.push(row).push(inner as u64);
    let in_column = prefix.push(inner as u64).push(column);
    assert(coord.take(coord.len() - 2) =~= prefix);
    let sum = contraction(left.value, right.value, prefix, row, column, inner as nat);
    let term = (left.value)(in_row) * (right.value)(in_column);
    let whole = sum + term;
    let a = sum % 256;
    let b = whole % 256;
    vstd::arithmetic::div_mod::lemma_fundamental_div_mod(sum, 256);
    vstd::arithmetic::div_mod::lemma_fundamental_div_mod(whole, 256);
    let k = sum / 256 - whole / 256;
    assert(contraction(left.value, right.value, prefix, row, column, (inner + 1) as nat) == whole);
    assert(b - (a + term) == k * 256);
    assert(position_has(left, right, coord, inner) <==> (left.supported)(in_row) || (
    right.supported)(in_column));
    if product_supported(left, right, coord, inner) {
        let k = choose|k: int| 0 <= k < inner && #[trigger] position_has(left, right, coord, k);
        assert(0 <= k < inner + 1);
        assert(position_has(left, right, coord, k));
    }
    if product_supported(left, right, coord, inner + 1) {
        let k = choose|k: int| 0 <= k < inner + 1 && #[trigger] position_has(left, right, coord, k);
        if k < inner {
            assert(position_has(left, right, coord, k));
        }
    }
}

/// What is computed for an element of a view of a product is the element of the product that the
/// view shows there.
pub proof fn views_of_products_show_their_elements(
    map: Mapping,
    coords: Seq<Seq<u64>>,
    shape: Seq<u64>,
    strides: Seq<u64>,
    o: int,
)
    requires
        all_resolve(map, coords, shape, strides),
        0 <= o < coords.len(),
    ensures
        resolved(map, coords, shape).len() == coords.len(),
        in_box(resolved(map, coords, shape)[o], shape),
        position_of(resolved(map, coords, shape)[o], shape) == offset_at(map, coords[o]),
{
    assert(resolves(map, coords[o], shape, strides));
    lemma_volume_positive(shape);
    lemma_coordinate_position(offset_at(map, coords[o]), shape);
}

/// The source is zero where it has no support.
pub open spec fn is_masked(source: Source<u8>) -> bool {
    forall|coord: Seq<u64>|
        !#[trigger] (source.supported)(coord) ==> (source.value)(coord) == 0
}

/// Where a source is zero without support, so is the product: masking changes nothing of it.
pub proof fn products_without_support_are_zero(
    left: Source<u8>,
    right: Source<u8>,
    coord: Seq<u64>,
    inner: int,
)
    requires
        is_masked(left) || is_masked(right),
        0 <= inner,
        !product_supported(left, right, coord, inner),
    ensures
        product_value(left, right, coord, inner) == 0,
{
    lemma_no_product(left, right, coord, inner);
}

proof fn lemma_no_product(left: Source<u8>, right: Source<u8>, coord: Seq<u64>, n: int)
    requires
        is_masked(left) || is_masked(right),
        0 <= n,
        forall|k: int| 0 <= k < n ==> !#[trigger] position_has(left, right, coord, k),
    ensures
        contraction(
            left.value,
            right.value,
            coord.take(coord.len() - 2),
            coord[coord.len() - 2],
            coord[coord.len() - 1],
            n as nat,
        ) == 0,
    decreases n,
{
    if n > 0 {
        let prefix = coord.take(coord.len() - 2);
        let row = coord[coord.len() - 2];
        let column = coord[coord.len() - 1];
        lemma_no_product(left, right, coord, n - 1);
        assert(!position_has(left, right, coord, n - 1));
        assert(!(left.supported)(prefix.push(row).push((n - 1) as u64)));
        assert(!(right.supported)(prefix.push((n - 1) as u64).push(column)));
    }
}

} // verus!
