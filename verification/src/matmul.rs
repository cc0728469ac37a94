//! Matrix products over bounded tiles.

use vstd::prelude::*;
use vstd::slice::slice_to_vec;
use vstd::string::StringExecFns;
use crate::backend::{dot, wrapped};
use crate::binary::{join_layouts, joint_layout};
use crate::element::{filled, TensorElement};
use crate::error::{Error, Result};
use crate::expression::{batch_fits, EvaluatedBatch, mask_fits, mask_of, MAX_BATCH_ELEMENTS};
use crate::geometry::{
    all_positive, in_box, lemma_coordinate_len, lemma_coordinate_position, lemma_coordinate_zero,
    lemma_volume_positive, lemma_volume_suffix_bound, volume,
};
use crate::inline::{Axes, Bound, Range, Shape, Strides};
use crate::mapping::{
    broadcasted, chosen_permutation, contiguous, CoordinateMap, flip_fits, flipped, identity_map,
    Mapping, offset_at, reshaped, resolves, slice_fits, sliced, squeeze_base_fits, squeezed,
    transposed, unsqueezed,
};
use crate::matmul_plan::{
    contraction_step, covers, exact_pairs, lemma_join_index, lemma_matrix_coord, lemma_split_index,
    matrices_bounded, MatrixPlan, pairs_fit, plan_coord, plan_fits, plan_pair_fits, plan_request,
    plans_lie_in_the_shape, plans_stay_within_a_tile, rectangle_pairs, rectangle_wf, resolved,
    TILE_SIDE,
};
use crate::request::{
    axes_fit, axes_lens, axes_of, axes_volume, Axis, axis_fits, axis_len, BatchRequest, box_coords,
    boxes_coords, boxes_len, boxes_of, lemma_request_len, lists_bounded, request_coords,
    request_fits, Requested, Selection,
};
use crate::room::{map_room, transforms_stay_in_range};
use crate::schema::{are_strides, contiguous_strides, Layout, product_fits};
use crate::slice::Slice;
use crate::storage_read::all_resolve;
use crate::traits::{TensorGeometry, TensorTransform, TensorViewSemantics};
use crate::transform::{
    lemma_broadcast_places, lemma_flip_places, lemma_reshape_places, lemma_slice_places,
    lemma_squeeze_places, lemma_transpose_places, lemma_unsqueeze_places,
};
use crate::validate::{conformable, matmul_output_shape, product_shape};

verus! {

/// The single matrices that a prefix names.
pub open spec fn unit_axes(prefix: Seq<u64>) -> Seq<Selection> {
    Seq::new(prefix.len(), |i: int| Selection::Span { start: prefix[i], step: 1, len: 1 })
}

/// The part of an operand that a rectangle needs for some positions of the contraction: rows of
/// the left one, columns of the right one.
pub open spec fn operand_box(
    prefix: Seq<u64>,
    fixed: Seq<u64>,
    start: u64,
    count: u64,
    left: bool,
) -> Seq<Selection> {
    let contraction = Selection::Span { start, step: 1, len: count };
    let selection = Selection::Selected(fixed);
    if left {
        unit_axes(prefix).push(selection).push(contraction)
    } else {
        unit_axes(prefix).push(contraction).push(selection)
    }
}

/// Ask for the part of an operand that a rectangle needs.
pub fn operand_request(
    shape: &[u64],
    prefix: &[u64],
    fixed: &[u64],
    start: u64,
    count: u64,
    left: bool,
) -> (result: Result<BatchRequest>)
    ensures
        result is Ok <==> {
            let axes = operand_box(prefix@, fixed@, start, count, left);
            axes_fit(axes, shape@) && lists_bounded(axes) && axes_volume(axes)
                <= MAX_BATCH_ELEMENTS
        },
        result matches Ok(request) ==> request.wf() && request@ == Requested::Rectangles(
            seq![operand_box(prefix@, fixed@, start, count, left)],
        ),
        (result matches Err(Error::InvalidCoord(_))) <==> !axes_fit(
            operand_box(prefix@, fixed@, start, count, left),
            shape@,
        ),
        result matches Err(error) ==> error is InvalidCoord || error is InvalidLayout,
{
    let ghost target = operand_box(prefix@, fixed@, start, count, left);
    let mut axes: Vec<Axis> = Vec::new();
    let mut i: usize = 0;
    while i < prefix.len()
        invariant
            i <= prefix.len(),
            axes.len() == i,
            forall|j: int|
                0 <= j < i ==> (#[trigger] axes@[j])@ == (Selection::Span {
                    start: prefix@[j],
                    step: 1,
                    len: 1,
                }),
        decreases prefix.len() - i,
    {
        axes.push(Axis::range(prefix[i], 1));
        i += 1;
    }
    let selection = Axis::Selected(slice_to_vec(fixed));
    let contraction = Axis::range(start, count);
    if left {
        axes.push(selection);
        axes.push(contraction);
    } else {
        axes.push(contraction);
        axes.push(selection);
    }
    proof {
        assert(axes_of(axes@) =~= target);
    }
    let rectangle = Slice::new(shape, axes)?.rectangle()?;
    let rectangles = vec![rectangle];
    proof {
        let boxes = boxes_of(rectangles@);
        assert(boxes =~= seq![target]);
        assert(boxes_len(boxes.drop_last()) == 0);
    }
    BatchRequest::rectangles(rectangles)
}

/// A box of single places has one element.
proof fn lemma_volume_of_ones(ones: Seq<u64>)
    requires
        forall|j: int| 0 <= j < ones.len() ==> #[trigger] ones[j] == 1,
    ensures
        volume(ones) == 1,
        all_positive(ones),
    decreases ones.len(),
{
    if ones.len() > 0 {
        let rest = ones.skip(1);
        assert forall|j: int| 0 <= j < rest.len() implies #[trigger] rest[j] == 1 by {
            assert(rest[j] == ones[j + 1]);
        }
        lemma_volume_of_ones(rest);
        assert(ones[0] == 1);
    }
}

/// The coordinates of an operand's part, in the order of a matrix row by row.
pub proof fn operand_coordinates(
    shape: Seq<u64>,
    prefix: Seq<u64>,
    fixed: Seq<u64>,
    start: u64,
    count: u64,
    left: bool,
    i: int,
    k: int,
)
    requires
        axes_fit(operand_box(prefix, fixed, start, count, left), shape),
        fixed.len() <= u64::MAX,
        0 <= i < fixed.len(),
        0 <= k < count,
    ensures
        ({
            let request = Requested::Rectangles(
                seq![operand_box(prefix, fixed, start, count, left)],
            );
            let coords = request_coords(request, shape);
            &&& coords.len() == fixed.len() * count
            &&& if left {
                &&& 0 <= i * count + k < coords.len()
                &&& coords[i * count + k] == prefix.push(fixed[i]).push((start + k) as u64)
            } else {
                &&& 0 <= k * fixed.len() + i < coords.len()
                &&& coords[k * fixed.len() + i] == prefix.push((start + k) as u64).push(fixed[i])
            }
        }),
{
    let axes = operand_box(prefix, fixed, start, count, left);
    let n = axes.len() as int;
    let head = axes.take(n - 2);
    let boxes = seq![axes];
    let lens = axes_lens(axes);
    assert(head =~= unit_axes(prefix));
    assert forall|j: int| 0 <= j < axes.len() implies 0 < #[trigger] axis_len(axes[j])
        <= u64::MAX by {}
    assert forall|j: int| 0 <= j < lens.len() implies #[trigger] lens[j] > 0 by {
        assert(axis_len(axes[j]) > 0);
    }
    lemma_volume_positive(lens);
    let ones = axes_lens(head);
    assert forall|j: int| 0 <= j < ones.len() implies #[trigger] ones[j] == 1 by {}
    lemma_volume_of_ones(ones);
    lemma_coordinate_zero(ones);
    assert(box_coords(head)[0] =~= prefix) by {
        lemma_coordinate_len(0, ones);
    }
    let h = axis_len(axes[n - 2]);
    let w = axis_len(axes[n - 1]);
    if left {
        lemma_matrix_coord(axes, shape, 0, i, k);
    } else {
        lemma_matrix_coord(axes, shape, 0, k, i);
    }
    assert(0 * (h * w) == 0);
    assert(h * w == fixed.len() * count) by (nonlinear_arith)
        requires
            (h == fixed.len() && w == count) || (h == count && w == fixed.len()),
    ;
    assert(boxes.drop_last() =~= Seq::<Seq<Selection>>::empty());
    assert(boxes_coords(boxes.drop_last()) =~= Seq::<Seq<u64>>::empty());
    assert(boxes_coords(boxes) =~= box_coords(axes));
}

/// The sum of two batches, item by item.
pub open spec fn summed<T: TensorElement>(left: Seq<T>, right: Seq<T>) -> Seq<T> {
    Seq::new(left.len(), |i: int| left[i].spec_sum(right[i]))
}

fn value_count(context: &str, actual: usize, expected: usize) -> (result: Result<()>)
    ensures
        actual == expected ==> result is Ok,
        actual != expected ==> result matches Err(Error::InvalidLayout(_)),
{
    if actual != expected {
        return Err(
            Error::InvalidLayout(
                context.to_string().concat(": expected ").concat(
                    expected.to_string().as_str(),
                ).concat(" values, got ").concat(actual.to_string().as_str()),
            ),
        );
    }
    Ok(())
}

/// Add a partial product to what was accumulated. The first one is taken as it is.
pub fn combine_partial<T: TensorElement>(
    accumulated: &mut Option<Vec<T>>,
    partial: Vec<T>,
    expected: usize,
) -> (result: Result<()>)
    ensures
        result is Ok <==> partial@.len() == expected && (*old(accumulated) matches Some(values)
            ==> values@.len() == expected),
        result is Ok ==> match *old(accumulated) {
            Some(values) => *final(accumulated) matches Some(sums) && sums@ == summed(
                values@,
                partial@,
            ),
            None => *final(accumulated) == Some(partial),
        },
        result matches Err(error) ==> error is InvalidLayout && *final(accumulated) == *old(
            accumulated,
        ),
{
    value_count("matrix partial", partial.len(), expected)?;
    let mut sums: Vec<T> = Vec::new();
    match &*accumulated {
        Some(values) => {
            value_count("matrix accumulator", values.len(), expected)?;
            let mut i: usize = 0;
            while i < expected
                invariant
                    i <= expected,
                    expected == values@.len(),
                    expected == partial@.len(),
                    sums@ == summed(values@, partial@).take(i as int),
                decreases expected - i,
            {
                sums.push(values[i].sum(partial[i]));
                i += 1;
                proof {
                    assert(sums@ =~= summed(values@, partial@).take(i as int));
                }
            }
            assert(sums@ =~= summed(values@, partial@));
        },
        None => {
            sums = partial;
        },
    }
    *accumulated = Some(sums);
    Ok(())
}

/// One step of a contraction: the parts of both operands, their support, and their product.
pub ghost struct Chunk<T> {
    pub start: int,
    pub count: int,
    pub left: Seq<T>,
    pub right: Seq<T>,
    pub left_support: Option<Seq<u8>>,
    pub right_support: Option<Seq<u8>>,
    pub product: Seq<T>,
}

/// The parts have the size of a step, and their product is one.
pub open spec fn chunk_fits<T: TensorElement>(chunk: Chunk<T>, rows: int, columns: int) -> bool {
    &&& chunk.count > 0
    &&& chunk.left.len() == rows * chunk.count
    &&& chunk.right.len() == chunk.count * columns
    &&& mask_fits(chunk.left_support, rows * chunk.count)
    &&& mask_fits(chunk.right_support, chunk.count * columns)
    &&& chunk.product.len() == rows * columns
    &&& T::is_matrix_product(
        chunk.left,
        chunk.right,
        rows,
        chunk.count,
        columns,
        chunk.product,
    )
}

/// The steps follow each other without a gap, and end here.
pub open spec fn chunks_reach<T: TensorElement>(
    chunks: Seq<Chunk<T>>,
    rows: int,
    columns: int,
    end: int,
) -> bool
    decreases chunks.len(),
{
    if chunks.len() == 0 {
        end == 0
    } else {
        let last = chunks.last();
        &&& chunk_fits(last, rows, columns)
        &&& last.start + last.count == end
        &&& chunks_reach(chunks.drop_last(), rows, columns, last.start)
    }
}

/// The sum of the products of all steps, from the first to the last.
pub open spec fn chunk_sums<T: TensorElement>(chunks: Seq<Chunk<T>>) -> Seq<T>
    decreases chunks.len(),
{
    if chunks.len() == 0 {
        Seq::empty()
    } else if chunks.len() == 1 {
        chunks[0].product
    } else {
        summed(chunk_sums(chunks.drop_last()), chunks.last().product)
    }
}

/// The step has support in a row of the left operand.
pub open spec fn row_supported<T>(chunk: Chunk<T>, row: int) -> bool {
    chunk.left_support matches Some(mask) ==> exists|k: int|
        0 <= k < chunk.count && mask[#[trigger] left_place(row, k, chunk.count)] != 0
}

/// The step has support in a column of the right operand.
pub open spec fn column_supported<T>(chunk: Chunk<T>, column: int, columns: int) -> bool {
    chunk.right_support matches Some(mask) ==> exists|k: int|
        0 <= k < chunk.count && mask[#[trigger] right_place(k, column, columns)] != 0
}

/// Where the element of a row and a position of the contraction stands.
pub open spec fn left_place(row: int, k: int, count: int) -> int {
    row * count + k
}

/// Where the element of a position of the contraction and a column stands.
pub open spec fn right_place(k: int, column: int, columns: int) -> int {
    k * columns + column
}

/// Some step has support in a row of the left operand.
pub open spec fn any_row_support<T>(chunks: Seq<Chunk<T>>, row: int) -> bool {
    exists|c: int| 0 <= c < chunks.len() && row_supported(#[trigger] chunks[c], row)
}

/// Some step has support in a column of the right operand.
pub open spec fn any_column_support<T>(chunks: Seq<Chunk<T>>, column: int, columns: int) -> bool {
    exists|c: int| 0 <= c < chunks.len() && column_supported(#[trigger] chunks[c], column, columns)
}

/// The product of one rectangle, step by step over the contraction.
pub struct TileProduct<T> {
    plan: MatrixPlan,
    inner: u64,
    step: usize,
    start: u64,
    accumulated: Option<Vec<T>>,
    support: Option<(Vec<bool>, Vec<bool>)>,
    chunks: Ghost<Seq<Chunk<T>>>,
}

impl<T: TensorElement> TileProduct<T> {
    pub closed spec fn spec_plan(&self) -> MatrixPlan {
        self.plan
    }

    pub closed spec fn spec_inner(&self) -> int {
        self.inner as int
    }

    /// How far the contraction has come.
    pub closed spec fn spec_start(&self) -> int {
        self.start as int
    }

    pub closed spec fn is_sparse(&self) -> bool {
        self.support is Some
    }

    /// The steps so far.
    pub closed spec fn spec_chunks(&self) -> Seq<Chunk<T>> {
        self.chunks@
    }

    pub open spec fn rows(&self) -> int {
        self.spec_plan().rectangle.rows@.len() as int
    }

    pub open spec fn columns(&self) -> int {
        self.spec_plan().rectangle.columns@.len() as int
    }

    /// How many positions the next step takes.
    pub open spec fn next_count(&self) -> int {
        let most = if self.rows() >= self.columns() {
            self.rows()
        } else {
            self.columns()
        };
        let step = MAX_BATCH_ELEMENTS as int / most;
        if self.spec_inner() - self.spec_start() <= step {
            self.spec_inner() - self.spec_start()
        } else {
            step
        }
    }

    pub closed spec fn wf(&self) -> bool {
        let rows = self.rows();
        let columns = self.columns();
        &&& rectangle_wf(self.plan.rectangle)
        &&& rows <= TILE_SIDE
        &&& columns <= TILE_SIDE
        &&& 0 < self.step
        &&& self.step == MAX_BATCH_ELEMENTS as int / if rows >= columns {
            rows
        } else {
            columns
        }
        &&& rows * self.step <= MAX_BATCH_ELEMENTS
        &&& columns * self.step <= MAX_BATCH_ELEMENTS
        &&& self.start <= self.inner
        &&& chunks_reach(self.chunks@, rows, columns, self.start as int)
        &&& match self.accumulated {
            Some(values) => self.chunks@.len() > 0 && values@ == chunk_sums(self.chunks@)
                && values@.len() == rows * columns,
            None => self.chunks@.len() == 0,
        }
        &&& match self.support {
            Some((row_support, column_support)) => {
                &&& row_support@.len() == rows
                &&& column_support@.len() == columns
                &&& forall|i: int|
                    0 <= i < rows ==> #[trigger] row_support@[i] == any_row_support(self.chunks@, i)
                &&& forall|j: int|
                    0 <= j < columns ==> #[trigger] column_support@[j] == any_column_support(
                        self.chunks@,
                        j,
                        columns,
                    )
            },
            None => true,
        }
    }

    pub proof fn lemma_wf(&self)
        requires
            self.wf(),
        ensures
            rectangle_wf(self.spec_plan().rectangle),
            self.rows() <= TILE_SIDE,
            self.columns() <= TILE_SIDE,
            0 <= self.spec_start() <= self.spec_inner(),
            chunks_reach(self.spec_chunks(), self.rows(), self.columns(), self.spec_start()),
            self.spec_start() < self.spec_inner() ==> 0 < self.next_count() <= MAX_BATCH_ELEMENTS
                && self.rows() * self.next_count() <= MAX_BATCH_ELEMENTS && self.next_count()
                * self.columns() <= MAX_BATCH_ELEMENTS,
    {
        let rows = self.rows();
        let columns = self.columns();
        let n = self.next_count();
        let step = self.step as int;
        if self.spec_start() < self.spec_inner() {
            assert(rows * n <= MAX_BATCH_ELEMENTS && n * columns <= MAX_BATCH_ELEMENTS && n
                <= MAX_BATCH_ELEMENTS) by (nonlinear_arith)
                requires
                    0 < n <= step,
                    0 < rows,
                    0 < columns,
                    rows * step <= MAX_BATCH_ELEMENTS,
                    columns * step <= MAX_BATCH_ELEMENTS,
            ;
        }
    }

    /// Begin the product of a rectangle of matrices that are contracted over so many positions.
    pub fn new(plan: MatrixPlan, inner: u64, sparse: bool) -> (tile: Self)
        requires
            rectangle_wf(plan.rectangle),
            plan.rectangle.rows@.len() <= TILE_SIDE,
            plan.rectangle.columns@.len() <= TILE_SIDE,
        ensures
            tile.wf(),
            tile.spec_plan() == plan,
            tile.spec_inner() == inner,
            tile.spec_start() == 0,
            tile.is_sparse() == sparse,
            tile.spec_chunks() == Seq::<Chunk<T>>::empty(),
    {
        let rows: usize = plan.rectangle.rows.len();
        let columns: usize = plan.rectangle.columns.len();
        let step: usize = contraction_step(rows, columns);
        let support = if sparse {
            Some((vec![false; rows], vec![false; columns]))
        } else {
            None
        };
        TileProduct {
            plan,
            inner,
            step,
            start: 0,
            accumulated: None,
            support,
            chunks: Ghost(Seq::empty()),
        }
    }

    fn count(&self) -> (count: u64)
        requires
            self.wf(),
        ensures
            count == self.next_count(),
    {
        let left: u64 = self.inner - self.start;
        if left <= self.step as u64 {
            left
        } else {
            self.step as u64
        }
    }

    /// Ask for the parts of both operands that the next step needs. There is none after the last.
    pub fn operands(&self, left_shape: &[u64], right_shape: &[u64]) -> (result: Result<
        Option<(BatchRequest, BatchRequest)>,
    >)
        requires
            self.wf(),
        ensures
            ({
                let plan = self.spec_plan();
                let start = self.spec_start() as u64;
                let count = self.next_count() as u64;
                let left = operand_box(plan.prefix@, plan.rectangle.rows@, start, count, true);
                let right = operand_box(plan.prefix@, plan.rectangle.columns@, start, count, false);
                &&& result is Ok <==> self.spec_start() == self.spec_inner() || (axes_fit(
                    left,
                    left_shape@,
                ) && axes_fit(right, right_shape@) && axes_volume(left) <= MAX_BATCH_ELEMENTS
                    && axes_volume(right) <= MAX_BATCH_ELEMENTS)
                &&& result matches Ok(None) ==> self.spec_start() == self.spec_inner()
                &&& result matches Ok(Some((left_request, right_request))) ==> {
                    &&& self.spec_start() < self.spec_inner()
                    &&& left_request.wf()
                    &&& right_request.wf()
                    &&& left_request@ == Requested::Rectangles(seq![left])
                    &&& right_request@ == Requested::Rectangles(seq![right])
                }
                &&& (result matches Err(Error::InvalidCoord(_))) <==> self.spec_start()
                    < self.spec_inner() && (!axes_fit(left, left_shape@) || (axes_volume(left)
                    <= MAX_BATCH_ELEMENTS && !axes_fit(right, right_shape@)))
                &&& result matches Err(error) ==> error is InvalidCoord || error is InvalidLayout
            }),
    {
        if self.start == self.inner {
            return Ok(None);
        }
        proof {
            self.lemma_wf();
        }
        let count: u64 = self.count();
        let left = operand_request(
            left_shape,
            self.plan.prefix.as_slice(),
            self.plan.rectangle.rows.as_slice(),
            self.start,
            count,
            true,
        )?;
        let right = operand_request(
            right_shape,
            self.plan.prefix.as_slice(),
            self.plan.rectangle.columns.as_slice(),
            self.start,
            count,
            false,
        )?;
        Ok(Some((left, right)))
    }

    /// Take the parts of both operands for the next step, and add their product to the sum.
    pub fn accept(&mut self, left: EvaluatedBatch<T>, right: EvaluatedBatch<T>) -> (result: Result<
        (),
    >)
        requires
            old(self).wf(),
            old(self).spec_start() < old(self).spec_inner(),
        ensures
            final(self).wf(),
            final(self).spec_plan() == old(self).spec_plan(),
            final(self).spec_inner() == old(self).spec_inner(),
            final(self).is_sparse() == old(self).is_sparse(),
            result is Ok <==> batch_fits(
                left.values@,
                mask_of(left.support),
                old(self).rows() * old(self).next_count(),
            ) && batch_fits(
                right.values@,
                mask_of(right.support),
                old(self).next_count() * old(self).columns(),
            ),
            result is Ok ==> {
                let chunks = final(self).spec_chunks();
                let last = chunks.last();
                &&& final(self).spec_start() == old(self).spec_start() + old(self).next_count()
                &&& chunks.len() == old(self).spec_chunks().len() + 1
                &&& chunks.drop_last() == old(self).spec_chunks()
                &&& last.start == old(self).spec_start()
                &&& last.count == old(self).next_count()
                &&& last.left == left.values@
                &&& last.right == right.values@
                &&& last.left_support == mask_of(left.support)
                &&& last.right_support == mask_of(right.support)
            },
            result matches Err(error) ==> error is InvalidLayout && *final(self) == *old(self),
    {
        proof {
            self.lemma_wf();
        }
        let count: usize = self.count() as usize;
        let rows: usize = self.plan.rectangle.rows.len();
        let columns: usize = self.plan.rectangle.columns.len();
        left.validate(rows * count)?;
        right.validate(count * columns)?;
        proof {
            assert(rows * count * columns <= 4096 * 32 && rows * columns <= 32 * 32)
                by (nonlinear_arith)
                requires
                    0 <= rows * count <= 4096,
                    0 <= rows <= 32,
                    0 <= columns <= 32,
            ;
        }
        let ghost left_support = mask_of(left.support);
        let ghost right_support = mask_of(right.support);
        let ghost left_values = left.values@;
        let ghost right_values = right.values@;
        let ghost before = self.chunks@;
        let ghost sums = self.accumulated;
        let product = T::multiply(left.values, right.values, rows, count, columns)?;
        let ghost chunk = Chunk {
            start: self.start as int,
            count: count as int,
            left: left_values,
            right: right_values,
            left_support,
            right_support,
            product: product@,
        };
        let ghost after = before.push(chunk);
        combine_partial(&mut self.accumulated, product, rows * columns)?;
        proof {
            assert(after.drop_last() =~= before);
            if before.len() == 0 {
                assert(after[0] == chunk);
            }
            assert(self.accumulated is Some);
            assert(self.accumulated->Some_0@ == chunk_sums(after));
        }
        match &mut self.support {
            Some((row_support, column_support)) => {
                join_rows::<T>(
                    row_support,
                    &left.support,
                    rows,
                    count,
                    Ghost(chunk),
                    Ghost(before),
                );
                join_columns::<T>(
                    column_support,
                    &right.support,
                    count,
                    columns,
                    Ghost(chunk),
                    Ghost(before),
                );
            },
            None => {},
        }
        self.start = self.start + count as u64;
        self.chunks = Ghost(after);
        Ok(())
    }
}

/// Join the support of the rows of a step to that of the steps before it.
fn join_rows<T>(
    row_support: &mut Vec<bool>,
    mask: &Option<Vec<u8>>,
    rows: usize,
    count: usize,
    Ghost(chunk): Ghost<Chunk<T>>,
    Ghost(before): Ghost<Seq<Chunk<T>>>,
)
    requires
        old(row_support)@.len() == rows,
        chunk.count == count,
        chunk.left_support == mask_of(*mask),
        rows * count <= MAX_BATCH_ELEMENTS,
        mask_fits(mask_of(*mask), rows * count),
        forall|i: int|
            0 <= i < rows ==> #[trigger] old(row_support)@[i] == any_row_support(before, i),
    ensures
        final(row_support)@.len() == rows,
        forall|i: int|
            0 <= i < rows ==> #[trigger] final(row_support)@[i] == any_row_support(
                before.push(chunk),
                i,
            ),
{
    let mut i: usize = 0;
    while i < rows
        invariant
            i <= rows,
            row_support@.len() == rows,
            chunk.count == count,
            chunk.left_support == mask_of(*mask),
            rows * count <= MAX_BATCH_ELEMENTS,
            mask_fits(mask_of(*mask), rows * count),
            forall|a: int|
                0 <= a < i ==> #[trigger] row_support@[a] == any_row_support(
                    before.push(chunk),
                    a,
                ),
            forall|a: int|
                i <= a < rows ==> #[trigger] row_support@[a] == any_row_support(before, a),
        decreases rows - i,
    {
        let mut found = false;
        match mask {
            None => {
                found = true;
            },
            Some(mask) => {
                let mut k: usize = 0;
                while k < count
                    invariant
                        k <= count,
                        i < rows,
                        mask@.len() == rows * count,
                        rows * count <= MAX_BATCH_ELEMENTS,
                        found <==> exists|j: int|
                            0 <= j < k && mask@[#[trigger] left_place(
                                i as int,
                                j,
                                count as int,
                            )] != 0,
                    decreases count - k,
                {
                    proof {
                        lemma_join_index(i as int, k as int, rows as int, count as int);
                    }
                    if mask[i * count + k] != 0 {
                        found = true;
                        assert(mask@[left_place(i as int, k as int, count as int)] != 0);
                    }
                    k += 1;
                }
            },
        }
        let known: bool = row_support[i];
        proof {
            lemma_row_support(before, chunk, i as int);
            assert(found == row_supported(chunk, i as int));
        }
        row_support.set(i, known || found);
        i += 1;
    }
}

proof fn lemma_row_support<T>(before: Seq<Chunk<T>>, chunk: Chunk<T>, row: int)
    ensures
        any_row_support(before.push(chunk), row) <==> any_row_support(before, row)
            || row_supported(chunk, row),
{
    let after = before.push(chunk);
    if any_row_support(before, row) {
        let c = choose|c: int| 0 <= c < before.len() && row_supported(#[trigger] before[c], row);
        assert(row_supported(after[c], row));
    }
    if row_supported(chunk, row) {
        assert(row_supported(after[before.len() as int], row));
    }
    if any_row_support(after, row) {
        let c = choose|c: int| 0 <= c < after.len() && row_supported(#[trigger] after[c], row);
        if c < before.len() {
            assert(row_supported(before[c], row));
        }
    }
}

/// Join the support of the columns of a step to that of the steps before it.
fn join_columns<T>(
    column_support: &mut Vec<bool>,
    mask: &Option<Vec<u8>>,
    count: usize,
    columns: usize,
    Ghost(chunk): Ghost<Chunk<T>>,
    Ghost(before): Ghost<Seq<Chunk<T>>>,
)
    requires
        old(column_support)@.len() == columns,
        chunk.count == count,
        chunk.right_support == mask_of(*mask),
        count * columns <= MAX_BATCH_ELEMENTS,
        mask_fits(mask_of(*mask), count * columns),
        forall|j: int|
            0 <= j < columns ==> #[trigger] old(column_support)@[j] == any_column_support(
                before,
                j,
                columns as int,
            ),
    ensures
        final(column_support)@.len() == columns,
        forall|j: int|
            0 <= j < columns ==> #[trigger] final(column_support)@[j] == any_column_support(
                before.push(chunk),
                j,
                columns as int,
            ),
{
    let mut j: usize = 0;
    while j < columns
        invariant
            j <= columns,
            column_support@.len() == columns,
            chunk.count == count,
            chunk.right_support == mask_of(*mask),
            count * columns <= MAX_BATCH_ELEMENTS,
            mask_fits(mask_of(*mask), count * columns),
            forall|a: int|
                0 <= a < j ==> #[trigger] column_support@[a] == any_column_support(
                    before.push(chunk),
                    a,
                    columns as int,
                ),
            forall|a: int|
                j <= a < columns ==> #[trigger] column_support@[a] == any_column_support(
                    before,
                    a,
                    columns as int,
                ),
        decreases columns - j,
    {
        let mut found = false;
        match mask {
            None => {
                found = true;
            },
            Some(mask) => {
                let mut k: usize = 0;
                while k < count
                    invariant
                        k <= count,
                        j < columns,
                        mask@.len() == count * columns,
                        count * columns <= MAX_BATCH_ELEMENTS,
                        found <==> exists|i: int|
                            0 <= i < k && mask@[#[trigger] right_place(
                                i,
                                j as int,
                                columns as int,
                            )] != 0,
                    decreases count - k,
                {
                    proof {
                        lemma_join_index(k as int, j as int, count as int, columns as int);
                    }
                    if mask[k * columns + j] != 0 {
                        found = true;
                        assert(mask@[right_place(k as int, j as int, columns as int)] != 0);
                    }
                    k += 1;
                }
            },
        }
        let known: bool = column_support[j];
        proof {
            lemma_column_support(before, chunk, j as int, columns as int);
            assert(found == column_supported(chunk, j as int, columns as int));
        }
        column_support.set(j, known || found);
        j += 1;
    }
}

proof fn lemma_column_support<T>(
    before: Seq<Chunk<T>>,
    chunk: Chunk<T>,
    column: int,
    columns: int,
)
    ensures
        any_column_support(before.push(chunk), column, columns) <==> any_column_support(
            before,
            column,
            columns,
        ) || column_supported(chunk, column, columns),
{
    let after = before.push(chunk);
    if any_column_support(before, column, columns) {
        let c = choose|c: int|
            0 <= c < before.len() && column_supported(#[trigger] before[c], column, columns);
        assert(column_supported(after[c], column, columns));
    }
    if column_supported(chunk, column, columns) {
        assert(column_supported(after[before.len() as int], column, columns));
    }
    if any_column_support(after, column, columns) {
        let c = choose|c: int|
            0 <= c < after.len() && column_supported(#[trigger] after[c], column, columns);
        if c < before.len() {
            assert(column_supported(before[c], column, columns));
        }
    }
}

/// The plan answers some request of so many elements.
pub open spec fn answerable(plan: MatrixPlan, len: int) -> bool {
    exists|coords: Seq<Seq<u64>>| coords.len() == len && #[trigger] plan_fits(plan, coords)
}

/// The plan is one to begin a tile with, for a request of so many elements.
pub open spec fn beginnable(plan: MatrixPlan, len: int) -> bool {
    &&& rectangle_wf(plan.rectangle)
    &&& plan.rectangle.rows@.len() <= TILE_SIDE
    &&& plan.rectangle.columns@.len() <= TILE_SIDE
    &&& answerable(plan, len)
}

/// Some pair of the plan is for the place of the request.
pub open spec fn in_plan(plan: MatrixPlan, position: int) -> bool {
    exists|k: int|
        0 <= k < rectangle_pairs(plan.rectangle).len() && (#[trigger] rectangle_pairs(
            plan.rectangle,
        )[k]).0 == position
}

/// A coordinate has one place in a rectangle.
proof fn lemma_place_unique(plan: MatrixPlan, a: int, b: int)
    requires
        rectangle_wf(plan.rectangle),
        0 <= a < plan.rectangle.rows@.len() * plan.rectangle.columns@.len(),
        0 <= b < plan.rectangle.rows@.len() * plan.rectangle.columns@.len(),
        plan_coord(plan, a) == plan_coord(plan, b),
    ensures
        a == b,
{
    let rows = plan.rectangle.rows@;
    let columns = plan.rectangle.columns@;
    let w = columns.len() as int;
    let n = plan.prefix@.len() as int;
    lemma_split_index(a, rows.len() as int, w);
    lemma_split_index(b, rows.len() as int, w);
    let left = plan_coord(plan, a);
    let right = plan_coord(plan, b);
    assert(left[n] == rows[a / w] && right[n] == rows[b / w]);
    assert(left[n + 1] == columns[a % w] && right[n + 1] == columns[b % w]);
    if a / w < b / w {
        assert(rows[a / w] < rows[b / w]);
    } else if b / w < a / w {
        assert(rows[b / w] < rows[a / w]);
    }
    if a % w < b % w {
        assert(columns[a % w] < columns[b % w]);
    } else if b % w < a % w {
        assert(columns[b % w] < columns[a % w]);
    }
    vstd::arithmetic::div_mod::lemma_fundamental_div_mod(a, w);
    vstd::arithmetic::div_mod::lemma_fundamental_div_mod(b, w);
}

/// A place of the request keeps its value and its support.
pub open spec fn stays<T>(
    position: int,
    before: Seq<T>,
    after: Seq<T>,
    old_support: Option<Seq<u8>>,
    new_support: Option<Seq<u8>>,
) -> bool {
    &&& after[position] == before[position]
    &&& match (old_support, new_support) {
        (Some(old_mask), Some(new_mask)) => new_mask[position] == old_mask[position],
        _ => true,
    }
}

/// Places that the plan does not answer keep their values and their support.
pub open spec fn others_stay<T>(
    plan: MatrixPlan,
    before: Seq<T>,
    after: Seq<T>,
    old_support: Option<Seq<u8>>,
    new_support: Option<Seq<u8>>,
) -> bool {
    forall|o: int|
        0 <= o < before.len() && !in_plan(plan, o) ==> #[trigger] stays(
            o,
            before,
            after,
            old_support,
            new_support,
        )
}

/// A place of the result is supported if its row or its column is.
pub open spec fn place_supported<T>(chunks: Seq<Chunk<T>>, place: int, columns: int) -> bool {
    any_row_support(chunks, place / columns) || any_column_support(chunks, place % columns, columns)
}

/// One for a supported place, zero for another.
pub open spec fn support_flag(supported: bool) -> u8 {
    if supported {
        1
    } else {
        0
    }
}

/// The places that a tile answers have its products and its support, and the others stay.
pub open spec fn is_scattered<T: TensorElement>(
    tile: TileProduct<T>,
    before: Seq<T>,
    after: Seq<T>,
    old_support: Option<Seq<u8>>,
    new_support: Option<Seq<u8>>,
) -> bool {
    &&& after.len() == before.len()
    &&& forall|k: int|
        0 <= k < rectangle_pairs(tile.spec_plan().rectangle).len() ==> {
            let (position, place) = #[trigger] rectangle_pairs(tile.spec_plan().rectangle)[k];
            &&& after[position] == chunk_sums(tile.spec_chunks())[place]
            &&& new_support matches Some(mask) ==> mask[position] == support_flag(
                place_supported(tile.spec_chunks(), place, tile.columns()),
            )
        }
    &&& others_stay(tile.spec_plan(), before, after, old_support, new_support)
}

impl<T: TensorElement> TileProduct<T> {
    /// Spread the finished product over the elements of the request, and its support.
    pub fn scatter(self, values: &mut Vec<T>, support: &mut Option<Vec<u8>>)
        requires
            self.wf(),
            self.spec_start() == self.spec_inner(),
            self.spec_inner() > 0,
            answerable(self.spec_plan(), old(values)@.len() as int),
            *old(support) is Some <==> self.is_sparse(),
            mask_fits(mask_of(*old(support)), old(values)@.len() as int),
        ensures
            final(values)@.len() == old(values)@.len(),
            *final(support) is Some <==> *old(support) is Some,
            mask_fits(mask_of(*final(support)), old(values)@.len() as int),
            is_scattered(
                self,
                old(values)@,
                final(values)@,
                mask_of(*old(support)),
                mask_of(*final(support)),
            ),
    {
        let ghost plan = self.plan;
        let ghost n = values@.len() as int;
        let ghost coords = choose|coords: Seq<Seq<u64>>|
            coords.len() == n && #[trigger] plan_fits(plan, coords);
        let ghost targets = rectangle_pairs(plan.rectangle);
        let ghost sums = chunk_sums(self.chunks@);
        let ghost first = values@;
        let ghost first_mask = mask_of(*support);
        let ghost chunks = self.chunks@;
        let ghost w = self.columns();
        proof {
            assert(values.len() == n);
            assert(self.chunks@.len() > 0);
            lemma_plan_indexable(plan, coords);
        }
        let columns: usize = self.plan.rectangle.columns.len();
        let pairs = self.plan.rectangle.scatter.each(columns);
        let sums_list = match &self.accumulated {
            Some(list) => list,
            None => {
                return;
            },
        };
        let mut k: usize = 0;
        while k < pairs.len()
            invariant
                k <= pairs.len(),
                self.wf(),
                self.plan == plan,
                self.chunks@ == chunks,
                self.accumulated == Some(*sums_list),
                sums == sums_list@,
                sums.len() == plan.rectangle.rows@.len() * w,
                w == columns,
                columns == plan.rectangle.columns@.len(),
                targets == rectangle_pairs(plan.rectangle),
                exact_pairs(pairs@) == targets,
                plan_fits(plan, coords),
                coords.len() == n,
                values@.len() == n,
                first.len() == n,
                mask_fits(first_mask, n),
                mask_fits(mask_of(*support), n),
                *support is Some <==> first_mask is Some,
                *support is Some <==> self.is_sparse(),
                forall|q: int|
                    0 <= q < k ==> {
                        &&& values@[(#[trigger] targets[q]).0] == sums[targets[q].1]
                        &&& mask_of(*support) matches Some(mask) ==> mask[targets[q].0]
                            == support_flag(place_supported(chunks, targets[q].1, w))
                    },
                others_stay(plan, first, values@, first_mask, mask_of(*support)),
            decreases pairs.len() - k,
        {
            let (position, place) = pairs[k];
            let ghost old_values = values@;
            let ghost old_mask = mask_of(*support);
            proof {
                assert(targets[k as int] == (position as int, place as int));
                assert(plan_pair_fits(plan, k as int, coords));
                lemma_split_index(place as int, plan.rectangle.rows@.len() as int, w);
                assert(in_plan(plan, position as int));
            }
            values.set(position, sums_list[place]);
            if let (Some(mask), Some((row_support, column_support))) = (
                &mut *support,
                &self.support,
            ) {
                let known: bool = row_support[place / columns] || column_support[place % columns];
                let mark: u8 = if known {
                    1
                } else {
                    0
                };
                mask.set(position, mark);
            }
            proof {
                assert forall|q: int| 0 <= q < k + 1 implies {
                    &&& values@[(#[trigger] targets[q]).0] == sums[targets[q].1]
                    &&& mask_of(*support) matches Some(mask) ==> mask[targets[q].0] == support_flag(
                        place_supported(chunks, targets[q].1, w),
                    )
                } by {
                    assert(plan_pair_fits(plan, q, coords));
                    if targets[q].0 == position {
                        lemma_place_unique(plan, targets[q].1, place as int);
                    }
                }
                assert forall|o: int| 0 <= o < n && !in_plan(plan, o) implies #[trigger] stays(
                    o,
                    first,
                    values@,
                    first_mask,
                    mask_of(*support),
                ) by {
                    assert(o != position);
                    assert(stays(o, first, old_values, first_mask, old_mask));
                }
            }
            k += 1;
        }
    }
}

/// The places of a plan can be indexed.
proof fn lemma_plan_indexable(plan: MatrixPlan, coords: Seq<Seq<u64>>)
    requires
        plan_fits(plan, coords),
        coords.len() <= usize::MAX,
    ensures
        pairs_fit(rectangle_pairs(plan.rectangle)),
{
    let pairs = rectangle_pairs(plan.rectangle);
    plans_stay_within_a_tile(plan, coords);
    let rows = plan.rectangle.rows@.len() as int;
    let columns = plan.rectangle.columns@.len() as int;
    assert(rows * columns <= 32 * 32) by (nonlinear_arith)
        requires
            0 <= rows <= 32,
            0 <= columns <= 32,
    ;
    assert forall|k: int| 0 <= k < pairs.len() implies 0 <= (#[trigger] pairs[k]).0 <= usize::MAX
        && 0 <= pairs[k].1 <= usize::MAX by {
        assert(plan_pair_fits(plan, k, coords));
    }
}

/// The sum of the products of a row of one tensor with a column of another, over the first
/// positions.
pub open spec fn contraction(
    left: spec_fn(Seq<u64>) -> u8,
    right: spec_fn(Seq<u64>) -> u8,
    prefix: Seq<u64>,
    row: u64,
    column: u64,
    n: nat,
) -> int
    decreases n,
{
    if n == 0 {
        0
    } else {
        contraction(left, right, prefix, row, column, (n - 1) as nat) + left(
            prefix.push(row).push((n - 1) as u64),
        ) * right(prefix.push((n - 1) as u64).push(column))
    }
}

/// The parts of a step are those of two tensors.
pub open spec fn chunk_of(
    chunk: Chunk<u8>,
    plan: MatrixPlan,
    left: spec_fn(Seq<u64>) -> u8,
    right: spec_fn(Seq<u64>) -> u8,
) -> bool {
    let rows = plan.rectangle.rows@;
    let columns = plan.rectangle.columns@;
    &&& forall|i: int, k: int|
        0 <= i < rows.len() && 0 <= k < chunk.count ==> chunk.left[#[trigger] left_place(
            i,
            k,
            chunk.count,
        )] == left(plan.prefix@.push(rows[i]).push((chunk.start + k) as u64))
    &&& forall|k: int, j: int|
        0 <= k < chunk.count && 0 <= j < columns.len() ==> chunk.right[#[trigger] right_place(
            k,
            j,
            columns.len() as int,
        )] == right(plan.prefix@.push((chunk.start + k) as u64).push(columns[j]))
}

/// Numbers that are reduced before they are added give the same byte.
proof fn lemma_wrapped_sum(a: int, b: int)
    ensures
        wrapped(wrapped(a) + wrapped(b)) == wrapped(a + b),
{
    assert((a % 256 + b % 256) % 256 == (a + b) % 256) by (nonlinear_arith);
}

proof fn lemma_chunk_dot(
    chunk: Chunk<u8>,
    plan: MatrixPlan,
    left: spec_fn(Seq<u64>) -> u8,
    right: spec_fn(Seq<u64>) -> u8,
    i: int,
    j: int,
    n: nat,
)
    requires
        chunk_of(chunk, plan, left, right),
        0 <= i < plan.rectangle.rows@.len(),
        0 <= j < plan.rectangle.columns@.len(),
        0 <= chunk.start,
        n <= chunk.count,
    ensures
        ({
            let columns = plan.rectangle.columns@;
            let row = plan.rectangle.rows@[i];
            contraction(left, right, plan.prefix@, row, columns[j], (chunk.start + n) as nat)
                == contraction(left, right, plan.prefix@, row, columns[j], chunk.start as nat)
                + dot(chunk.left, chunk.right, chunk.count, columns.len() as int, i, j, n)
        }),
    decreases n,
{
    if n > 0 {
        let w = plan.rectangle.columns@.len() as int;
        lemma_chunk_dot(chunk, plan, left, right, i, j, (n - 1) as nat);
        let k = n - 1;
        assert(chunk.left[left_place(i, k, chunk.count)] == left(
            plan.prefix@.push(plan.rectangle.rows@[i]).push((chunk.start + k) as u64),
        ));
        assert(chunk.right[right_place(k, j, w)] == right(
            plan.prefix@.push((chunk.start + k) as u64).push(plan.rectangle.columns@[j]),
        ));
        assert(i * chunk.count + n - 1 == left_place(i, k, chunk.count));
        assert((n - 1) * w + j == right_place(k, j, w));
    }
}

proof fn lemma_chunks_contract(
    chunks: Seq<Chunk<u8>>,
    plan: MatrixPlan,
    left: spec_fn(Seq<u64>) -> u8,
    right: spec_fn(Seq<u64>) -> u8,
    end: int,
    place: int,
)
    requires
        chunks.len() > 0,
        chunks_reach(
            chunks,
            plan.rectangle.rows@.len() as int,
            plan.rectangle.columns@.len() as int,
            end,
        ),
        forall|c: int| 0 <= c < chunks.len() ==> chunk_of(#[trigger] chunks[c], plan, left, right),
        0 <= place < plan.rectangle.rows@.len() * plan.rectangle.columns@.len(),
    ensures
        ({
            let w = plan.rectangle.columns@.len() as int;
            let row = plan.rectangle.rows@[place / w];
            let column = plan.rectangle.columns@[place % w];
            &&& end >= 0
            &&& chunk_sums(chunks).len() == plan.rectangle.rows@.len() * w
            &&& chunk_sums(chunks)[place] == wrapped(
                contraction(left, right, plan.prefix@, row, column, end as nat),
            )
        }),
    decreases chunks.len(),
{
    let h = plan.rectangle.rows@.len() as int;
    let w = plan.rectangle.columns@.len() as int;
    let row = plan.rectangle.rows@[place / w];
    let column = plan.rectangle.columns@[place % w];
    let last = chunks.last();
    let init = chunks.drop_last();
    lemma_split_index(place, h, w);
    assert(chunk_of(chunks[chunks.len() - 1], plan, left, right));
    let total = dot(last.left, last.right, last.count, w, place / w, place % w, last.count as nat);
    assert(last.product[place] == wrapped(total));
    if init.len() == 0 {
        assert(chunks[0] == last);
        assert(chunks_reach(init, h, w, last.start));
        lemma_chunk_dot(last, plan, left, right, place / w, place % w, last.count as nat);
        assert(contraction(left, right, plan.prefix@, row, column, 0) == 0);
    } else {
        assert forall|c: int| 0 <= c < init.len() implies chunk_of(
            #[trigger] init[c],
            plan,
            left,
            right,
        ) by {
            assert(chunk_of(chunks[c], plan, left, right));
        }
        lemma_chunks_contract(init, plan, left, right, last.start, place);
        lemma_chunk_dot(last, plan, left, right, place / w, place % w, last.count as nat);
        lemma_wrapped_sum(
            contraction(left, right, plan.prefix@, row, column, last.start as nat),
            total,
        );
    }
}

/// However the contraction is cut into steps, a finished tile of bytes holds at every place the
/// sum of all products of its row with its column.
pub proof fn tiles_hold_matrix_products(
    tile: TileProduct<u8>,
    left: spec_fn(Seq<u64>) -> u8,
    right: spec_fn(Seq<u64>) -> u8,
    place: int,
)
    requires
        tile.wf(),
        tile.spec_start() == tile.spec_inner(),
        tile.spec_inner() > 0,
        forall|c: int|
            0 <= c < tile.spec_chunks().len() ==> chunk_of(
                #[trigger] tile.spec_chunks()[c],
                tile.spec_plan(),
                left,
                right,
            ),
        0 <= place < tile.rows() * tile.columns(),
    ensures
        ({
            let plan = tile.spec_plan();
            let row = plan.rectangle.rows@[place / tile.columns()];
            let column = plan.rectangle.columns@[place % tile.columns()];
            chunk_sums(tile.spec_chunks())[place] == wrapped(
                contraction(left, right, plan.prefix@, row, column, tile.spec_inner() as nat),
            )
        }),
{
    tile.lemma_wf();
    lemma_chunks_contract(
        tile.spec_chunks(),
        tile.spec_plan(),
        left,
        right,
        tile.spec_inner(),
        place,
    );
}

/// A lazy matrix product of two sources. Transforms address the product, not the sources.
#[derive(Clone, Debug)]
pub struct MatMulView<Left, Right> {
    left: Left,
    right: Right,
    output_shape: Shape,
    output_strides: Strides,
    mapping: CoordinateMap,
}

/// The shapes can be multiplied, and their product can be counted.
pub open spec fn multipliable(left: Seq<u64>, right: Seq<u64>) -> bool {
    &&& conformable(left, right)
    &&& all_positive(left)
    &&& volume(left) <= u64::MAX
    &&& all_positive(right)
    &&& volume(right) <= u64::MAX
    &&& volume(product_shape(left, right)) <= u64::MAX
}

impl<L, R> MatMulView<L, R> {
    pub closed spec fn spec_left(&self) -> L {
        self.left
    }

    pub closed spec fn spec_right(&self) -> R {
        self.right
    }

    pub closed spec fn spec_mapping(&self) -> Mapping {
        self.mapping@
    }

    /// The other view is one of the same product.
    pub open spec fn same_source(&self, other: &Self) -> bool {
        &&& self.spec_left() == other.spec_left()
        &&& self.spec_right() == other.spec_right()
        &&& self.spec_output_strides() == other.spec_output_strides()
    }

    pub closed spec fn spec_output_strides(&self) -> Seq<u64> {
        self.output_strides@
    }

    pub fn left(&self) -> (left: &L)
        ensures
            *left == self.spec_left(),
    {
        &self.left
    }

    pub fn right(&self) -> (right: &R)
        ensures
            *right == self.spec_right(),
    {
        &self.right
    }
}

impl<L: TensorGeometry, R: TensorGeometry> MatMulView<L, R> {
    pub closed spec fn wf(&self) -> bool {
        &&& multipliable(self.left.spec_shape(), self.right.spec_shape())
        &&& self.output_shape@ == product_shape(self.left.spec_shape(), self.right.spec_shape())
        &&& are_strides(self.output_strides@, self.output_shape@)
        &&& self.mapping.wf()
    }

    /// The shape of the product before any transform.
    pub open spec fn spec_output_shape(&self) -> Seq<u64> {
        product_shape(self.spec_left().spec_shape(), self.spec_right().spec_shape())
    }

    /// The product of two sources.
    pub fn new(left: L, right: R) -> (result: Result<Self>)
        ensures
            result is Ok <==> multipliable(left.spec_shape(), right.spec_shape()),
            result matches Ok(view) ==> {
                &&& view.wf()
                &&& view.spec_left() == left
                &&& view.spec_right() == right
                &&& view.spec_shape() == view.spec_output_shape()
                &&& are_strides(view.spec_output_strides(), view.spec_output_shape())
                &&& view.spec_mapping() == identity_map(
                    view.spec_output_shape(),
                    view.spec_output_strides(),
                )
            },
            (result matches Err(Error::InvalidSchema(_))) <==> {
                let (left, right) = (left.spec_shape(), right.spec_shape());
                &&& left.len() >= 2
                &&& right.len() >= 2
                &&& !all_positive(left) || (volume(left) <= u64::MAX && !all_positive(right))
            },
            result matches Err(error) ==> error is InvalidSchema || error is InvalidLayout,
    {
        let output_shape = matmul_output_shape(left.shape(), right.shape())?;
        proof {
            lemma_volume_suffix_bound(output_shape@, 1);
        }
        let output_strides = contiguous_strides(output_shape.as_slice())?;
        let mapping = CoordinateMap::identity(output_shape.clone(), output_strides.as_slice());
        Ok(MatMulView { left, right, output_shape, output_strides, mapping })
    }

    /// The rectangles to compute for a request.
    pub fn plan(&self, request: &BatchRequest) -> (result: Result<Vec<MatrixPlan>>)
        requires
            self.wf(),
            request.wf(),
        ensures
            ({
                let map = self.spec_mapping();
                let shape = self.spec_output_shape();
                let coords = request_coords(request@, map.shape);
                &&& result is Ok <==> {
                    &&& request_fits(request@, map.shape)
                    &&& all_resolve(map, coords, shape, self.spec_output_strides())
                    &&& map == identity_map(shape, self.spec_output_strides())
                        ==> matrices_bounded(request@)
                }
                &&& result matches Ok(plans) ==> covers(plans@, resolved(map, coords, shape))
                    && forall|o: int|
                    0 <= o < coords.len() ==> in_box(
                        #[trigger] resolved(map, coords, shape)[o],
                        shape,
                    )
                &&& result matches Ok(plans) ==> forall|p: int|
                    0 <= p < plans@.len() ==> beginnable(
                        #[trigger] plans@[p],
                        request.spec_len(),
                    )
                &&& (result matches Err(Error::InvalidSchema(_))) <==> request@ is Linear
                    && !product_fits(map.shape)
                &&& (result matches Err(Error::InvalidLayout(_))) <==> {
                    &&& request_fits(request@, map.shape)
                    &&& map == identity_map(shape, self.spec_output_strides())
                    &&& !matrices_bounded(request@)
                }
                &&& result matches Err(error) ==> error is InvalidSchema || error is InvalidCoord
                    || error is InvalidLayout
            }),
    {
        proof {
            let n = self.output_shape@.len() as int;
            assert(all_positive(self.output_shape@)) by {
                let left = self.left.spec_shape();
                let right = self.right.spec_shape();
                assert forall|i: int| 0 <= i < n implies #[trigger] self.output_shape@[i] > 0 by {
                    if i < n - 1 {
                        assert(left[i] > 0);
                    } else {
                        assert(right[right.len() - 1] > 0);
                    }
                }
            }
        }
        let result = plan_request(
            &self.mapping,
            self.output_shape.as_slice(),
            self.output_strides.as_slice(),
            request,
        );
        proof {
            let map = self.mapping@;
            let shape = self.output_shape@;
            let coords = request_coords(request@, map.shape);
            if result is Ok {
                assert forall|o: int| 0 <= o < coords.len() implies in_box(
                    #[trigger] resolved(map, coords, shape)[o],
                    shape,
                ) by {
                    assert(resolves(map, coords[o], shape, self.output_strides@));
                    lemma_coordinate_position(offset_at(map, coords[o]), shape);
                }
            }
            if let Ok(plans) = &result {
                request.lemma_wf();
                lemma_request_len(request@, map.shape);
                assert forall|p: int| 0 <= p < plans@.len() implies beginnable(
                    #[trigger] plans@[p],
                    request.spec_len(),
                ) by {
                    assert(plan_fits(plans@[p], resolved(map, coords, shape)));
                    plans_stay_within_a_tile(plans@[p], resolved(map, coords, shape));
                    assert(answerable(plans@[p], request.spec_len()));
                }
            }
        }
        result
    }

    /// Begin the product of a rectangle.
    pub fn begin<T: TensorElement>(&self, plan: MatrixPlan) -> (tile: TileProduct<T>)
        requires
            self.wf(),
            rectangle_wf(plan.rectangle),
            plan.rectangle.rows@.len() <= TILE_SIDE,
            plan.rectangle.columns@.len() <= TILE_SIDE,
        ensures
            tile.wf(),
            tile.spec_plan() == plan,
            tile.spec_inner() == self.spec_left().spec_shape().last(),
            tile.spec_inner() > 0,
            tile.spec_start() == 0,
            tile.is_sparse() == (self.spec_layout() is Sparse),
            tile.spec_chunks() == Seq::<Chunk<T>>::empty(),
    {
        let shape = self.left.shape();
        let inner: u64 = shape[shape.len() - 1];
        proof {
            let left = self.left.spec_shape();
            assert(left[left.len() - 1] > 0);
        }
        let sparse = match self.layout() {
            Layout::Sparse { .. } => true,
            Layout::Dense => false,
        };
        TileProduct::new(plan, inner, sparse)
    }

    /// An answer to a request of so many elements, before anything is computed.
    pub fn blank<T: TensorElement>(&self, len: usize) -> (batch: EvaluatedBatch<T>)
        ensures
            batch.values@ == Seq::new(len as nat, |i: int| T::spec_zero()),
            mask_of(batch.support) == if self.spec_layout() is Sparse {
                Some(Seq::new(len as nat, |i: int| 0u8))
            } else {
                None
            },
    {
        let values = filled(T::zero(), len);
        let support = match self.layout() {
            Layout::Sparse { .. } => Some(filled(0u8, len)),
            Layout::Dense => None,
        };
        EvaluatedBatch { values, support }
    }
}

/// The parts of the sources that the plan of a product asks for are there.
pub proof fn operands_of_plans_fit(
    plan: MatrixPlan,
    coords: Seq<Seq<u64>>,
    left: Seq<u64>,
    right: Seq<u64>,
    start: u64,
    count: u64,
)
    requires
        conformable(left, right),
        plan_fits(plan, coords),
        forall|o: int|
            0 <= o < coords.len() ==> in_box(#[trigger] coords[o], product_shape(left, right)),
        count > 0,
        start + count <= left.last(),
        plan.rectangle.rows@.len() * count <= MAX_BATCH_ELEMENTS,
        plan.rectangle.columns@.len() * count <= MAX_BATCH_ELEMENTS,
    ensures
        ({
            let rows = operand_box(plan.prefix@, plan.rectangle.rows@, start, count, true);
            let columns = operand_box(plan.prefix@, plan.rectangle.columns@, start, count, false);
            &&& axes_fit(rows, left)
            &&& axes_fit(columns, right)
            &&& axes_volume(rows) <= MAX_BATCH_ELEMENTS
            &&& axes_volume(columns) <= MAX_BATCH_ELEMENTS
        }),
{
    let shape = product_shape(left, right);
    let n = shape.len() - 2;
    let rows = operand_box(plan.prefix@, plan.rectangle.rows@, start, count, true);
    let columns = operand_box(plan.prefix@, plan.rectangle.columns@, start, count, false);
    plans_lie_in_the_shape(plan, coords, shape);
    plans_stay_within_a_tile(plan, coords);
    assert(left.take(n) =~= shape.take(n));
    assert(right.len() == left.len()) by {
        assert(left.take(left.len() - 2).len() == right.take(right.len() - 2).len());
    }
    assert forall|i: int| 0 <= i < left.len() implies axis_fits(#[trigger] rows[i], left[i]) by {
        if i < n {
            assert(plan.prefix@[i] < shape.take(n)[i]);
        }
    }
    assert forall|i: int| 0 <= i < right.len() implies axis_fits(
        #[trigger] columns[i],
        right[i],
    ) by {
        if i < n {
            assert(plan.prefix@[i] < shape.take(n)[i]);
            assert(right.take(n)[i] == left.take(n)[i]);
        }
    }
    operand_coordinates(left, plan.prefix@, plan.rectangle.rows@, start, count, true, 0, 0);
    operand_coordinates(right, plan.prefix@, plan.rectangle.columns@, start, count, false, 0, 0);
    lemma_single_box(rows, left);
    lemma_single_box(columns, right);
}

/// The only box of a request names its elements.
proof fn lemma_single_box(axes: Seq<Selection>, shape: Seq<u64>)
    ensures
        request_coords(Requested::Rectangles(seq![axes]), shape).len() == axes_volume(axes)
            || axes_volume(axes) < 0,
{
    let boxes = seq![axes];
    assert(boxes.drop_last() =~= Seq::<Seq<Selection>>::empty());
    assert(boxes_coords(boxes.drop_last()) =~= Seq::<Seq<u64>>::empty());
}

/// Batches that answer what a step asks for are the parts of the two tensors.
pub proof fn answered_operands_are_parts(
    chunk: Chunk<u8>,
    plan: MatrixPlan,
    left_shape: Seq<u64>,
    right_shape: Seq<u64>,
    left: spec_fn(Seq<u64>) -> u8,
    right: spec_fn(Seq<u64>) -> u8,
)
    requires
        plan.rectangle.rows@.len() <= u64::MAX,
        plan.rectangle.columns@.len() <= u64::MAX,
        0 <= chunk.start <= u64::MAX,
        0 < chunk.count <= u64::MAX,
        ({
            let start = chunk.start as u64;
            let count = chunk.count as u64;
            let rows = operand_box(plan.prefix@, plan.rectangle.rows@, start, count, true);
            let columns = operand_box(plan.prefix@, plan.rectangle.columns@, start, count, false);
            let lefts = request_coords(Requested::Rectangles(seq![rows]), left_shape);
            let rights = request_coords(Requested::Rectangles(seq![columns]), right_shape);
            &&& axes_fit(rows, left_shape)
            &&& axes_fit(columns, right_shape)
            &&& chunk.left == Seq::new(lefts.len(), |i: int| left(lefts[i]))
            &&& chunk.right == Seq::new(rights.len(), |i: int| right(rights[i]))
        }),
    ensures
        chunk_of(chunk, plan, left, right),
{
    let start = chunk.start as u64;
    let count = chunk.count as u64;
    let rows = plan.rectangle.rows@;
    let columns = plan.rectangle.columns@;
    assert forall|i: int, k: int|
        0 <= i < rows.len() && 0 <= k < chunk.count implies chunk.left[#[trigger] left_place(
        i,
        k,
        chunk.count,
    )] == left(plan.prefix@.push(rows[i]).push((chunk.start + k) as u64)) by {
        operand_coordinates(left_shape, plan.prefix@, rows, start, count, true, i, k);
    }
    assert forall|k: int, j: int|
        0 <= k < chunk.count && 0 <= j < columns.len() implies chunk.right[#[trigger] right_place(
        k,
        j,
        columns.len() as int,
    )] == right(plan.prefix@.push((chunk.start + k) as u64).push(columns[j])) by {
        operand_coordinates(right_shape, plan.prefix@, columns, start, count, false, j, k);
    }
}

impl<L: TensorGeometry, R: TensorGeometry> TensorGeometry for MatMulView<L, R> {
    open spec fn spec_shape(&self) -> Seq<u64> {
        self.spec_mapping().shape
    }

    open spec fn spec_layout(&self) -> Layout {
        joint_layout(self.spec_left().spec_layout(), self.spec_right().spec_layout())
    }

    fn shape(&self) -> (shape: &[u64]) {
        self.mapping.shape.as_slice()
    }

    fn layout(&self) -> (layout: Layout) {
        join_layouts(self.left.layout(), self.right.layout())
    }
}

impl<L: TensorGeometry, R: TensorGeometry> TensorViewSemantics for MatMulView<L, R> {
    open spec fn spec_is_base(&self) -> bool {
        false
    }

    open spec fn spec_writes_through(&self) -> bool {
        false
    }

    fn is_base_tensor(&self) -> (base: bool) {
        false
    }

    fn supports_write_through(&self) -> (writes: bool) {
        false
    }
}

impl<L: TensorGeometry, R: TensorGeometry> TensorTransform for MatMulView<L, R> {
    closed spec fn inv(&self) -> bool {
        self.wf()
    }

    open spec fn places(&self, coord: Seq<u64>) -> Seq<int> {
        seq![offset_at(self.spec_mapping(), coord)]
    }

    open spec fn is_contiguous(&self) -> bool {
        contiguous(self.spec_mapping())
    }

    open spec fn room(&self, n: int) -> bool {
        map_room(self.spec_mapping(), n)
    }

    open spec fn flips_in_range(&self, axis: int) -> bool {
        flip_fits(self.spec_mapping(), axis)
    }

    open spec fn slices_in_range(&self, range: Seq<Bound>) -> bool {
        slice_fits(self.spec_mapping(), range)
    }

    open spec fn squeezes_in_range(&self, axes: Seq<usize>) -> bool {
        squeeze_base_fits(self.spec_mapping(), axes)
    }

    proof fn lemma_in_range(&self, n: int) {
        assert(self.mapping.axes.len() == self.mapping@.axes.len());
        transforms_stay_in_range(self.mapping@, n);
    }

    fn reshape(self, shape: Shape) -> (result: Result<Self>)
        ensures
            result matches Ok(view) ==> view.same_source(&self) && view.spec_mapping()
                == reshaped(self.spec_mapping(), shape@),
    {
        let ghost map = self.mapping@;
        let mapping = self.mapping.reshape(shape)?;
        proof {
            lemma_reshape_places(map, shape@);
        }
        Ok(
            Self {
                left: self.left,
                right: self.right,
                output_shape: self.output_shape,
                output_strides: self.output_strides,
                mapping,
            },
        )
    }

    fn broadcast(self, shape: Shape) -> (result: Result<Self>)
        ensures
            result matches Ok(view) ==> view.same_source(&self) && view.spec_mapping()
                == broadcasted(self.spec_mapping(), shape@),
    {
        let ghost map = self.mapping@;
        let mapping = self.mapping.broadcast(shape)?;
        proof {
            lemma_broadcast_places(map, shape@);
        }
        Ok(
            Self {
                left: self.left,
                right: self.right,
                output_shape: self.output_shape,
                output_strides: self.output_strides,
                mapping,
            },
        )
    }

    fn flip(self, axis: usize) -> (result: Result<Self>)
        ensures
            result matches Ok(view) ==> view.same_source(&self) && view.spec_mapping()
                == flipped(self.spec_mapping(), axis as int),
    {
        let ghost map = self.mapping@;
        let mapping = self.mapping.flip(axis)?;
        proof {
            lemma_flip_places(map, axis as int);
        }
        Ok(
            Self {
                left: self.left,
                right: self.right,
                output_shape: self.output_shape,
                output_strides: self.output_strides,
                mapping,
            },
        )
    }

    fn slice(self, range: Range) -> (result: Result<Self>)
        ensures
            result matches Ok(view) ==> view.same_source(&self) && view.spec_mapping()
                == sliced(self.spec_mapping(), range@),
    {
        let ghost map = self.mapping@;
        let mapping = self.mapping.slice(range)?;
        proof {
            lemma_slice_places(map, range@);
        }
        Ok(
            Self {
                left: self.left,
                right: self.right,
                output_shape: self.output_shape,
                output_strides: self.output_strides,
                mapping,
            },
        )
    }

    fn squeeze(self, axes: Axes) -> (result: Result<Self>)
        ensures
            result matches Ok(view) ==> view.same_source(&self) && view.spec_mapping()
                == squeezed(self.spec_mapping(), axes@),
    {
        let ghost map = self.mapping@;
        let rank: usize = self.mapping.shape.len();
        let mapping = self.mapping.squeeze(axes)?;
        proof {
            assert(rank == map.shape.len());
            lemma_squeeze_places(map, axes@);
        }
        Ok(
            Self {
                left: self.left,
                right: self.right,
                output_shape: self.output_shape,
                output_strides: self.output_strides,
                mapping,
            },
        )
    }

    fn transpose(self, permutation: Option<Axes>) -> (result: Result<Self>)
        ensures
            result matches Ok(view) ==> view.same_source(&self) && view.spec_mapping()
                == transposed(
                    self.spec_mapping(),
                    chosen_permutation(permutation, self.spec_shape().len()),
                ),
    {
        let ghost map = self.mapping@;
        let rank: usize = self.mapping.shape.len();
        let mapping = self.mapping.transpose(permutation)?;
        proof {
            assert(rank == map.shape.len());
            lemma_transpose_places(map, chosen_permutation(permutation, map.shape.len()));
        }
        Ok(
            Self {
                left: self.left,
                right: self.right,
                output_shape: self.output_shape,
                output_strides: self.output_strides,
                mapping,
            },
        )
    }

    fn unsqueeze(self, axes: Axes) -> (result: Result<Self>)
        ensures
            result matches Ok(view) ==> view.same_source(&self) && view.spec_mapping()
                == unsqueezed(self.spec_mapping(), axes@),
    {
        let ghost map = self.mapping@;
        let mapping = self.mapping.unsqueeze(axes)?;
        proof {
            lemma_unsqueeze_places(map, axes@);
        }
        Ok(
            Self {
                left: self.left,
                right: self.right,
                output_shape: self.output_shape,
                output_strides: self.output_strides,
                mapping,
            },
        )
    }
}

} // verus!
