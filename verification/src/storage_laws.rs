//! What storage and the views of it are, in plain terms.

use vstd::prelude::*;
use crate::binary::BinaryView;
use crate::element::TensorElement;
use crate::element_laws::is_congruent;
use crate::error::{Error, Result};
use crate::geometry::{
    all_positive, coordinate_at, in_box, lemma_coordinate_position, lemma_position_update,
    lemma_position_weighted, lemma_volume_positive, position_of, row_major_strides, volume,
};
use crate::groups::GroupReader;
use crate::inline::Bound;
use crate::mapping::{
    contiguous, contiguous_axes, CoordinateMap, fits, identity_map, lemma_total_weighted,
    lemma_unravel, Mapping, offset_at, reshaped, resolves, squeeze_fits, unravel,
};
use crate::matmul::MatMulView;
use crate::matrix::{DiagView, is_square};
use crate::metadata::{Encoded, keeps, metadata_fits, TensorMetadata};
use crate::reduce::ReduceView;
use crate::regions::is_index_key;
use crate::request::{request_coords, request_fits, Requested};
use crate::schema::{
    are_strides, grid_of, Layout, layout_fits, lemma_ceil_div, lemma_product_fits, product_fits,
    valid_dims,
};
use crate::selection::WhereView;
use crate::storage_read::{
    affine_at, all_resolve, block_of, Fault, has_fault, LogicalGroups, map_or_identity,
    mapped_offsets, place_of, plan_fault, StorageShape, stretch_fault, sum_fits,
};
use crate::tensor::{all_zero, TensorStorage, updated, updates_fit};
use crate::traits::{TensorGeometry, TensorTransform, TensorViewSemantics};
use crate::unary::UnaryView;
use crate::validate::{
    bound_fits, conformable, full_bounds, full_range_is_the_row_major_walk, product_shape,
    range_coords,
};
use crate::view::TensorView;
use crate::write::{key_of, sparse_written, Store};

verus! {

/// The rows of a sparse tensor are keyed by the index on its sparse axis, which is the first one
/// where the layout names none, and by the block.
pub proof fn rows_are_keyed_by_the_sparse_axis(storage: TensorStorage, coord: Seq<u64>)
    ensures
        key_of(storage, coord).len() == 2,
        match storage.spec_layout() {
            Layout::Sparse { axis: Some(axis) } => key_of(storage, coord)[0] == coord[axis as int],
            _ => key_of(storage, coord)[0] == coord[0],
        },
        key_of(storage, coord)[1] == block_of(
            coord,
            storage.spec_shape(),
            storage.spec_block_shape(),
        ) as u64,
{
}

/// A row is one of the index of a tensor if it has an index on the sparse axis and a block of the
/// grid.
pub proof fn rows_have_an_index_and_a_block(storage: TensorStorage, row: Seq<u64>)
    requires
        storage.wf(),
    ensures
        is_index_key(storage, row) <==> {
            &&& row.len() == 2
            &&& row[0] < match storage.spec_layout() {
                Layout::Sparse { axis: Some(axis) } => storage.spec_shape()[axis as int],
                _ => storage.spec_shape()[0],
            }
            &&& row[1] < volume(grid_of(storage.spec_shape(), storage.spec_block_shape()))
        },
{
}

/// A write to a sparse tensor touches no row but that of the element.
pub proof fn writes_leave_other_rows<T: TensorElement>(
    storage: TensorStorage,
    store: Store<T>,
    coord: Seq<u64>,
    value: T,
    fresh: u64,
)
    requires
        storage.wf(),
        storage.spec_layout() is Sparse,
    ensures
        ({
            let after = sparse_written(storage, store, coord, value, fresh);
            let key = key_of(storage, coord);
            &&& after.index.remove(key) == store.index.remove(key)
            &&& !value.spec_is_zero() ==> after.index.dom().contains(key)
            &&& value.spec_is_zero() && !store.index.dom().contains(key) ==> after == store
            &&& store.index.dom().contains(key) && after.index.dom().contains(key)
                ==> after.index[key] == store.index[key]
        }),
{
    crate::write::lemma_sparse_written(storage, store, coord, value, fresh);
    let after = sparse_written(storage, store, coord, value, fresh);
    let key = key_of(storage, coord);
    assert(after.index.remove(key) =~= store.index.remove(key));
}

/// The blocks of a grid just cover the tensor: with one block less along an axis, they would not.
pub proof fn grids_just_cover_the_tensor(shape: Seq<u64>, blocks: Seq<u64>, i: int)
    requires
        blocks.len() == shape.len(),
        all_positive(shape),
        all_positive(blocks),
        0 <= i < shape.len(),
    ensures
        grid_of(shape, blocks).len() == shape.len(),
        grid_of(shape, blocks)[i] * blocks[i] >= shape[i],
        (grid_of(shape, blocks)[i] - 1) * blocks[i] < shape[i],
{
    assert(shape[i] > 0 && blocks[i] > 0);
    lemma_ceil_div(shape[i] as int, blocks[i] as int);
}

/// Filling a tensor visits every coordinate of it, in row-major order.
pub proof fn fills_visit_every_coordinate(shape: Seq<u64>, k: int)
    requires
        valid_dims(shape),
        0 <= k < volume(shape),
    ensures
        range_coords(full_bounds(shape)).len() == volume(shape),
        in_box(range_coords(full_bounds(shape))[k], shape),
        position_of(range_coords(full_bounds(shape))[k], shape) == k,
{
    full_range_is_the_row_major_walk(shape);
    lemma_volume_positive(shape);
    lemma_coordinate_position(k, shape);
}

proof fn lemma_contiguous_at(map: Mapping, coord: Seq<u64>)
    requires
        contiguous(map),
        in_box(coord, map.shape),
    ensures
        offset_at(map, coord) == map.base + position_of(coord, map.shape),
{
    lemma_total_weighted(map.axes, coord, row_major_strides(map.shape));
    lemma_position_weighted(coord, map.shape);
}

/// A contiguous view has consecutive elements of the tensor at consecutive positions. The whole of
/// a tensor is contiguous, and so is what is reshaped.
pub proof fn contiguous_views_are_in_one_piece(
    map: Mapping,
    coord: Seq<u64>,
    shape: Seq<u64>,
    strides: Seq<u64>,
)
    requires
        contiguous(map),
        in_box(coord, map.shape),
        valid_dims(shape),
        volume(shape.skip(1)) <= u64::MAX,
        are_strides(strides, shape),
    ensures
        offset_at(map, coord) == map.base + position_of(coord, map.shape),
        contiguous(identity_map(shape, strides)),
        contiguous(reshaped(map, shape)),
{
    lemma_contiguous_at(map, coord);
    assert(identity_map(shape, strides).axes =~= contiguous_axes(shape)) by {
        assert forall|i: int| 0 <= i < shape.len() implies identity_map(shape, strides).axes[i]
            == contiguous_axes(shape)[i] by {
            assert(strides[i] == volume(shape.skip(i + 1)));
        }
    }
}

/// A view that is the tensor itself shows each element at its own coordinate, and the whole of a
/// tensor is such a view.
pub proof fn base_views_show_the_tensor_itself<B>(view: TensorView<B>, coord: Seq<u64>)
    ensures
        view.spec_is_base() && in_box(coord, view.spec_base_shape()) ==> view.places(coord) == seq![
            position_of(coord, view.spec_base_shape()),
        ],
        valid_dims(view.spec_base_shape()) && volume(view.spec_base_shape().skip(1)) <= u64::MAX
            && are_strides(view.spec_base_strides(), view.spec_base_shape())
            && view.spec_mapping() == identity_map(
            view.spec_base_shape(),
            view.spec_base_strides(),
        ) ==> view.spec_is_base(),
{
    let shape = view.spec_base_shape();
    let map = view.spec_mapping();
    if view.spec_is_base() && in_box(coord, shape) {
        lemma_contiguous_at(map, coord);
    }
    if are_strides(view.spec_base_strides(), shape) && map == identity_map(
        shape,
        view.spec_base_strides(),
    ) {
        assert(map.axes =~= contiguous_axes(shape)) by {
            assert forall|i: int| 0 <= i < shape.len() implies map.axes[i] == contiguous_axes(
                shape,
            )[i] by {
                assert(view.spec_base_strides()[i] == volume(shape.skip(i + 1)));
            }
        }
    }
}

/// The coordinate that an element of a view is resolved to is the one of the tensor that stands at
/// the place of the element.
pub proof fn resolved_coordinates_stand_at_the_place(
    map: Mapping,
    coord: Seq<u64>,
    shape: Seq<u64>,
    strides: Seq<u64>,
)
    requires
        are_strides(strides, shape),
        resolves(map, coord, shape, strides),
    ensures
        in_box(coord, map.shape),
        in_box(unravel(offset_at(map, coord), shape, strides), shape),
        position_of(unravel(offset_at(map, coord), shape, strides), shape) == offset_at(map, coord),
{
    lemma_volume_positive(shape);
    lemma_unravel(offset_at(map, coord), shape, strides);
    lemma_coordinate_position(offset_at(map, coord), shape);
}

/// Matrices can be multiplied if the rows of the left are as long as the columns of the right,
/// batch by batch. The product has the rows of the left and the columns of the right.
pub proof fn products_have_the_rows_and_columns(left: Seq<u64>, right: Seq<u64>)
    requires
        left.len() >= 2,
        right.len() >= 2,
    ensures
        conformable(left, right) <==> {
            &&& left.len() == right.len()
            &&& left[left.len() - 1] == right[right.len() - 2]
            &&& forall|i: int| 0 <= i < left.len() - 2 ==> left[i] == right[i]
        },
        conformable(left, right) ==> {
            let out = product_shape(left, right);
            &&& out.len() == left.len()
            &&& forall|i: int| 0 <= i < left.len() - 1 ==> out[i] == left[i]
            &&& out[out.len() - 1] == right[right.len() - 1]
        },
{
    let a = left.take(left.len() - 2);
    let b = right.take(right.len() - 2);
    if conformable(left, right) {
        assert(a.len() == b.len());
        assert forall|i: int| 0 <= i < left.len() - 2 implies left[i] == right[i] by {
            assert(a[i] == b[i]);
        }
    }
    if left.len() == right.len() && forall|i: int| 0 <= i < left.len() - 2 ==> left[i] == right[i] {
        assert(a =~= b);
    }
}

/// Updates of a block are applied in order: a place has the value of the last update for it, or
/// what it had if there is none. A block is empty if all of it is zero.
pub proof fn the_last_update_of_a_place_stays<T: TensorElement>(
    block: Seq<T>,
    updates: Seq<(usize, usize, T)>,
    place: int,
)
    requires
        updates_fit(updates, block.len() as int),
        0 <= place < block.len(),
    ensures
        updated(block, updates).len() == block.len(),
        (forall|j: int| 0 <= j < updates.len() ==> (#[trigger] updates[j]).1 != place) ==> updated(
            block,
            updates,
        )[place] == block[place],
        forall|k: int|
            0 <= k < updates.len() && (#[trigger] updates[k]).1 == place && (forall|j: int|
                k < j < updates.len() ==> (#[trigger] updates[j]).1 != place) ==> updated(
                block,
                updates,
            )[place] == updates[k].2,
        all_zero(block) ==> block[place].spec_is_zero(),
        !all_zero(block) ==> exists|i: int|
            0 <= i < block.len() && !(#[trigger] block[i]).spec_is_zero(),
    decreases updates.len(),
{
    if updates.len() > 0 {
        let n = updates.len() - 1;
        let init = updates.drop_last();
        assert(updates[n].1 < block.len());
        assert forall|j: int| 0 <= j < init.len() implies (#[trigger] init[j]).1 < block.len() by {
            assert(updates[j].1 < block.len());
        }
        the_last_update_of_a_place_stays(block, init, place);
        assert(updates.last() == updates[n]);
        if updates[n].1 != place {
            if forall|j: int| 0 <= j < updates.len() ==> (#[trigger] updates[j]).1 != place {
                assert forall|j: int| 0 <= j < init.len() implies (#[trigger] init[j]).1
                    != place by {
                    assert(updates[j].1 != place);
                }
            }
            assert forall|k: int|
                0 <= k < updates.len() && (#[trigger] updates[k]).1 == place && (forall|j: int|
                    k < j < updates.len() ==> (#[trigger] updates[j]).1
                        != place) implies updated(block, updates)[place] == updates[k].2 by {
                assert(init[k] == updates[k]);
                assert forall|j: int| k < j < init.len() implies (#[trigger] init[j]).1
                    != place by {
                    assert(updates[j].1 != place);
                }
            }
        } else {
            assert forall|k: int|
                0 <= k < updates.len() && (#[trigger] updates[k]).1 == place && (forall|j: int|
                    k < j < updates.len() ==> (#[trigger] updates[j]).1
                        != place) implies updated(block, updates)[place] == updates[k].2 by {
                if k < n {
                    assert(updates[n].1 != place);
                }
            }
        }
    }
}

/// One step along an axis moves the position by the stride of the axis.
pub proof fn strides_are_what_a_step_moves(
    shape: Seq<u64>,
    strides: Seq<u64>,
    coord: Seq<u64>,
    axis: int,
)
    requires
        are_strides(strides, shape),
        in_box(coord, shape),
        0 <= axis < shape.len(),
        coord[axis] + 1 < shape[axis],
    ensures
        strides.len() == shape.len(),
        position_of(coord.update(axis, (coord[axis] + 1) as u64), shape) == position_of(
            coord,
            shape,
        ) + strides[axis],
{
    lemma_position_update(coord, shape, axis, (coord[axis] + 1) as u64);
    assert(strides[axis] == volume(shape.skip(axis + 1)));
    let v = volume(shape.skip(axis + 1));
    let next = (coord[axis] + 1) as u64;
    assert(next - coord[axis] == 1);
    assert(1 * v == v);
}

/// Bytes are elements: zero is their only zero, and their sum is the sum but for a multiple of 256.
pub proof fn bytes_are_elements(left: u8, right: u8)
    ensures
        u8::spec_zero() == 0,
        left.spec_is_zero() <==> left == 0,
        is_congruent(left.spec_sum(right) as int, left + right),
{
    let s = left + right;
    vstd::arithmetic::div_mod::lemma_fundamental_div_mod(s, 256);
    assert(left.spec_sum(right) - s == (-(s / 256)) * 256);
}

/// A bound lies within a dimension if each index it selects does, and, for a range, if it steps on
/// and its ends are in order and within the dimension.
pub proof fn bounds_lie_within_the_dimension(bound: Bound, dim: u64)
    ensures
        bound_fits(bound, dim) <==> match bound {
            Bound::At(index) => index < dim,
            Bound::In(start, stop, step) => 0 < step && start <= stop && stop <= dim,
            Bound::Of(indices) => forall|index: u64| #[trigger]
                indices.contains(index) ==> index < dim,
        },
{
    if let Bound::Of(indices) = bound {
        if forall|index: u64| #[trigger] indices.contains(index) ==> index < dim {
            assert forall|i: int| 0 <= i < indices.len() implies #[trigger] indices[i] < dim by {
                assert(indices.contains(indices[i]));
            }
        }
    }
}

/// Axes can be squeezed if they are some, but not all, are named once, and have a single index. A
/// layout can name any axis, and matrices are square if their last two dimensions are one.
pub proof fn squeezes_need_axes_of_one_index(shape: Seq<u64>, axes: Seq<usize>, layout: Layout)
    ensures
        squeeze_fits(shape, axes) <==> {
            &&& 0 < axes.len()
            &&& axes.len() != shape.len()
            &&& axes.no_duplicates()
            &&& forall|axis: usize| #[trigger]
                axes.contains(axis) ==> axis < shape.len() && shape[axis as int] == 1
        },
        layout_fits(layout, shape.len()) <==> match layout {
            Layout::Sparse { axis: Some(axis) } => axis < shape.len(),
            _ => true,
        },
        is_square(shape) <==> shape.len() >= 2 && shape[shape.len() - 1] == shape[shape.len() - 2],
{
    if squeeze_fits(shape, axes) {
        assert forall|axis: usize| #[trigger] axes.contains(axis) implies axis < shape.len()
            && shape[axis as int] == 1 by {
            let i = choose|i: int| 0 <= i < axes.len() && axes[i] == axis;
            assert(axes[i] < shape.len());
            assert(shape[axes[i] as int] == 1);
        }
    }
    if axes.no_duplicates() && forall|axis: usize| #[trigger]
        axes.contains(axis) ==> axis < shape.len() && shape[axis as int] == 1 {
        assert forall|i: int| 0 <= i < axes.len() implies #[trigger] axes[i] < shape.len()
            && shape[axes[i] as int] == 1 by {
            assert(axes.contains(axes[i]));
        }
    }
}

/// What is kept of a tensor are its shape, whether it is sparse and by which axis, and the shape of
/// its blocks.
pub proof fn metadata_are_kept_part_by_part<T>(encoded: Encoded, metadata: TensorMetadata<T>)
    requires
        keeps(encoded, metadata),
    ensures
        encoded.0@ == metadata.spec_shape(),
        encoded.1 <==> metadata.spec_layout() is Sparse,
        match metadata.spec_layout() {
            Layout::Sparse { axis: Some(axis) } => encoded.2 == Some(axis as u64),
            _ => encoded.2 is None,
        },
        encoded.3@ == metadata.spec_block_shape(),
{
}

/// Metadata are accepted if the tensor has elements and strides, and blocks of as many axes hold at
/// least one element and no more than a block may, and if the layout names no axis that is not
/// there.
pub proof fn metadata_are_accepted_for_bounded_blocks(
    shape: Seq<u64>,
    layout: Layout,
    blocks: Seq<u64>,
)
    ensures
        metadata_fits(shape, layout, blocks) <==> {
            &&& shape.len() > 0
            &&& forall|i: int| 0 <= i < shape.len() ==> #[trigger] shape[i] > 0
            &&& volume(shape.skip(1)) <= u64::MAX
            &&& blocks.len() == shape.len()
            &&& forall|i: int| 0 <= i < blocks.len() ==> #[trigger] blocks[i] > 0
            &&& volume(blocks) <= 4096
            &&& !has_hint(layout) || layout->Sparse_axis->0 < shape.len()
        },
{
    lemma_volume_positive(blocks);
    if all_positive(blocks) {
        lemma_product_fits(blocks);
    }
}

/// Computed views are no tensors, and refuse writes.
pub proof fn computed_views_refuse_writes<L: TensorGeometry, R: TensorGeometry, C: TensorGeometry, O>(
    unary: UnaryView<L, O>,
    binary: BinaryView<L, R, O>,
    selection: WhereView<C, L, R>,
    reduction: ReduceView<L, O>,
    product: MatMulView<L, R>,
    diagonal: DiagView<L>,
)
    ensures
        !unary.spec_writes_through() && !unary.spec_is_base(),
        !binary.spec_writes_through() && !binary.spec_is_base(),
        !selection.spec_writes_through() && !selection.spec_is_base(),
        !reduction.spec_writes_through() && !reduction.spec_is_base(),
        !product.spec_writes_through() && !product.spec_is_base(),
        !diagonal.spec_writes_through() && !diagonal.spec_is_base(),
{
}

/// A request that is not one of the view is refused for its coordinates, or for a shape that cannot
/// be counted; one that lists coordinates of a view is refused for its coordinates if one of them
/// has no place in the tensor, and planned otherwise.
pub proof fn plans_refuse_what_is_not_there(
    storage: StorageShape<'_>,
    request: Requested,
    mapping: Option<&CoordinateMap>,
    result: Result<LogicalGroups>,
)
    requires
        has_fault(result, plan_fault(storage, request, mapping)),
    ensures
        ({
            let map = map_or_identity(mapping, storage.shape@, storage.strides@);
            let counted = request is Linear ==> product_fits(map.shape);
            &&& !counted ==> (result matches Err(Error::InvalidSchema(_)))
            &&& counted && !request_fits(request, map.shape) ==> (result matches Err(
                Error::InvalidCoord(_),
            ))
            &&& request matches Requested::Explicit(coords) ==> request_fits(request, map.shape)
                ==> {
                let there = mapping is None || forall|o: int|
                    0 <= o < coords.len() ==> resolves(
                        map,
                        #[trigger] coords[o],
                        storage.shape@,
                        storage.strides@,
                    );
                &&& there ==> result is Ok
                &&& !there ==> (result matches Err(Error::InvalidCoord(_)))
            }
        }),
{
    let map = map_or_identity(mapping, storage.shape@, storage.strides@);
    if let Requested::Explicit(coords) = request {
        assert(request_coords(request, map.shape) == coords);
        assert(all_resolve(map, coords, storage.shape@, storage.strides@) <==> forall|o: int|
            0 <= o < coords.len() ==> resolves(
                map,
                #[trigger] coords[o],
                storage.shape@,
                storage.strides@,
            ));
    }
}

/// Offsets at a constant step are refused for their coordinates if the first or the last one is not
/// that of an element, and as not computable if the arithmetic leaves its range.
pub proof fn stretches_refuse_what_is_not_there(
    storage: StorageShape<'_>,
    offset: int,
    weights: Seq<int>,
    coord: Seq<u64>,
    step: int,
    len: int,
)
    requires
        storage.wf(),
        len > 0,
        volume(storage.shape@) <= u64::MAX,
    ensures
        ({
            let fault = stretch_fault(storage, offset, weights, coord, step, len);
            let first = affine_at(offset, weights, coord);
            let last = first + step * (len - 1);
            let size = volume(storage.shape@);
            &&& fault is None ==> 0 <= first < size && 0 <= last < size
            &&& fault == Some(Fault::Coord) ==> !(0 <= first < size) || !(0 <= last < size)
            &&& fault == Some(Fault::Layout) ==> !(sum_fits(offset, weights, coord) && fits(step)
                && fits(step * (len - 1)) && fits(last))
            &&& fault != Some(Fault::Schema)
        }),
{
}

/// An elementwise view has the layout of its source. A view of several sources is sparse if all
/// are, and a reduction or a diagonal if its source is, each without a hint of an axis.
pub proof fn computed_views_have_the_layout_of_their_sources<
    L: TensorGeometry,
    R: TensorGeometry,
    C: TensorGeometry,
    O,
>(
    unary: UnaryView<L, O>,
    binary: BinaryView<L, R, O>,
    selection: WhereView<C, L, R>,
    reduction: ReduceView<L, O>,
    product: MatMulView<L, R>,
    diagonal: DiagView<L>,
)
    ensures
        unary.spec_layout() == unary.spec_source().spec_layout(),
        binary.spec_layout() is Sparse <==> binary.spec_left().spec_layout() is Sparse
            && binary.spec_right().spec_layout() is Sparse,
        selection.spec_layout() is Sparse <==> selection.spec_condition().spec_layout() is Sparse
            && selection.spec_taken().spec_layout() is Sparse
            && selection.spec_or_else().spec_layout() is Sparse,
        reduction.spec_layout() is Sparse <==> reduction.spec_source().spec_layout() is Sparse,
        product.spec_layout() is Sparse <==> product.spec_left().spec_layout() is Sparse
            && product.spec_right().spec_layout() is Sparse,
        diagonal.spec_layout() is Sparse <==> diagonal.spec_source().spec_layout() is Sparse,
        !has_hint(binary.spec_layout()),
        !has_hint(selection.spec_layout()),
        !has_hint(reduction.spec_layout()),
        !has_hint(product.spec_layout()),
        !has_hint(diagonal.spec_layout()),
{
}

/// The layout names an axis.
pub open spec fn has_hint(layout: Layout) -> bool {
    layout matches Layout::Sparse { axis: Some(_) }
}

/// An elementwise view has the shape of its sources, and takes every element from the same
/// coordinate of each.
pub proof fn elementwise_views_take_the_same_coordinate<
    L: TensorTransform,
    R: TensorTransform,
    C: TensorTransform,
    O,
>(
    unary: UnaryView<L, O>,
    binary: BinaryView<L, R, O>,
    selection: WhereView<C, L, R>,
    coord: Seq<u64>,
)
    ensures
        unary.spec_shape() == unary.spec_source().spec_shape(),
        unary.places(coord) == unary.spec_source().places(coord),
        binary.inv() ==> binary.spec_shape() == binary.spec_left().spec_shape()
            && binary.spec_shape() == binary.spec_right().spec_shape(),
        binary.places(coord) == binary.spec_left().places(coord) + binary.spec_right().places(
            coord,
        ),
        selection.inv() ==> selection.spec_shape() == selection.spec_condition().spec_shape()
            && selection.spec_shape() == selection.spec_taken().spec_shape()
            && selection.spec_shape() == selection.spec_or_else().spec_shape(),
        selection.places(coord) == selection.spec_condition().places(coord)
            + selection.spec_taken().places(coord) + selection.spec_or_else().places(coord),
{
}

/// What a plan reads for a request of a view are the elements of the tensor at the places of the
/// view, one for each requested coordinate and in their order.
pub proof fn plans_read_the_places_of_the_view<B>(
    view: TensorView<B>,
    coords: Seq<Seq<u64>>,
    storage: StorageShape<'_>,
    o: int,
)
    requires
        storage.wf(),
        0 <= o < coords.len(),
        0 <= view.places(coords[o])[0] < volume(storage.shape@),
    ensures
        ({
            let offsets = mapped_offsets(view.spec_mapping(), coords);
            let at = coordinate_at(offsets[o], storage.shape@);
            &&& offsets.len() == coords.len()
            &&& offsets[o] == view.places(coords[o])[0]
            &&& storage.addresses_at(offsets).len() == coords.len()
            &&& in_box(at, storage.shape@)
            &&& position_of(at, storage.shape@) == view.places(coords[o])[0]
            &&& storage.addresses_at(offsets)[o].place == place_of(at, storage.block_shape@)
            &&& storage.addresses_at(offsets)[o].key[1] == block_of(
                at,
                storage.shape@,
                storage.block_shape@,
            ) as u64
            &&& storage.sparse_axis matches Some(axis) ==> storage.addresses_at(offsets)[o].key[0]
                == at[axis as int]
        }),
{
    let offsets = mapped_offsets(view.spec_mapping(), coords);
    lemma_coordinate_position(offsets[o], storage.shape@);
}

/// A reader of a reduction reads the groups of the requested elements, one for each and in their
/// order.
pub proof fn readers_read_the_groups_of_their_request<S: TensorGeometry, O>(
    reader: GroupReader<'_, S, O>,
    o: int,
)
    requires
        0 <= o < request_coords(reader.spec_request(), reader.spec_view().spec_shape()).len(),
    ensures
        reader.coords() == request_coords(reader.spec_request(), reader.spec_view().spec_shape()),
        reader.groups().len() == reader.coords().len(),
        reader.groups()[o] == reader.spec_view().spec_group(reader.coords()[o]),
{
}

} // verus!
