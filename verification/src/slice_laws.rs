//! That a slice of a sparse tensor that is read by the rows of the index misses nothing.

use vstd::prelude::*;
use crate::geometry::{
    all_positive, in_box, lemma_coordinate_position, lemma_position_coordinate, position_of,
};
use crate::mapping::{
    followed, followed_axes, lemma_unravel, Mapping, mapping_wf, offset_at, origin_of, resolves,
    total,
};
use crate::occupied::{key_coords, keys_agree, keys_coords, Sliced};
use crate::regions::{key_agrees, kept_rows, rows_behind};
use crate::request::{axes_fit, axis_fits, axis_len, box_coords, lemma_axis_at, lens_fit, Selection};
use crate::slice::axis_values;
use crate::slice_plan::{
    axis_inside, followed_by, follows_inside, lemma_followed_inside, lemma_located,
    lemma_value_member, rows_name_the_elements_of_a_slice, slices_hold_their_numbers, spans_axis,
    spans_values, viewed_shape,
};
use crate::tensor::{sparse_axis, TensorStorage};
use crate::transform_laws::{following_views_step_along_axes, located};
use crate::write::key_of;

verus! {

proof fn lemma_no_total(map: Mapping, shape: Seq<u64>, strides: Seq<u64>, origins: Seq<u64>, n: nat)
    requires
        n <= map.axes.len(),
        followed_axes(map, shape, strides, origins, n) is Some,
    ensures
        total(map.axes.take(n as int), origin_of(n)) == 0,
    decreases n,
{
    if n > 0 {
        let m = (n - 1) as nat;
        lemma_no_total(map, shape, strides, origins, m);
        assert(map.axes.take(n as int).drop_last() =~= map.axes.take(m as int));
        assert(origin_of(n).drop_last() =~= origin_of(m));
        assert(map.axes[m as int] is Stride);
        let stride = map.axes[m as int]->Stride_0;
        assert(stride * 0 == 0);
    }
}

proof fn lemma_identity_located(shape: Seq<u64>, coord: Seq<u64>, n: int)
    requires
        shape.len() <= usize::MAX,
        coord.len() == shape.len(),
        0 <= n <= shape.len(),
    ensures
        ({
            let axes = Seq::new(shape.len(), |i: int| (i as usize, 1u64));
            let at = located(origin_of(shape.len()), axes.take(n), coord.take(n));
            &&& at.len() == shape.len()
            &&& forall|i: int|
                0 <= i < shape.len() ==> #[trigger] at[i] == if i < n {
                    coord[i]
                } else {
                    0
                }
        }),
    decreases n,
{
    let axes = Seq::new(shape.len(), |i: int| (i as usize, 1u64));
    if n > 0 {
        lemma_identity_located(shape, coord, n - 1);
        assert(axes.take(n).drop_last() =~= axes.take(n - 1));
        assert(coord.take(n).drop_last() =~= coord.take(n - 1));
        assert(axes.take(n).last() == ((n - 1) as usize, 1u64));
        assert(1 * coord[n - 1] == coord[n - 1]);
    }
}

/// Where an element of the view stands in the tensor.
proof fn lemma_shown(storage: TensorStorage, mapping: Option<Mapping>, coord: Seq<u64>, at: Seq<u64>)
    requires
        storage.wf(),
        storage.spec_shape().len() <= usize::MAX,
        mapping matches Some(map) ==> mapping_wf(map) && all_positive(map.shape) && resolves(
            map,
            origin_of(map.shape.len()),
            storage.spec_shape(),
            storage.spec_strides(),
        ),
        followed_by(storage, mapping).1 is Some,
        in_box(coord, viewed_shape(storage, mapping)),
        in_box(at, storage.spec_shape()),
        position_of(at, storage.spec_shape()) == match mapping {
            Some(map) => offset_at(map, coord),
            None => position_of(coord, storage.spec_shape()),
        },
    ensures
        ({
            let (origins, axes) = followed_by(storage, mapping);
            &&& follows_inside(
                origins,
                axes->0,
                viewed_shape(storage, mapping),
                storage.spec_shape(),
            )
            &&& located(origins, axes->0, coord) == at
        }),
{
    storage.lemma_wf();
    let shape = storage.spec_shape();
    let strides = storage.spec_strides();
    let (origins, followed) = followed_by(storage, mapping);
    let axes = followed->0;
    lemma_position_coordinate(at, shape);
    match mapping {
        Some(map) => {
            let n = map.axes.len();
            let start = offset_at(map, origin_of(map.shape.len()));
            lemma_unravel(start, shape, strides);
            lemma_coordinate_position(start, shape);
            lemma_followed_inside(map, shape, strides, origins, n);
            assert(map.shape.take(n as int) =~= map.shape);
            assert(map.axes.take(n as int) =~= map.axes);
            following_views_step_along_axes(map, shape, strides, origins, n, coord);
            lemma_no_total(map, shape, strides, origins, n);
            lemma_position_coordinate(located(origins, axes, coord), shape);
        },
        None => {
            let n = shape.len() as int;
            lemma_identity_located(shape, coord, n);
            assert(axes.take(n) =~= axes);
            assert(coord.take(n) =~= coord);
            lemma_position_coordinate(coord, shape);
            assert(located(origins, axes, coord) =~= coord);
            assert forall|i: int| 0 <= i < axes.len() implies axis_inside(
                #[trigger] axes[i],
                origins,
                shape[i],
                shape,
            ) by {
                assert(shape[i] > 0);
                assert(axes[i] == (i as usize, 1u64));
                assert(i as usize == i);
            }
            assert forall|i: int| 0 <= i < shape.len() implies #[trigger] origins[i] < shape[i] by {
                assert(shape[i] > 0);
            }
        },
    }
}

proof fn lemma_keys_member(sliced: Sliced, keys: Seq<Seq<u64>>, coord: Seq<u64>)
    ensures
        keys_coords(sliced, keys).contains(coord) <==> exists|k: int|
            0 <= k < keys.len() && key_coords(sliced, #[trigger] keys[k]).contains(coord),
    decreases keys.len(),
{
    if keys.len() > 0 {
        let init = keys.drop_last();
        let before = keys_coords(sliced, init);
        let more = key_coords(sliced, keys.last());
        let all = before + more;
        lemma_keys_member(sliced, init, coord);
        if all.contains(coord) {
            let p = choose|p: int| 0 <= p < all.len() && all[p] == coord;
            if p < before.len() {
                assert(before[p] == coord);
                let k = choose|k: int|
                    0 <= k < init.len() && key_coords(sliced, #[trigger] init[k]).contains(coord);
                assert(keys[k] == init[k]);
            } else {
                assert(more[p - before.len()] == coord);
                assert(keys[keys.len() - 1] == keys.last());
            }
        }
        if exists|k: int|
            0 <= k < keys.len() && key_coords(sliced, #[trigger] keys[k]).contains(coord) {
            let k = choose|k: int|
                0 <= k < keys.len() && key_coords(sliced, #[trigger] keys[k]).contains(coord);
            if k < init.len() {
                assert(init[k] == keys[k]);
                let p = choose|p: int| 0 <= p < before.len() && before[p] == coord;
                assert(all[p] == coord);
            } else {
                let p = choose|p: int| 0 <= p < more.len() && more[p] == coord;
                assert(all[before.len() + p] == coord);
            }
        }
    }
}

proof fn lemma_kept_member(
    rows: Seq<Seq<u64>>,
    condition: spec_fn(Seq<u64>) -> bool,
    key: Seq<u64>,
)
    ensures
        kept_rows(rows, condition).contains(key) <==> rows.contains(key) && condition(key),
    decreases rows.len(),
{
    if rows.len() > 0 {
        let init = rows.drop_last();
        let before = kept_rows(init, condition);
        let all = kept_rows(rows, condition);
        lemma_kept_member(init, condition, key);
        if all.contains(key) {
            let p = choose|p: int| 0 <= p < all.len() && all[p] == key;
            if p < before.len() {
                assert(before[p] == key);
                let i = choose|i: int| 0 <= i < init.len() && init[i] == key;
                assert(rows[i] == key);
            } else {
                assert(rows[rows.len() - 1] == key);
            }
        }
        if rows.contains(key) && condition(key) {
            let i = choose|i: int| 0 <= i < rows.len() && rows[i] == key;
            if i < init.len() {
                assert(init[i] == key);
                let p = choose|p: int| 0 <= p < before.len() && before[p] == key;
                assert(all[p] == key);
            } else {
                assert(all[before.len() as int] == key);
            }
        }
    }
}

/// An element of a slice of a view is named by the rows of the index between the two indices of the
/// slice exactly if the index has the row of the element of the tensor that the view shows there.
/// So a slice that is read by rows leaves out no element that is stored, and names no other.
pub proof fn slices_by_rows_name_what_is_stored(
    storage: TensorStorage,
    mapping: Option<Mapping>,
    axes: Seq<Selection>,
    lo: u64,
    hi: u64,
    rows: Seq<Seq<u64>>,
    coord: Seq<u64>,
    at: Seq<u64>,
)
    requires
        storage.wf(),
        storage.is_countable(),
        storage.spec_layout() is Sparse,
        storage.spec_shape().len() <= usize::MAX,
        mapping matches Some(map) ==> mapping_wf(map) && all_positive(map.shape) && resolves(
            map,
            origin_of(map.shape.len()),
            storage.spec_shape(),
            storage.spec_strides(),
        ),
        followed_by(storage, mapping).1 is Some,
        axes_fit(axes, viewed_shape(storage, mapping)),
        lens_fit(axes),
        spans_axis(
            followed_by(storage, mapping).0,
            followed_by(storage, mapping).1->0,
            axes,
            sparse_axis(storage.spec_layout()) as int,
            lo,
            hi,
        ),
        forall|k: int|
            0 <= k < rows.len() ==> (#[trigger] rows[k]).len() == 2 && rows[k][1]
                < storage.spec_num_blocks(),
        keys_agree(storage, rows),
        in_box(coord, viewed_shape(storage, mapping)),
        in_box(at, storage.spec_shape()),
        position_of(at, storage.spec_shape()) == match mapping {
            Some(map) => offset_at(map, coord),
            None => position_of(coord, storage.spec_shape()),
        },
    ensures
        ({
            let sliced = Sliced {
                storage,
                axes,
                origins: followed_by(storage, mapping).0,
                followed: followed_by(storage, mapping).1->0,
            };
            keys_coords(sliced, rows_behind(rows, None, lo, hi)).contains(coord) <==> {
                &&& box_coords(axes).contains(coord)
                &&& rows.contains(key_of(storage, at))
            }
        }),
{
    let (origins, found) = followed_by(storage, mapping);
    let followed = found->0;
    let dims = viewed_shape(storage, mapping);
    let sliced = Sliced { storage, axes, origins, followed };
    let condition = |key: Seq<u64>| crate::regions::is_behind(None, lo, hi, key);
    let read = rows_behind(rows, None, lo, hi);
    let key = key_of(storage, at);
    lemma_shown(storage, mapping, coord, at);
    slices_hold_their_numbers(axes, dims);
    lemma_keys_member(sliced, read, coord);
    lemma_kept_member(rows, condition, key);
    if keys_coords(sliced, read).contains(coord) {
        let k = choose|k: int|
            0 <= k < read.len() && key_coords(sliced, #[trigger] read[k]).contains(coord);
        assert(read.contains(read[k]));
        lemma_kept_member(rows, condition, read[k]);
        let j = choose|j: int| 0 <= j < rows.len() && rows[j] == read[k];
        assert(key_agrees(storage, rows[j]));
        rows_name_the_elements_of_a_slice(sliced, dims, read[k], coord);
        assert(rows.contains(key));
    }
    if box_coords(axes).contains(coord) && rows.contains(key) {
        let j = choose|j: int| 0 <= j < rows.len() && rows[j] == key;
        assert(key_agrees(storage, rows[j]));
        rows_name_the_elements_of_a_slice(sliced, dims, key, coord);
        assert(lo <= key[0] <= hi) by {
            lemma_between(storage, mapping, axes, lo, hi, coord, at);
        }
        assert(read.contains(key));
        let k = choose|k: int| 0 <= k < read.len() && read[k] == key;
        assert(key_coords(sliced, read[k]).contains(coord));
    }
}

/// The row of an element of a slice lies between the two indices of the slice.
proof fn lemma_between(
    storage: TensorStorage,
    mapping: Option<Mapping>,
    axes: Seq<Selection>,
    lo: u64,
    hi: u64,
    coord: Seq<u64>,
    at: Seq<u64>,
)
    requires
        storage.wf(),
        followed_by(storage, mapping).1 is Some,
        follows_inside(
            followed_by(storage, mapping).0,
            followed_by(storage, mapping).1->0,
            viewed_shape(storage, mapping),
            storage.spec_shape(),
        ),
        located(followed_by(storage, mapping).0, followed_by(storage, mapping).1->0, coord) == at,
        axes_fit(axes, viewed_shape(storage, mapping)),
        lens_fit(axes),
        spans_axis(
            followed_by(storage, mapping).0,
            followed_by(storage, mapping).1->0,
            axes,
            sparse_axis(storage.spec_layout()) as int,
            lo,
            hi,
        ),
        in_box(coord, viewed_shape(storage, mapping)),
        box_coords(axes).contains(coord),
    ensures
        lo <= at[sparse_axis(storage.spec_layout()) as int] <= hi,
{
    storage.lemma_wf();
    let (origins, found) = followed_by(storage, mapping);
    let follows = found->0;
    let dims = viewed_shape(storage, mapping);
    let shape = storage.spec_shape();
    let base = sparse_axis(storage.spec_layout()) as int;
    assert forall|i: int| 0 <= i < follows.len() implies (#[trigger] follows[i]).0 < shape.len()
        && origins[follows[i].0 as int] + follows[i].1 * coord[i]
        < shape[follows[i].0 as int] by {
        assert(axis_inside(follows[i], origins, dims[i], shape));
        assert(coord[i] < dims[i]);
        assert(follows[i].1 * coord[i] <= follows[i].1 * (dims[i] - 1)) by (nonlinear_arith)
            requires
                coord[i] <= dims[i] - 1,
                follows[i].1 >= 0,
        ;
    }
    lemma_located(origins, follows, coord, shape);
    slices_hold_their_numbers(axes, dims);
    let numbers = Seq::new(axes.len(), |i: int| axis_values(axes[i]));
    assert forall|i: int| 0 <= i < numbers.len() implies (#[trigger] numbers[i]).len()
        <= u64::MAX by {
        assert(axis_len(axes[i]) <= u64::MAX);
    }
    assert forall|i: int, j: int|
        #![trigger numbers[i][j]]
        0 <= i < numbers.len() && 0 <= j < numbers[i].len() implies 0 <= numbers[i][j]
        <= u64::MAX by {
        assert(axis_fits(axes[i], dims[i]));
        lemma_axis_at(axes[i], dims[i], j);
    }
    lemma_value_member(numbers, coord);
    if followed(follows, base) {
        let i = choose|i: int| 0 <= i < follows.len() && (#[trigger] follows[i]).0 == base;
        assert(numbers[i].contains(coord[i] as int));
        let values = axis_values(axes[i]);
        let k = choose|k: int| 0 <= k < values.len() && values[k] == coord[i];
        assert(spans_values(
            origins[base] as int,
            follows[i].1 as int,
            values,
            lo as int,
            hi as int,
        ));
        assert(lo <= origins[base] + follows[i].1 * values[k] <= hi);
    } else {
        assert(at[base] == origins[base]);
    }
}

} // verus!
