//! Where the elements of a transformed view come from.

use vstd::prelude::*;
use crate::geometry::{
    all_positive, coordinate_at, in_box, lemma_coordinate_position, lemma_position_bound,
    lemma_position_coordinate, position_of, volume,
};
use crate::inline::Bound;
use crate::mapping::{
    bound_arith_fits, broadcast_fits, broadcasted, contiguous, flipped, is_permutation, kept,
    lens_known, Mapping, mapping_wf, marks, offset_at, reshaped, reshaping_keeps_positions,
    slice_fits, slice_shape, sliced, spread, squeeze_fits, squeezed, transposed, unsqueezed,
    unsqueezed_shape,
};
use crate::room::{
    flips_stay_in_range, lemma_broadcasted_room, lemma_reshaped_room, lemma_transposed_room,
    lemma_unsqueezed_room, map_room, sliced_room, slices_stay_in_range, squeezed_room,
    squeezes_stay_in_range, steps_at_most,
};
use crate::schema::valid_dims;
use crate::transform_laws::{
    broadcasting_repeats_elements, expand, flipping_mirrors_an_axis, lemma_spread, narrow,
    slicing_selects_elements, spreads, squeezing_keeps_elements, transposing_moves_components,
    unspread, unsqueezing_keeps_contiguity, unsqueezing_keeps_elements, widen,
};
use crate::validate::{bound_fits, range_fits};

verus! {

/// The coordinate at the same position of another shape.
pub open spec fn regrouped(from: Seq<u64>, to: Seq<u64>, coord: Seq<u64>) -> Seq<u64> {
    coordinate_at(position_of(coord, to), from)
}

/// The coordinate counted from the other end of an axis.
pub open spec fn mirrored(shape: Seq<u64>, axis: int, coord: Seq<u64>) -> Seq<u64> {
    coord.update(axis, (shape[axis] - 1 - coord[axis]) as u64)
}

/// Where a permutation has an axis.
pub open spec fn place_in(permutation: Seq<usize>, axis: int) -> int {
    choose|i: int| 0 <= i < permutation.len() && #[trigger] permutation[i] == axis
}

/// The coordinate with its axes put back in order.
pub open spec fn unpermuted(permutation: Seq<usize>, coord: Seq<u64>) -> Seq<u64> {
    Seq::new(permutation.len(), |j: int| coord[place_in(permutation, j)])
}

/// The shape with its axes in another order.
pub open spec fn permuted_shape(permutation: Seq<usize>, shape: Seq<u64>) -> Seq<u64> {
    Seq::new(permutation.len(), |i: int| shape[permutation[i] as int])
}

/// A reshaped view takes every element from the same position.
pub proof fn lemma_reshape_places(map: Mapping, shape: Seq<u64>)
    requires
        contiguous(map),
        valid_dims(shape),
        volume(shape) == volume(map.shape),
    ensures
        forall|coord: Seq<u64>|
            in_box(coord, shape) ==> in_box(#[trigger] regrouped(map.shape, shape, coord), map.shape)
                && offset_at(reshaped(map, shape), coord) == offset_at(
                map,
                regrouped(map.shape, shape, coord),
            ),
        forall|n: int| #[trigger]
            map_room(map, n) && volume(shape) <= n ==> map_room(reshaped(map, shape), n),
{
    assert forall|coord: Seq<u64>| in_box(coord, shape) implies in_box(
        #[trigger] regrouped(map.shape, shape, coord),
        map.shape,
    ) && offset_at(reshaped(map, shape), coord) == offset_at(
        map,
        regrouped(map.shape, shape, coord),
    ) by {
        let k = position_of(coord, shape);
        lemma_position_bound(coord, shape);
        lemma_position_coordinate(coord, shape);
        reshaping_keeps_positions(map, shape, k);
        lemma_coordinate_position(k, map.shape);
    }
    assert forall|n: int| #[trigger] map_room(map, n) && volume(shape) <= n implies map_room(
        reshaped(map, shape),
        n,
    ) by {
        lemma_reshaped_room(map, shape, n);
    }
}

/// A view with its axes permuted takes every element from the coordinate put back in order.
pub proof fn lemma_transpose_places(map: Mapping, permutation: Seq<usize>)
    requires
        mapping_wf(map),
        map.shape.len() <= usize::MAX,
        is_permutation(permutation, map.shape.len()),
    ensures
        transposed(map, permutation).shape == permuted_shape(permutation, map.shape),
        forall|coord: Seq<u64>|
            in_box(coord, permuted_shape(permutation, map.shape)) ==> in_box(
                #[trigger] unpermuted(permutation, coord),
                map.shape,
            ) && offset_at(transposed(map, permutation), coord) == offset_at(
                map,
                unpermuted(permutation, coord),
            ),
        forall|n: int| #[trigger]
            map_room(map, n) ==> map_room(transposed(map, permutation), n),
{
    let n = map.shape.len();
    assert(transposed(map, permutation).shape =~= permuted_shape(permutation, map.shape));
    assert forall|coord: Seq<u64>| in_box(coord, permuted_shape(permutation, map.shape)) implies in_box(
        #[trigger] unpermuted(permutation, coord),
        map.shape,
    ) && offset_at(transposed(map, permutation), coord) == offset_at(
        map,
        unpermuted(permutation, coord),
    ) by {
        let back = unpermuted(permutation, coord);
        assert forall|i: int| 0 <= i < permutation.len() implies back[#[trigger] permutation[i] as int]
            == coord[i] by {
            let axis = permutation[i] as int;
            let p = place_in(permutation, axis);
            assert(0 <= p < permutation.len() && permutation[p] == axis);
            if p != i {
                assert(permutation[p] != permutation[i]);
            }
        }
        transposing_moves_components(map, permutation, coord, back);
        assert forall|j: int| 0 <= j < n implies #[trigger] back[j] < map.shape[j] by {
            lemma_permutation_covers(permutation, n, j);
            let p = place_in(permutation, j);
            assert(permutation[p] == j);
            assert(coord[p] < permuted_shape(permutation, map.shape)[p]);
        }
    }
    assert forall|n: int| #[trigger] map_room(map, n) implies map_room(
        transposed(map, permutation),
        n,
    ) by {
        lemma_transposed_room(map, permutation, n);
    }
}

/// Every axis stands somewhere in a permutation.
proof fn lemma_permutation_covers(permutation: Seq<usize>, rank: nat, axis: int)
    requires
        is_permutation(permutation, rank),
        rank <= usize::MAX,
        0 <= axis < rank,
    ensures
        exists|i: int| 0 <= i < permutation.len() && #[trigger] permutation[i] == axis,
{
    if !(exists|i: int| 0 <= i < permutation.len() && #[trigger] permutation[i] == axis) {
        let all = Seq::new(rank, |i: int| i);
        let named = permutation.map(|i: int, p: usize| p as int).push(axis);
        assert forall|i: int, j: int|
            0 <= i < named.len() && 0 <= j < named.len() && i != j implies named[i] != named[j] by {
            if i < permutation.len() && j < permutation.len() {
                assert(permutation[i] != permutation[j]);
            }
        }
        named.unique_seq_to_set();
        let below = vstd::set_lib::set_int_range(0, rank as int);
        vstd::set_lib::lemma_int_range(0, rank as int);
        assert(named.to_set().subset_of(below)) by {
            assert forall|x: int| named.to_set().contains(x) implies below.contains(x) by {
                let i = choose|i: int| 0 <= i < named.len() && named[i] == x;
                if i < permutation.len() {
                    assert(permutation[i] < rank);
                }
            }
        }
        vstd::set_lib::lemma_len_subset(named.to_set(), below);
    }
}

/// A flipped view takes every element from the mirrored coordinate.
pub proof fn lemma_flip_places(map: Mapping, axis: int)
    requires
        mapping_wf(map),
        0 <= axis < map.shape.len(),
    ensures
        forall|coord: Seq<u64>|
            in_box(coord, map.shape) ==> in_box(#[trigger] mirrored(map.shape, axis, coord), map.shape)
                && offset_at(flipped(map, axis), coord) == offset_at(
                map,
                mirrored(map.shape, axis, coord),
            ),
        forall|n: int| #[trigger] map_room(map, n) ==> map_room(flipped(map, axis), 2 * n),
{
    assert forall|coord: Seq<u64>| in_box(coord, map.shape) implies in_box(
        #[trigger] mirrored(map.shape, axis, coord),
        map.shape,
    ) && offset_at(flipped(map, axis), coord) == offset_at(
        map,
        mirrored(map.shape, axis, coord),
    ) by {
        flipping_mirrors_an_axis(map, axis, coord);
        assert(coord[axis] < map.shape[axis]);
    }
    assert forall|n: int| #[trigger] map_room(map, n) implies map_room(
        flipped(map, axis),
        2 * n,
    ) by {
        flips_stay_in_range(map, axis, n);
    }
}

/// A broadcast view repeats the elements of the view.
pub proof fn lemma_broadcast_places(map: Mapping, shape: Seq<u64>)
    requires
        mapping_wf(map),
        broadcast_fits(map.shape, shape),
    ensures
        forall|coord: Seq<u64>|
            in_box(coord, shape) ==> in_box(#[trigger] unspread(map.shape, coord), map.shape)
                && offset_at(broadcasted(map, shape), coord) == offset_at(
                map,
                unspread(map.shape, coord),
            ),
        forall|n: int| #[trigger] map_room(map, n) ==> map_room(broadcasted(map, shape), n),
{
    assert forall|coord: Seq<u64>| in_box(coord, shape) implies in_box(
        #[trigger] unspread(map.shape, coord),
        map.shape,
    ) && offset_at(broadcasted(map, shape), coord) == offset_at(
        map,
        unspread(map.shape, coord),
    ) by {
        broadcasting_repeats_elements(map, shape, coord);
    }
    assert forall|n: int| #[trigger] map_room(map, n) implies map_room(
        broadcasted(map, shape),
        n,
    ) by {
        lemma_broadcasted_room(map, shape, n);
    }
}

/// A slice takes every element from the coordinate that its range selects.
pub proof fn lemma_slice_places(map: Mapping, range: Seq<Bound>)
    requires
        mapping_wf(map),
        range_fits(range, map.shape),
        slice_fits(map, range),
        lens_known(range),
    ensures
        forall|coord: Seq<u64>|
            in_box(coord, slice_shape(range)) ==> in_box(#[trigger] expand(range, coord), map.shape)
                && offset_at(sliced(map, range), coord) == offset_at(map, expand(range, coord)),
        forall|n: int, m: int|
            #![trigger map_room(map, n), steps_at_most(range, m)]
            map_room(map, n) && m >= 0 && steps_at_most(range, m) && sliced_room(
                n,
                map.shape.len(),
                m,
            ) <= i128::MAX ==> map_room(
                sliced(map, range),
                sliced_room(n, map.shape.len(), m),
            ),
{
    assert forall|i: int| 0 <= i < range.len() implies bound_arith_fits(
        map.axes[i],
        #[trigger] range[i],
    ) by {
        let r = range.take(i + 1);
        let s = map.shape.take(i + 1);
        assert forall|j: int| 0 <= j < s.len() implies bound_fits(#[trigger] r[j], s[j]) by {
            assert(bound_fits(range[j], map.shape[j]));
        }
        assert(range_fits(r, s));
    }
    assert forall|coord: Seq<u64>| in_box(coord, slice_shape(range)) implies in_box(
        #[trigger] expand(range, coord),
        map.shape,
    ) && offset_at(sliced(map, range), coord) == offset_at(map, expand(range, coord)) by {
        slicing_selects_elements(map, range, coord);
    }
    assert forall|n: int, m: int|
        #![trigger map_room(map, n), steps_at_most(range, m)]
        map_room(map, n) && m >= 0 && steps_at_most(range, m) && sliced_room(
            n,
            map.shape.len(),
            m,
        ) <= i128::MAX implies map_room(
        sliced(map, range),
        sliced_room(n, map.shape.len(), m),
    ) by {
        slices_stay_in_range(map, range, n, m);
    }
}

/// A squeezed view takes every element from the coordinate with the removed axes put back.
pub proof fn lemma_squeeze_places(map: Mapping, axes: Seq<usize>)
    requires
        mapping_wf(map),
        map.shape.len() <= usize::MAX,
        squeeze_fits(map.shape, axes),
    ensures
        forall|coord: Seq<u64>|
            in_box(coord, kept(map.shape, marks(map.shape.len(), axes))) ==> in_box(
                #[trigger] widen(marks(map.shape.len(), axes), coord),
                map.shape,
            ) && offset_at(squeezed(map, axes), coord) == offset_at(
                map,
                widen(marks(map.shape.len(), axes), coord),
            ),
        forall|n: int| #[trigger]
            map_room(map, n) ==> map_room(
                squeezed(map, axes),
                squeezed_room(n, map.shape.len()),
            ),
{
    let dropped = marks(map.shape.len(), axes);
    assert forall|i: int| 0 <= i < dropped.len() && #[trigger] dropped[i] implies map.shape[i] == 1 by {
        let a = choose|a: int| 0 <= a < axes.len() && axes[a] == i as usize;
        assert(map.shape[axes[a] as int] == 1);
    }
    lemma_kept_len(map.shape, map.axes, dropped);
    assert forall|coord: Seq<u64>| in_box(coord, kept(map.shape, dropped)) implies in_box(
        #[trigger] widen(dropped, coord),
        map.shape,
    ) && offset_at(squeezed(map, axes), coord) == offset_at(map, widen(dropped, coord)) by {
        squeezing_keeps_elements(map.base, map.axes, dropped, coord);
        lemma_widen_in_box(map.shape, dropped, coord);
    }
    assert forall|n: int| #[trigger] map_room(map, n) implies map_room(
        squeezed(map, axes),
        squeezed_room(n, map.shape.len()),
    ) by {
        squeezes_stay_in_range(map, axes, n);
    }
}

proof fn lemma_kept_len<A, B>(left: Seq<A>, right: Seq<B>, dropped: Seq<bool>)
    ensures
        kept(left, dropped).len() == kept(right, dropped).len(),
    decreases dropped.len(),
{
    if dropped.len() > 0 {
        lemma_kept_len(left.drop_last(), right.drop_last(), dropped.drop_last());
    }
}

proof fn lemma_widen_in_box(shape: Seq<u64>, dropped: Seq<bool>, coord: Seq<u64>)
    requires
        shape.len() == dropped.len(),
        forall|i: int| 0 <= i < dropped.len() && #[trigger] dropped[i] ==> shape[i] == 1,
        in_box(coord, kept(shape, dropped)),
    ensures
        in_box(widen(dropped, coord), shape),
    decreases dropped.len(),
{
    if dropped.len() > 0 {
        let init = dropped.drop_last();
        let last = dropped.len() - 1;
        assert forall|i: int| 0 <= i < init.len() && #[trigger] init[i] implies shape.drop_last()[i]
            == 1 by {
            assert(dropped[i]);
        }
        if dropped.last() {
            assert(dropped[last]);
            lemma_widen_in_box(shape.drop_last(), init, coord);
            let before = widen(init, coord);
            assert forall|i: int| 0 <= i < shape.len() implies #[trigger] widen(dropped, coord)[i]
                < shape[i] by {
                if i < last {
                    assert(before[i] < shape.drop_last()[i]);
                }
            }
        } else {
            let rest = kept(shape.drop_last(), init);
            assert(kept(shape, dropped) == rest.push(shape.last()));
            assert(in_box(coord.drop_last(), rest)) by {
                assert forall|i: int| 0 <= i < rest.len() implies #[trigger] coord.drop_last()[i]
                    < rest[i] by {
                    assert(coord[i] < kept(shape, dropped)[i]);
                }
            }
            assert(coord[coord.len() - 1] < kept(shape, dropped)[coord.len() - 1]);
            lemma_widen_in_box(shape.drop_last(), init, coord.drop_last());
            let before = widen(init, coord.drop_last());
            assert forall|i: int| 0 <= i < shape.len() implies #[trigger] widen(dropped, coord)[i]
                < shape[i] by {
                if i < last {
                    assert(before[i] < shape.drop_last()[i]);
                }
            }
        }
    }
}

/// An unsqueezed view takes every element from the coordinate without the new axes.
pub proof fn lemma_unsqueeze_places(map: Mapping, axes: Seq<usize>)
    requires
        mapping_wf(map),
    ensures
        forall|coord: Seq<u64>|
            in_box(coord, unsqueezed_shape(map.shape, axes)) ==> in_box(
                #[trigger] narrow(marks(map.shape.len(), axes), coord),
                map.shape,
            ) && offset_at(unsqueezed(map, axes), coord) == offset_at(
                map,
                narrow(marks(map.shape.len(), axes), coord),
            ),
        forall|n: int| #[trigger]
            map_room(map, n) && all_positive(unsqueezed_shape(map.shape, axes)) && volume(
                unsqueezed_shape(map.shape, axes),
            ) <= n ==> map_room(unsqueezed(map, axes), n),
        contiguous(map) && valid_dims(unsqueezed_shape(map.shape, axes)) && volume(
            unsqueezed_shape(map.shape, axes).skip(1),
        ) <= u64::MAX ==> contiguous(unsqueezed(map, axes)),
{
    let inserted = marks(map.shape.len(), axes);
    let wide = unsqueezed(map, axes).axes;
    let shape = unsqueezed_shape(map.shape, axes);
    assert(spreads(wide, map.axes, inserted));
    assert forall|coord: Seq<u64>| in_box(coord, shape) implies in_box(
        #[trigger] narrow(inserted, coord),
        map.shape,
    ) && offset_at(unsqueezed(map, axes), coord) == offset_at(map, narrow(inserted, coord)) by {
        assert forall|p: int|
            0 <= p < coord.len() && #[trigger] spread(inserted)[p] is None implies coord[p]
            == 0 by {
            assert(coord[p] < shape[p]);
        }
        unsqueezing_keeps_elements(wide, map.axes, inserted, coord);
        lemma_narrow_in_box(map.shape, inserted, shape, coord);
    }
    assert forall|n: int| #[trigger]
        map_room(map, n) && all_positive(unsqueezed_shape(map.shape, axes)) && volume(
            unsqueezed_shape(map.shape, axes),
        ) <= n implies map_room(unsqueezed(map, axes), n) by {
        lemma_unsqueezed_room(map, axes, n);
    }
    if contiguous(map) && valid_dims(unsqueezed_shape(map.shape, axes)) && volume(
        unsqueezed_shape(map.shape, axes).skip(1),
    ) <= u64::MAX {
        unsqueezing_keeps_contiguity(map, axes);
    }
}

proof fn lemma_narrow_in_box(
    shape: Seq<u64>,
    inserted: Seq<bool>,
    wide: Seq<u64>,
    coord: Seq<u64>,
)
    requires
        shape.len() == inserted.len(),
        wide.len() == spread(inserted).len(),
        forall|p: int|
            0 <= p < wide.len() ==> ((#[trigger] spread(inserted)[p]) matches Some(i) ==> wide[p]
                == shape[i]),
        in_box(coord, wide),
    ensures
        in_box(narrow(inserted, coord), shape),
    decreases inserted.len(),
{
    if inserted.len() > 0 {
        let init = inserted.drop_last();
        let last = inserted.len() - 1;
        let layout = spread(inserted);
        let n = layout.len() as int;
        lemma_spread(init);
        let less = if inserted.last() {
            n - 2
        } else {
            n - 1
        };
        assert(layout[n - 1] == Some(last));
        assert(coord[n - 1] < wide[n - 1]);
        let narrower = coord.take(less);
        if inserted.last() {
            assert(coord.drop_last().drop_last() =~= narrower);
        } else {
            assert(coord.drop_last() =~= narrower);
        }
        assert forall|p: int| 0 <= p < less implies ((#[trigger] spread(init)[p]) matches Some(i)
            ==> wide.take(less)[p] == shape.drop_last()[i]) by {
            assert(spread(inserted)[p] == spread(init)[p]);
        }
        assert(in_box(narrower, wide.take(less))) by {
            assert forall|p: int| 0 <= p < less implies #[trigger] narrower[p] < wide.take(
                less,
            )[p] by {
                assert(coord[p] < wide[p]);
            }
        }
        lemma_narrow_in_box(shape.drop_last(), init, wide.take(less), narrower);
        let before = narrow(init, narrower);
        assert forall|i: int| 0 <= i < shape.len() implies #[trigger] narrow(inserted, coord)[i]
            < shape[i] by {
            if i < last {
                assert(before[i] < shape.drop_last()[i]);
            }
        }
    }
}

} // verus!
