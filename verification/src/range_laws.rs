//! What a walk over a range visits, and what writing over a range leaves.

use vstd::prelude::*;
use crate::element::TensorElement;
use crate::geometry::{
    in_box, lemma_position_bound, lemma_position_coordinate, lemma_position_last, lemma_volume_push,
    position_of, volume,
};
use crate::inline::Bound;
use crate::mapping::{lens_known, Mapping, mapping_wf, offset_at, slice_fits, slice_shape, sliced};
use crate::schema::{ceil_div, lemma_ceil_div};
use crate::tensor::TensorStorage;
use crate::transform::lemma_slice_places;
use crate::transform_laws::expand;
use crate::validate::{
    bound_fits, bound_len, lemma_bound_at, lemma_bound_len, range_coords, range_fits, range_lens,
    range_select, range_volume,
};
use crate::view_laws::{
    fixed, gives, lemma_unset_before, selects_as_many, slices_show_what_their_range_selects,
    unset_before,
};
use crate::write::{element, same_value, Store};

verus! {

proof fn lemma_range_lens(range: Seq<Bound>, shape: Seq<u64>)
    requires
        range_fits(range, shape),
        lens_known(range),
    ensures
        range_lens(range).len() == range.len(),
        forall|i: int|
            0 <= i < range.len() ==> #[trigger] range_lens(range)[i] == bound_len(range[i]),
{
    assert forall|i: int| 0 <= i < range.len() implies #[trigger] range_lens(range)[i] == bound_len(
        range[i],
    ) by {
        assert(bound_fits(range[i], shape[i]));
        assert(bound_len(range[i]) <= u64::MAX);
        lemma_bound_len(range[i], shape[i]);
    }
}

/// A walk over a range goes over the places of its bounds in row-major order, and has at each axis
/// the index that the bound gives there: the fixed one, the one so many steps from the start, or
/// the listed one. There are as many places as the bounds select indices.
pub proof fn walks_visit_what_the_bounds_give(
    range: Seq<Bound>,
    shape: Seq<u64>,
    lens: Seq<u64>,
    places: Seq<u64>,
    i: int,
)
    requires
        range_fits(range, shape),
        lens_known(range),
        lens.len() == range.len(),
        forall|j: int|
            #![trigger lens[j]]
            0 <= j < range.len() ==> match range[j] {
                Bound::At(_) => lens[j] == 1,
                _ => selects_as_many(range[j], lens[j]),
            },
        in_box(places, lens),
        0 <= i < range.len(),
    ensures
        range_volume(range) == volume(lens),
        0 <= position_of(places, lens) < range_coords(range).len(),
        range_coords(range)[position_of(places, lens)].len() == range.len(),
        gives(range[i], places[i], range_coords(range)[position_of(places, lens)][i]),
{
    lemma_range_lens(range, shape);
    assert forall|j: int| 0 <= j < range.len() implies lens[j] == range_lens(range)[j] by {
        assert(bound_fits(range[j], shape[j]));
        if let Bound::In(start, stop, step) = range[j] {
            lemma_ceil_div(stop - start, step as int);
            let q = ceil_div(stop - start, step as int);
            let l = lens[j] as int;
            assert(range_lens(range)[j] == q);
            assert(selects_as_many(range[j], lens[j]));
            assert((q - 1) * step == q * step - step && 0 * step == 0) by (nonlinear_arith);
            assert(l == q) by (nonlinear_arith)
                requires
                    step > 0,
                    stop >= start,
                    l >= 0,
                    l * step >= stop - start,
                    l > 0 ==> (l - 1) * step < stop - start,
                    q * step >= stop - start,
                    q * step < stop - start + step,
            ;
        }
    }
    assert(lens =~= range_lens(range));
    let k = position_of(places, lens);
    lemma_position_bound(places, lens);
    lemma_position_coordinate(places, lens);
    assert(range_coords(range)[k] == range_select(range, places));
    assert(bound_fits(range[i], shape[i]));
    assert(places[i] < lens[i]);
    lemma_bound_at(range[i], shape[i], places[i] as int);
}

/// The axes that a bound fixes have one place: leaving them out changes no position.
proof fn lemma_same_position(range: Seq<Bound>, shape: Seq<u64>, places: Seq<u64>, coord: Seq<u64>)
    requires
        range_fits(range, shape),
        lens_known(range),
        in_box(places, range_lens(range)),
        in_box(coord, slice_shape(range)),
        forall|i: int|
            0 <= i < range.len() && !((#[trigger] range[i]) is At) ==> places[i]
                == coord[unset_before(fixed(range), i)],
    ensures
        volume(slice_shape(range)) == volume(range_lens(range)),
        position_of(places, range_lens(range)) == position_of(coord, slice_shape(range)),
    decreases range.len(),
{
    lemma_range_lens(range, shape);
    let lens = range_lens(range);
    let out = slice_shape(range);
    if range.len() == 0 {
        assert(lens =~= Seq::<u64>::empty());
        assert(places =~= coord);
        assert(out =~= lens);
    } else {
        let n = range.len() - 1;
        let head = range.drop_last();
        let less = shape.drop_last();
        let flags = fixed(range);
        assert(fixed(head) =~= flags.drop_last());
        lemma_unset_before(flags, n);
        assert forall|j: int| 0 <= j < less.len() implies bound_fits(
            #[trigger] head[j],
            less[j],
        ) by {
            assert(bound_fits(range[j], shape[j]));
        }
        assert forall|j: int| 0 <= j < head.len() implies bound_len(#[trigger] head[j])
            <= u64::MAX by {
            assert(bound_len(range[j]) <= u64::MAX);
        }
        let rest = if range.last() is At {
            coord
        } else {
            coord.drop_last()
        };
        let before = slice_shape(head);
        assert(range_lens(head) =~= lens.drop_last());
        assert(in_box(rest, before)) by {
            assert forall|j: int| 0 <= j < before.len() implies #[trigger] rest[j] < before[j] by {
                assert(coord[j] < out[j]);
            }
        }
        assert(in_box(places.drop_last(), range_lens(head))) by {
            assert forall|j: int| 0 <= j < head.len() implies #[trigger] places.drop_last()[j]
                < range_lens(head)[j] by {
                assert(places[j] < lens[j]);
            }
        }
        assert forall|i: int|
            0 <= i < head.len() && !((#[trigger] head[i]) is At) implies places.drop_last()[i]
            == rest[unset_before(fixed(head), i)] by {
            assert(!(range[i] is At));
            lemma_unset_before(flags, i);
            slices_show_what_their_range_selects(head, less, rest, i);
        }
        lemma_same_position(head, less, places.drop_last(), rest);
        lemma_volume_push(lens.drop_last(), lens.last());
        assert(lens =~= lens.drop_last().push(lens.last()));
        lemma_position_last(places, lens);
        assert(places[n] < lens[n]);
        if range.last() is At {
            assert(lens[n] == 1);
        } else {
            slices_show_what_their_range_selects(range, shape, coord, n);
            lemma_volume_push(before, out.last());
            assert(out =~= before.push(out.last()));
            assert(out.drop_last() =~= before);
            lemma_position_last(coord, out);
            if n > 0 {
                slices_show_what_their_range_selects(head, less, rest, 0);
            } else {
                reveal(Seq::filter);
            }
            assert(fixed(head).take(n) =~= flags.take(n));
            assert(unset_before(flags, n) == before.len());
            assert(coord.last() == coord[before.len() as int]);
            assert(!(range[n] is At));
        }
    }
}

/// The elements that a walk over a range visits are those of the slice by the range, in row-major
/// order: what the walk visits as its `k`-th is what the slice shows at its `k`-th position.
pub proof fn walks_follow_slices(map: Mapping, range: Seq<Bound>, coord: Seq<u64>)
    requires
        mapping_wf(map),
        range_fits(range, map.shape),
        lens_known(range),
        slice_fits(map, range),
        in_box(coord, slice_shape(range)),
    ensures
        ({
            let k = position_of(coord, slice_shape(range));
            &&& range_volume(range) == volume(slice_shape(range))
            &&& 0 <= k < range_coords(range).len()
            &&& range_coords(range)[k] == expand(range, coord)
            &&& offset_at(sliced(map, range), coord) == offset_at(map, range_coords(range)[k])
        }),
{
    let shape = map.shape;
    let lens = range_lens(range);
    lemma_range_lens(range, shape);
    let flags = fixed(range);
    let places = Seq::new(
        range.len(),
        |i: int|
            if range[i] is At {
                0u64
            } else {
                coord[unset_before(flags, i)]
            },
    );
    assert forall|i: int| 0 <= i < lens.len() implies #[trigger] places[i] < lens[i] by {
        if !(range[i] is At) {
            slices_show_what_their_range_selects(range, shape, coord, i);
            lemma_slice_len(range, shape, i);
            assert(coord[unset_before(flags, i)] < slice_shape(range)[unset_before(flags, i)]);
        }
    }
    lemma_same_position(range, shape, places, coord);
    let k = position_of(places, lens);
    lemma_position_bound(places, lens);
    lemma_position_coordinate(places, lens);
    assert(range_coords(range)[k] == range_select(range, places));
    if range.len() > 0 {
        slices_show_what_their_range_selects(range, shape, coord, 0);
    }
    assert forall|i: int| 0 <= i < range.len() implies range_select(range, places)[i] == expand(
        range,
        coord,
    )[i] by {
        slices_show_what_their_range_selects(range, shape, coord, i);
        assert(bound_fits(range[i], shape[i]));
        assert(places[i] < lens[i]);
        lemma_bound_at(range[i], shape[i], places[i] as int);
    }
    assert(range_select(range, places) =~= expand(range, coord));
    lemma_slice_places(map, range);
}

proof fn lemma_slice_len(range: Seq<Bound>, shape: Seq<u64>, i: int)
    requires
        range_fits(range, shape),
        lens_known(range),
        0 <= i < range.len(),
        !(range[i] is At),
    ensures
        ({
            let place = unset_before(fixed(range), i);
            0 <= place < slice_shape(range).len() && slice_shape(range)[place] == range_lens(
                range,
            )[i]
        }),
    decreases range.len(),
{
    let n = range.len() - 1;
    let flags = fixed(range);
    let head = range.drop_last();
    assert(fixed(head) =~= flags.drop_last());
    lemma_unset_before(flags, n);
    lemma_unset_before(flags, i);
    assert forall|j: int| 0 <= j < head.len() implies bound_fits(
        #[trigger] head[j],
        shape.drop_last()[j],
    ) && bound_len(head[j]) <= u64::MAX by {
        assert(bound_fits(range[j], shape[j]));
        assert(bound_len(range[j]) <= u64::MAX);
    }
    lemma_slice_rank(head);
    assert(fixed(head).take(n) =~= flags.take(n));
    if i < n {
        lemma_slice_len(head, shape.drop_last(), i);
    }
}

proof fn lemma_slice_rank(range: Seq<Bound>)
    ensures
        slice_shape(range).len() == unset_before(fixed(range), range.len() as int),
    decreases range.len(),
{
    let flags = fixed(range);
    if range.len() > 0 {
        let n = range.len() - 1;
        let head = range.drop_last();
        lemma_slice_rank(head);
        lemma_unset_before(flags, n);
        assert(fixed(head).take(n) =~= flags.take(n));
    } else {
        reveal(Seq::filter);
        assert(flags.take(0) =~= Seq::<bool>::empty());
    }
}

/// A write of a value changed the element at a coordinate, and no other.
pub open spec fn is_written<T: TensorElement>(
    storage: TensorStorage,
    before: Store<T>,
    after: Store<T>,
    coord: Seq<u64>,
    value: T,
) -> bool {
    &&& same_value(element(storage, after, coord), value)
    &&& forall|other: Seq<u64>| #[trigger]
        in_box(other, storage.spec_shape()) && other != coord ==> element(storage, after, other)
            == element(storage, before, other)
}

/// Writing values over a range, one by one, leaves them to be read, in order, through the view that
/// is sliced by the range, as long as the range selects no element twice, and changes no other
/// element.
pub proof fn values_written_over_a_range_are_read_through_the_slice<T: TensorElement>(
    storage: TensorStorage,
    map: Mapping,
    range: Seq<Bound>,
    values: Seq<T>,
    states: Seq<Store<T>>,
    coord: Seq<u64>,
    other: Seq<u64>,
)
    requires
        mapping_wf(map),
        map.shape == storage.spec_shape(),
        range_fits(range, map.shape),
        lens_known(range),
        slice_fits(map, range),
        range_coords(range).no_duplicates(),
        values.len() == range_coords(range).len(),
        states.len() == values.len() + 1,
        forall|k: int|
            0 <= k < values.len() ==> is_written(
                storage,
                states[k],
                states[k + 1],
                #[trigger] range_coords(range)[k],
                values[k],
            ),
        in_box(coord, slice_shape(range)),
        in_box(other, storage.spec_shape()),
        !range_coords(range).contains(other),
    ensures
        same_value(
            element(storage, states[values.len() as int], expand(range, coord)),
            values[position_of(coord, slice_shape(range))],
        ),
        element(storage, states[values.len() as int], other) == element(
            storage,
            states[0],
            other,
        ),
{
    walks_follow_slices(map, range, coord);
    let k = position_of(coord, slice_shape(range));
    lemma_slice_places(map, range);
    lemma_kept_by_writes(storage, range, values, states, k, values.len() as int);
    lemma_untouched(storage, range, values, states, other, values.len() as int);
}

proof fn lemma_kept_by_writes<T: TensorElement>(
    storage: TensorStorage,
    range: Seq<Bound>,
    values: Seq<T>,
    states: Seq<Store<T>>,
    k: int,
    n: int,
)
    requires
        range_coords(range).no_duplicates(),
        values.len() == range_coords(range).len(),
        forall|j: int|
            0 <= j < values.len() ==> is_written(
                storage,
                states[j],
                states[j + 1],
                #[trigger] range_coords(range)[j],
                values[j],
            ),
        0 <= k < n <= values.len(),
        in_box(range_coords(range)[k], storage.spec_shape()),
    ensures
        same_value(element(storage, states[n], range_coords(range)[k]), values[k]),
    decreases n,
{
    assert(is_written(
        storage,
        states[n - 1],
        states[n - 1 + 1],
        range_coords(range)[n - 1],
        values[n - 1],
    ));
    if n - 1 > k {
        lemma_kept_by_writes(storage, range, values, states, k, n - 1);
        assert(range_coords(range)[k] != range_coords(range)[n - 1]);
    }
}

proof fn lemma_untouched<T: TensorElement>(
    storage: TensorStorage,
    range: Seq<Bound>,
    values: Seq<T>,
    states: Seq<Store<T>>,
    other: Seq<u64>,
    n: int,
)
    requires
        values.len() == range_coords(range).len(),
        forall|j: int|
            0 <= j < values.len() ==> is_written(
                storage,
                states[j],
                states[j + 1],
                #[trigger] range_coords(range)[j],
                values[j],
            ),
        0 <= n <= values.len(),
        in_box(other, storage.spec_shape()),
        !range_coords(range).contains(other),
    ensures
        element(storage, states[n], other) == element(storage, states[0], other),
    decreases n,
{
    if n > 0 {
        lemma_untouched(storage, range, values, states, other, n - 1);
        assert(range_coords(range).contains(range_coords(range)[n - 1]));
        assert(is_written(
            storage,
            states[n - 1],
            states[n - 1 + 1],
            range_coords(range)[n - 1],
            values[n - 1],
        ));
    }
}

} // verus!
