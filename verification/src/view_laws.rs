//! What the transforms of a view mean for its coordinates.

use vstd::prelude::*;
use crate::geometry::{
    all_positive, in_box, lemma_coordinate_position, lemma_position_bound, position_of, volume,
};
use crate::inline::{Axes, Bound};
use crate::mapping::{
    broadcast_fits, chosen_permutation, is_permutation, kept, lens_known, marks, slice_shape,
    spread, unsqueezed_shape,
};
use crate::matrix::last_two_swapped;
use crate::schema::lemma_ceil_div;
use crate::transform::{mirrored, permuted_shape, place_in, regrouped, unpermuted};
use crate::transform_laws::{expand, narrow, unspread, widen};
use crate::validate::{bound_fits, bound_len, lemma_bound_at, lemma_bound_len, range_fits};

verus! {

/// How many of the first flags are not set.
pub open spec fn unset_before(flags: Seq<bool>, n: int) -> int {
    flags.take(n).filter(|flag: bool| !flag).len() as int
}

/// How many of the first flags are set.
pub open spec fn set_before(flags: Seq<bool>, n: int) -> int {
    flags.take(n).filter(|flag: bool| flag).len() as int
}

pub proof fn lemma_unset_before(flags: Seq<bool>, n: int)
    requires
        0 <= n < flags.len(),
    ensures
        unset_before(flags, 0) == 0,
        0 <= unset_before(flags, n) <= n,
        unset_before(flags, n + 1) == unset_before(flags, n) + if flags[n] {
            0int
        } else {
            1
        },
        set_before(flags, n + 1) == set_before(flags, n) + if flags[n] {
            1int
        } else {
            0
        },
        unset_before(flags.drop_last(), n) == unset_before(flags, n),
        set_before(flags.drop_last(), n) == set_before(flags, n),
        set_before(flags, 0) == 0,
        0 <= set_before(flags, n) <= n,
{
    reveal(Seq::filter);
    assert(flags.take(n + 1).drop_last() =~= flags.take(n));
    assert(flags.take(n + 1).last() == flags[n]);
    assert(flags.drop_last().take(n) =~= flags.take(n));
    flags.take(n).lemma_filter_len(|flag: bool| !flag);
    flags.take(n).lemma_filter_len(|flag: bool| flag);
}

/// Which bounds fix a single index.
pub open spec fn fixed(range: Seq<Bound>) -> Seq<bool> {
    Seq::new(range.len(), |i: int| range[i] is At)
}

/// The axis of a slice that a bound gives, if it gives one, has as many indices as the bound
/// selects: one for each listed index, or one for each step from the start that stays before the
/// stop.
pub open spec fn selects_as_many(bound: Bound, len: u64) -> bool {
    match bound {
        Bound::At(_) => true,
        Bound::In(start, stop, step) => {
            &&& len * step >= stop - start
            &&& len > 0 ==> (len - 1) * step < stop - start
        },
        Bound::Of(indices) => len == indices.len(),
    }
}

/// The index that a bound gives at an index of the axis of a slice: the fixed one, the one so many
/// steps from the start, or the listed one.
pub open spec fn gives(bound: Bound, index: u64, source: u64) -> bool {
    match bound {
        Bound::At(only) => source == only,
        Bound::In(start, _, step) => source == start + index * step,
        Bound::Of(indices) => source == indices[index as int],
    }
}

/// A slice has an axis for each bound that does not fix an index, in order, and shows what its
/// range selects: at each axis of the view under it the index that the bound gives.
pub proof fn slices_show_what_their_range_selects(
    range: Seq<Bound>,
    shape: Seq<u64>,
    coord: Seq<u64>,
    i: int,
)
    requires
        range_fits(range, shape),
        lens_known(range),
        in_box(coord, slice_shape(range)),
        0 <= i < range.len(),
    ensures
        ({
            let place = unset_before(fixed(range), i);
            &&& slice_shape(range).len() == unset_before(fixed(range), range.len() as int)
            &&& expand(range, coord).len() == range.len()
            &&& !(range[i] is At) ==> 0 <= place < coord.len() && selects_as_many(
                range[i],
                slice_shape(range)[place],
            )
            &&& gives(range[i], coord[place], expand(range, coord)[i])
        }),
    decreases range.len(),
{
    let n = range.len() - 1;
    let head = range.drop_last();
    let less = shape.drop_last();
    let flags = fixed(range);
    assert(fixed(head) =~= flags.drop_last());
    lemma_unset_before(flags, n);
    lemma_unset_before(flags, i);
    assert forall|j: int| 0 <= j < less.len() implies bound_fits(#[trigger] head[j], less[j]) by {
        assert(bound_fits(range[j], shape[j]));
    }
    assert forall|j: int| 0 <= j < head.len() implies bound_len(#[trigger] head[j])
        <= u64::MAX by {
        assert(bound_len(range[j]) <= u64::MAX);
    }
    assert(bound_fits(range[n], shape[n]));
    assert(bound_len(range[n]) <= u64::MAX);
    lemma_bound_len(range[n], shape[n]);
    let before = slice_shape(head);
    let rest = if range.last() is At {
        coord
    } else {
        coord.drop_last()
    };
    assert(in_box(rest, before)) by {
        assert forall|j: int| 0 <= j < before.len() implies #[trigger] rest[j] < before[j] by {
            assert(coord[j] < slice_shape(range)[j]);
        }
    }
    if n > 0 {
        let k = if i < n {
            i
        } else {
            0
        };
        lemma_unset_before(flags, k);
        slices_show_what_their_range_selects(head, less, rest, k);
        lemma_unset_before(flags, n - 1);
        assert(fixed(head).take(n) =~= flags.take(n));
    } else {
        assert(flags.take(0) =~= fixed(head).take(0));
        reveal(Seq::filter);
        assert(before =~= Seq::<u64>::empty());
        assert(expand(head, rest) =~= Seq::<u64>::empty());
    }
    if i == n && !(range[n] is At) {
        let len = slice_shape(range)[before.len() as int];
        assert(coord[before.len() as int] < len);
        assert(len == bound_len(range[n]));
        lemma_bound_at(range[n], shape[n], coord.last() as int);
        if let Bound::In(start, stop, step) = range[n] {
            lemma_ceil_div(stop - start, step as int);
            let q = len as int;
            assert((q - 1) * step == q * step - step) by (nonlinear_arith);
        }
    }
}

/// A view can be spread over a shape if, counted from the last axis, its dimensions are those of
/// the shape or one. It then shows at each coordinate what it has at the index on the same axis, or
/// at the only index.
pub proof fn broadcasts_align_the_last_axes(from: Seq<u64>, to: Seq<u64>, coord: Seq<u64>)
    requires
        in_box(coord, to),
    ensures
        broadcast_fits(from, to) <==> from.len() <= to.len() && forall|k: int|
            0 <= k < from.len() ==> #[trigger] from[from.len() - 1 - k] == 1 || from[from.len() - 1
                - k] == to[to.len() - 1 - k],
        broadcast_fits(from, to) ==> {
            let under = unspread(from, coord);
            &&& in_box(under, from)
            &&& forall|k: int|
                0 <= k < from.len() ==> #[trigger] from[from.len() - 1 - k] == 1
                    || under[from.len() - 1 - k] == coord[to.len() - 1 - k]
        },
{
    let fresh = to.len() - from.len();
    if from.len() <= to.len() && forall|k: int|
        0 <= k < from.len() ==> #[trigger] from[from.len() - 1 - k] == 1 || from[from.len() - 1 - k]
            == to[to.len() - 1 - k] {
        assert forall|i: int| 0 <= i < from.len() implies #[trigger] from[i] == 1 || from[i]
            == to[i + fresh] by {
            let k = from.len() - 1 - i;
            assert(from[from.len() - 1 - k] == from[i]);
        }
    }
    if broadcast_fits(from, to) {
        let under = unspread(from, coord);
        assert forall|i: int| 0 <= i < from.len() implies #[trigger] under[i] < from[i] by {
            assert(from[i] == 1 || from[i] == to[i + fresh]);
            assert(coord[i + fresh] < to[i + fresh]);
        }
        assert forall|k: int| 0 <= k < from.len() implies #[trigger] from[from.len() - 1 - k] == 1
            || from[from.len() - 1 - k] == to[to.len() - 1 - k] by {
            let i = from.len() - 1 - k;
            assert(from[i] == 1 || from[i] == to[i + fresh]);
        }
    }
}

/// A transposed view has its axes in the order of the permutation: an axis of it has the dimension
/// and the index of the axis that the permutation names.
pub proof fn transposes_move_axes(order: Seq<usize>, shape: Seq<u64>, coord: Seq<u64>, i: int)
    requires
        shape.len() <= usize::MAX,
        is_permutation(order, shape.len()),
        coord.len() == shape.len(),
        0 <= i < order.len(),
    ensures
        permuted_shape(order, shape).len() == shape.len(),
        permuted_shape(order, shape)[i] == shape[order[i] as int],
        unpermuted(order, coord).len() == shape.len(),
        unpermuted(order, coord)[order[i] as int] == coord[i],
{
    let axis = order[i] as int;
    assert(order[i] == axis);
    let p = place_in(order, axis);
    assert(0 <= p < order.len() && order[p] == axis);
    assert(p == i) by {
        if p != i {
            assert(order[p] != order[i]);
        }
    }
    assert(order[i] < shape.len());
}

/// A transpose without a permutation reverses the axes.
pub proof fn plain_transposes_reverse_the_axes(shape: Seq<u64>, coord: Seq<u64>)
    requires
        shape.len() <= usize::MAX,
        coord.len() == shape.len(),
    ensures
        ({
            let order = chosen_permutation(None::<Axes>, shape.len());
            &&& is_permutation(order, shape.len())
            &&& permuted_shape(order, shape) == shape.reverse()
            &&& unpermuted(order, coord) == coord.reverse()
        }),
{
    let n = shape.len();
    let order = chosen_permutation(None::<Axes>, n);
    assert(is_permutation(order, n)) by {
        assert forall|i: int, j: int| 0 <= i < order.len() && 0 <= j < order.len() && i
            != j implies order[i] != order[j] by {}
    }
    assert(permuted_shape(order, shape) =~= shape.reverse());
    assert forall|j: int| 0 <= j < n implies #[trigger] unpermuted(order, coord)[j]
        == coord.reverse()[j] by {
        transposes_move_axes(order, shape, coord, n - 1 - j);
    }
    assert(unpermuted(order, coord) =~= coord.reverse());
}

/// A reshaped view shows at each row-major position what the view under it has at the same
/// position.
pub proof fn reshapes_keep_the_order(from: Seq<u64>, to: Seq<u64>, coord: Seq<u64>)
    requires
        all_positive(from),
        volume(from) == volume(to),
        in_box(coord, to),
    ensures
        in_box(regrouped(from, to, coord), from),
        position_of(regrouped(from, to, coord), from) == position_of(coord, to),
{
    lemma_position_bound(coord, to);
    lemma_coordinate_position(position_of(coord, to), from);
}

/// A flipped view counts one axis from its other end: the first index shows the last one.
pub proof fn flips_count_from_the_other_end(shape: Seq<u64>, axis: int, coord: Seq<u64>)
    requires
        0 <= axis < shape.len(),
        in_box(coord, shape),
    ensures
        in_box(mirrored(shape, axis, coord), shape),
        mirrored(shape, axis, coord)[axis] + coord[axis] == shape[axis] - 1,
        forall|i: int|
            0 <= i < shape.len() && i != axis ==> #[trigger] mirrored(shape, axis, coord)[i]
                == coord[i],
{
    let back = mirrored(shape, axis, coord);
    assert(coord[axis] < shape[axis]);
    assert forall|i: int| 0 <= i < shape.len() implies #[trigger] back[i] < shape[i] by {
        assert(coord[i] < shape[i]);
    }
}

/// A squeezed view has the axes that were not named, in order, and shows what the view under it has
/// at the only index of the others.
pub proof fn squeezes_drop_the_named_axes(
    shape: Seq<u64>,
    axes: Seq<usize>,
    coord: Seq<u64>,
    i: int,
)
    requires
        shape.len() <= usize::MAX,
        0 <= i < shape.len(),
        coord.len() == kept(shape, marks(shape.len(), axes)).len(),
    ensures
        ({
            let dropped = marks(shape.len(), axes);
            let place = unset_before(dropped, i);
            let under = widen(dropped, coord);
            &&& dropped.len() == shape.len()
            &&& dropped[i] <==> axes.contains(i as usize)
            &&& kept(shape, dropped).len() == unset_before(dropped, shape.len() as int)
            &&& under.len() == shape.len()
            &&& dropped[i] ==> under[i] == 0
            &&& !dropped[i] ==> 0 <= place < coord.len() && kept(shape, dropped)[place] == shape[i]
                && under[i] == coord[place]
        }),
{
    lemma_dropped(shape, marks(shape.len(), axes), coord, i);
}

proof fn lemma_dropped(shape: Seq<u64>, dropped: Seq<bool>, coord: Seq<u64>, i: int)
    requires
        dropped.len() == shape.len(),
        0 <= i < shape.len(),
        coord.len() == kept(shape, dropped).len(),
    ensures
        ({
            let place = unset_before(dropped, i);
            let under = widen(dropped, coord);
            &&& kept(shape, dropped).len() == unset_before(dropped, shape.len() as int)
            &&& under.len() == shape.len()
            &&& dropped[i] ==> under[i] == 0
            &&& !dropped[i] ==> 0 <= place < coord.len() && kept(shape, dropped)[place] == shape[i]
                && under[i] == coord[place]
        }),
    decreases shape.len(),
{
    let n = shape.len() - 1;
    let head = shape.drop_last();
    let flags = dropped.drop_last();
    lemma_unset_before(dropped, n);
    lemma_unset_before(dropped, i);
    let rest = if dropped.last() {
        coord
    } else {
        coord.drop_last()
    };
    if n > 0 {
        let k = if i < n {
            i
        } else {
            0
        };
        lemma_unset_before(dropped, k);
        lemma_dropped(head, flags, rest, k);
        assert(flags.take(n) =~= dropped.take(n));
    } else {
        reveal(Seq::filter);
        assert(dropped.take(0) =~= Seq::<bool>::empty());
        assert(kept(head, flags) =~= Seq::<u64>::empty());
        assert(widen(flags, rest) =~= Seq::<u64>::empty());
    }
}

/// An unsqueezed view has a new axis of a single index before each named one, keeps the others in
/// order, and shows what the view under it has without the new axes.
pub proof fn unsqueezes_add_axes_before_the_named_ones(
    shape: Seq<u64>,
    axes: Seq<usize>,
    coord: Seq<u64>,
    i: int,
)
    requires
        shape.len() <= usize::MAX,
        0 <= i < shape.len(),
        coord.len() == unsqueezed_shape(shape, axes).len(),
    ensures
        ({
            let inserted = marks(shape.len(), axes);
            let place = i + set_before(inserted, i + 1);
            let out = unsqueezed_shape(shape, axes);
            let under = narrow(inserted, coord);
            &&& inserted.len() == shape.len()
            &&& inserted[i] <==> axes.contains(i as usize)
            &&& out.len() == shape.len() + set_before(inserted, shape.len() as int)
            &&& under.len() == shape.len()
            &&& 0 <= place < out.len()
            &&& out[place] == shape[i]
            &&& under[i] == coord[place]
            &&& inserted[i] ==> place > 0 && out[place - 1] == 1
        }),
{
    let inserted = marks(shape.len(), axes);
    lemma_inserted(inserted, coord, i);
}

proof fn lemma_inserted(inserted: Seq<bool>, coord: Seq<u64>, i: int)
    requires
        0 <= i < inserted.len(),
        coord.len() == spread(inserted).len(),
    ensures
        ({
            let place = i + set_before(inserted, i + 1);
            let layout = spread(inserted);
            let under = narrow(inserted, coord);
            &&& layout.len() == inserted.len() + set_before(inserted, inserted.len() as int)
            &&& under.len() == inserted.len()
            &&& 0 <= place < layout.len()
            &&& layout[place] == Some(i)
            &&& under[i] == coord[place]
            &&& inserted[i] ==> place > 0 && layout[place - 1] is None
        }),
    decreases inserted.len(),
{
    let n = inserted.len() - 1;
    let init = inserted.drop_last();
    let layout = spread(inserted);
    lemma_unset_before(inserted, n);
    lemma_unset_before(inserted, i);
    let rest = if inserted.last() {
        coord.drop_last().drop_last()
    } else {
        coord.drop_last()
    };
    if n > 0 {
        let k = if i < n {
            i
        } else {
            0
        };
        lemma_unset_before(inserted, k);
        lemma_unset_before(inserted, n - 1);
        assert(init.take(n) =~= inserted.take(n));
        assert(init.take(k + 1) =~= inserted.take(k + 1));
        lemma_inserted(init, rest, k);
        assert(forall|p: int| 0 <= p < spread(init).len() ==> layout[p] == spread(init)[p]);
    } else {
        reveal(Seq::filter);
        assert(inserted.take(0) =~= Seq::<bool>::empty());
        assert(spread(init) =~= Seq::<Option<int>>::empty());
        assert(narrow(init, rest) =~= Seq::<u64>::empty());
    }
}

/// A transposed matrix has rows for columns, in every matrix of a batch.
pub proof fn matrix_transposes_exchange_rows_and_columns(coord: Seq<u64>)
    requires
        coord.len() >= 2,
    ensures
        last_two_swapped(coord).len() == coord.len(),
        last_two_swapped(coord)[coord.len() - 1] == coord[coord.len() - 2],
        last_two_swapped(coord)[coord.len() - 2] == coord[coord.len() - 1],
        forall|i: int|
            0 <= i < coord.len() - 2 ==> #[trigger] last_two_swapped(coord)[i] == coord[i],
{
}

} // verus!
