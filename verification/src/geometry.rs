//! Row-major arithmetic: how a box of `u64` dimensions numbers its coordinates.

use vstd::prelude::*;
use vstd::arithmetic::div_mod::{
    lemma_div_denominator, lemma_fundamental_div_mod, lemma_fundamental_div_mod_converse,
    lemma_mod_breakdown, lemma_mod_bound, lemma_multiply_divide_lt,
};
use vstd::arithmetic::mul::{
    lemma_mul_is_associative, lemma_mul_is_commutative, lemma_mul_is_distributive_add_other_way,
    lemma_mul_nonnegative, lemma_mul_strictly_positive,
};
use crate::inline::Coord;

verus! {

/// The number of coordinates in a box.
pub open spec fn volume(shape: Seq<u64>) -> int
    decreases shape.len(),
{
    if shape.len() == 0 {
        1
    } else {
        shape[0] as int * volume(shape.skip(1))
    }
}

/// Every dimension of the box is at least one.
pub open spec fn all_positive(shape: Seq<u64>) -> bool {
    forall|i: int| 0 <= i < shape.len() ==> #[trigger] shape[i] > 0
}

/// The coordinate has one component per axis, each below its dimension.
pub open spec fn in_box(coord: Seq<u64>, shape: Seq<u64>) -> bool {
    &&& coord.len() == shape.len()
    &&& forall|i: int| 0 <= i < shape.len() ==> #[trigger] coord[i] < shape[i]
}

/// The row-major position of a coordinate.
pub open spec fn position_of(coord: Seq<u64>, shape: Seq<u64>) -> int
    decreases shape.len(),
{
    if shape.len() == 0 {
        0
    } else {
        coord[0] as int * volume(shape.skip(1)) + position_of(coord.skip(1), shape.skip(1))
    }
}

/// The coordinate at a row-major position.
pub open spec fn coordinate_at(index: int, shape: Seq<u64>) -> Seq<u64>
    decreases shape.len(),
{
    if shape.len() == 0 {
        Seq::empty()
    } else {
        let inner = volume(shape.skip(1));
        seq![(index / inner) as u64] + coordinate_at(index % inner, shape.skip(1))
    }
}

/// The row-major strides of a box: how far one step along each axis moves.
pub open spec fn row_major_strides(shape: Seq<u64>) -> Seq<int> {
    Seq::new(shape.len(), |i: int| volume(shape.skip(i + 1)))
}

/// A box in which some dimension is zero holds nothing, any other holds something.
pub proof fn lemma_volume_positive(shape: Seq<u64>)
    ensures
        volume(shape) >= 0,
        all_positive(shape) <==> volume(shape) > 0,
    decreases shape.len(),
{
    if shape.len() > 0 {
        let rest = shape.skip(1);
        lemma_volume_positive(rest);
        assert forall|i: int| 0 <= i < rest.len() implies #[trigger] rest[i] == shape[i + 1] by {}
        if all_positive(shape) {
            assert forall|i: int| 0 <= i < rest.len() implies #[trigger] rest[i] > 0 by {
                assert(shape[i + 1] > 0);
            }
            lemma_mul_strictly_positive(shape[0] as int, volume(rest));
        } else {
            if shape[0] == 0 {
                assert(volume(shape) == 0) by (nonlinear_arith)
                    requires
                        volume(shape) == shape[0] as int * volume(rest),
                        shape[0] == 0,
                ;
            } else {
                let bad = choose|i: int| 0 <= i < shape.len() && !(#[trigger] shape[i] > 0);
                assert(rest[bad - 1] == shape[bad]);
                assert(!all_positive(rest));
                assert(volume(shape) == 0) by (nonlinear_arith)
                    requires
                        volume(shape) == shape[0] as int * volume(rest),
                        volume(rest) == 0,
                ;
            }
        }
        lemma_mul_nonnegative(shape[0] as int, volume(rest));
    }
}

/// Volumes multiply when boxes are placed side by side.
pub proof fn lemma_volume_concat(left: Seq<u64>, right: Seq<u64>)
    ensures
        volume(left + right) == volume(left) * volume(right),
    decreases left.len(),
{
    if left.len() == 0 {
        assert(left + right =~= right);
    } else {
        let joined = left + right;
        assert(joined.skip(1) =~= left.skip(1) + right);
        lemma_volume_concat(left.skip(1), right);
        lemma_mul_is_associative(left[0] as int, volume(left.skip(1)), volume(right));
    }
}

pub proof fn lemma_volume_split(shape: Seq<u64>, at: int)
    requires
        0 <= at <= shape.len(),
    ensures
        volume(shape) == volume(shape.take(at)) * volume(shape.skip(at)),
{
    assert(shape =~= shape.take(at) + shape.skip(at));
    lemma_volume_concat(shape.take(at), shape.skip(at));
}

pub proof fn lemma_volume_one(dim: u64)
    ensures
        volume(seq![dim]) == dim,
{
    assert(seq![dim].skip(1) =~= Seq::<u64>::empty());
    assert(volume(Seq::<u64>::empty()) == 1);
    assert(volume(seq![dim]) == dim as int * 1);
}

pub proof fn lemma_volume_push(shape: Seq<u64>, dim: u64)
    ensures
        volume(shape.push(dim)) == volume(shape) * dim,
{
    assert(shape.push(dim) =~= shape + seq![dim]);
    lemma_volume_concat(shape, seq![dim]);
    lemma_volume_one(dim);
}

/// A suffix of a box without zero dimensions is no larger than the box.
pub proof fn lemma_volume_suffix_bound(shape: Seq<u64>, at: int)
    requires
        0 <= at <= shape.len(),
        all_positive(shape),
    ensures
        1 <= volume(shape.skip(at)) <= volume(shape),
        1 <= volume(shape.take(at)) <= volume(shape),
{
    lemma_volume_split(shape, at);
    assert forall|i: int| 0 <= i < shape.take(at).len() implies #[trigger] shape.take(at)[i]
        > 0 by {
        assert(shape[i] > 0);
    }
    assert forall|i: int| 0 <= i < shape.skip(at).len() implies #[trigger] shape.skip(at)[i]
        > 0 by {
        assert(shape[i + at] > 0);
    }
    lemma_volume_positive(shape.take(at));
    lemma_volume_positive(shape.skip(at));
    let a = volume(shape.take(at));
    let b = volume(shape.skip(at));
    assert(b <= a * b && a <= a * b) by (nonlinear_arith)
        requires
            a >= 1,
            b >= 1,
    ;
}

/// Every coordinate of a box has a position below its volume.
pub proof fn lemma_position_bound(coord: Seq<u64>, shape: Seq<u64>)
    requires
        in_box(coord, shape),
    ensures
        0 <= position_of(coord, shape) < volume(shape),
    decreases shape.len(),
{
    if shape.len() > 0 {
        let rest = shape.skip(1);
        assert(in_box(coord.skip(1), rest)) by {
            assert forall|i: int| 0 <= i < rest.len() implies #[trigger] coord.skip(1)[i]
                < rest[i] by {
                assert(coord[i + 1] < shape[i + 1]);
            }
        }
        lemma_position_bound(coord.skip(1), rest);
        let inner = volume(rest);
        let c = coord[0] as int;
        let d = shape[0] as int;
        assert(c < d);
        assert(0 <= c * inner && c * inner + inner <= d * inner) by (nonlinear_arith)
            requires
                0 <= c < d,
                inner >= 0,
        ;
    }
}

/// The coordinate at a position below the volume lies in the box, and stands at that position.
pub proof fn lemma_coordinate_position(index: int, shape: Seq<u64>)
    requires
        0 <= index < volume(shape),
        all_positive(shape),
    ensures
        in_box(coordinate_at(index, shape), shape),
        position_of(coordinate_at(index, shape), shape) == index,
    decreases shape.len(),
{
    lemma_coordinate_len(index, shape);
    if shape.len() > 0 {
        let rest = shape.skip(1);
        let inner = volume(rest);
        assert(all_positive(rest)) by {
            assert forall|i: int| 0 <= i < rest.len() implies #[trigger] rest[i] > 0 by {
                assert(shape[i + 1] > 0);
            }
        }
        lemma_volume_positive(rest);
        lemma_fundamental_div_mod(index, inner);
        lemma_mod_bound(index, inner);
        lemma_coordinate_position(index % inner, rest);
        let q = index / inner;
        assert(0 <= q < shape[0]) by {
            lemma_mul_is_commutative(shape[0] as int, inner);
            lemma_multiply_divide_lt(index, inner, shape[0] as int);
            vstd::arithmetic::div_mod::lemma_div_pos_is_pos(index, inner);
        }
        let coord = coordinate_at(index, shape);
        assert(coord.skip(1) =~= coordinate_at(index % inner, rest));
        assert(coord[0] == q);
        lemma_mul_is_commutative(q, inner);
        assert forall|i: int| 0 <= i < shape.len() implies #[trigger] coord[i] < shape[i] by {
            if i > 0 {
                assert(coord.skip(1)[i - 1] < rest[i - 1]);
            }
        }
    }
}

pub proof fn lemma_coordinate_len(index: int, shape: Seq<u64>)
    ensures
        coordinate_at(index, shape).len() == shape.len(),
    decreases shape.len(),
{
    if shape.len() > 0 {
        lemma_coordinate_len(index % volume(shape.skip(1)), shape.skip(1));
    }
}

/// Reading off the coordinate at a coordinate's own position gives that coordinate back.
pub proof fn lemma_position_coordinate(coord: Seq<u64>, shape: Seq<u64>)
    requires
        in_box(coord, shape),
    ensures
        coordinate_at(position_of(coord, shape), shape) == coord,
    decreases shape.len(),
{
    if shape.len() == 0 {
        assert(coord =~= Seq::<u64>::empty());
    } else {
        let rest = shape.skip(1);
        let tail = coord.skip(1);
        assert(in_box(tail, rest)) by {
            assert forall|i: int| 0 <= i < rest.len() implies #[trigger] tail[i] < rest[i] by {
                assert(coord[i + 1] < shape[i + 1]);
            }
        }
        lemma_position_bound(tail, rest);
        lemma_position_coordinate(tail, rest);
        let inner = volume(rest);
        let index = position_of(coord, shape);
        lemma_fundamental_div_mod_converse(index, inner, coord[0] as int, position_of(tail, rest));
        assert(coordinate_at(index, shape) =~= seq![coord[0]] + tail);
        assert(coord =~= seq![coord[0]] + tail);
    }
}

/// The last component of a coordinate is the remainder by the last dimension, and the
/// others stand at the quotient.
pub proof fn lemma_coordinate_last(index: int, shape: Seq<u64>)
    requires
        shape.len() > 0,
        0 <= index < volume(shape),
        all_positive(shape),
    ensures
        coordinate_at(index, shape) == coordinate_at(
            index / shape.last() as int,
            shape.drop_last(),
        ).push((index % shape.last() as int) as u64),
        0 <= index / (shape.last() as int) < volume(shape.drop_last()),
    decreases shape.len(),
{
    let d = shape.last() as int;
    lemma_volume_positive(shape);
    assert(shape =~= shape.drop_last().push(shape.last()));
    lemma_volume_push(shape.drop_last(), shape.last());
    lemma_mul_is_commutative(volume(shape.drop_last()), d);
    lemma_multiply_divide_lt(index, d, volume(shape.drop_last()));
    vstd::arithmetic::div_mod::lemma_div_pos_is_pos(index, d);
    if shape.len() == 1 {
        assert(shape.skip(1) =~= Seq::<u64>::empty());
        assert(shape.drop_last() =~= Seq::<u64>::empty());
        assert(volume(shape.skip(1)) == 1);
        assert(volume(shape) == d);
        vstd::arithmetic::div_mod::lemma_small_mod(index as nat, d as nat);
        assert(index / 1 == index);
        assert(coordinate_at(index % 1, shape.skip(1)) =~= Seq::<u64>::empty());
        assert(coordinate_at(index, shape) =~= seq![index as u64]);
        assert(coordinate_at(index / d, shape.drop_last()) =~= Seq::<u64>::empty());
        assert(coordinate_at(index, shape) =~= coordinate_at(index / d, shape.drop_last()).push(
            index as u64,
        ));
    } else {
        let rest = shape.skip(1);
        let init = shape.drop_last();
        let inner = volume(rest);
        assert(all_positive(rest)) by {
            assert forall|i: int| 0 <= i < rest.len() implies #[trigger] rest[i] > 0 by {
                assert(shape[i + 1] > 0);
            }
        }
        lemma_volume_positive(rest);
        assert(rest.last() == shape.last());
        lemma_mod_bound(index, inner);
        lemma_coordinate_last(index % inner, rest);
        // volume(rest) == volume(init.skip(1)) * d
        assert(init.skip(1) =~= rest.drop_last());
        assert(rest =~= rest.drop_last().push(rest.last()));
        lemma_volume_push(rest.drop_last(), rest.last());
        let short = volume(init.skip(1));
        assert(inner == short * d);
        assert(all_positive(rest.drop_last())) by {
            assert forall|i: int| 0 <= i < rest.drop_last().len() implies
                #[trigger] rest.drop_last()[i] > 0 by {
                assert(rest[i] > 0);
            }
        }
        lemma_volume_positive(rest.drop_last());
        assert(d > 0);
        lemma_mul_is_commutative(short, d);
        lemma_div_denominator(index, d, short);
        assert(index / inner == (index / d) / short);
        lemma_mod_breakdown(index, d, short);
        // index % inner == d * ((index / d) % short) + index % d
        let r = index % inner;
        let m = (index / d) % short;
        lemma_mod_bound(index, d);
        lemma_mod_bound(index / d, short);
        assert(r == m * d + index % d) by {
            lemma_mul_is_commutative(d, m);
        }
        lemma_fundamental_div_mod_converse(r, d, m, index % d);
        let lead = seq![(index / inner) as u64];
        assert(coordinate_at(index, shape) == lead + coordinate_at(r, rest));
        assert(coordinate_at(r, rest) == coordinate_at(m, rest.drop_last()).push(
            (index % d) as u64,
        ));
        assert(coordinate_at(index / d, init) == lead + coordinate_at(m, init.skip(1)));
        assert(lead + coordinate_at(m, rest.drop_last()).push((index % d) as u64) =~= (lead
            + coordinate_at(m, rest.drop_last())).push((index % d) as u64));
    }
}

/// A coordinate of two boxes side by side is a coordinate of the first, at the quotient by
/// the second's volume, followed by one of the second, at the remainder.
pub proof fn lemma_coordinate_concat(index: int, left: Seq<u64>, right: Seq<u64>)
    requires
        0 <= index < volume(left + right),
        all_positive(left),
        all_positive(right),
    ensures
        coordinate_at(index, left + right) == coordinate_at(index / volume(right), left)
            + coordinate_at(index % volume(right), right),
        0 <= index / volume(right) < volume(left),
        0 <= index % volume(right) < volume(right),
    decreases left.len(),
{
    let w = volume(right);
    lemma_volume_positive(left);
    lemma_volume_positive(right);
    lemma_volume_concat(left, right);
    lemma_mod_bound(index, w);
    lemma_mul_is_commutative(volume(left), w);
    lemma_multiply_divide_lt(index, w, volume(left));
    vstd::arithmetic::div_mod::lemma_div_pos_is_pos(index, w);
    if left.len() == 0 {
        assert(left + right =~= right);
        vstd::arithmetic::div_mod::lemma_small_mod(index as nat, w as nat);
        assert(coordinate_at(index / w, left) =~= Seq::<u64>::empty());
        assert(coordinate_at(index / w, left) + coordinate_at(index % w, right)
            =~= coordinate_at(index, right));
    } else {
        let tail = left.skip(1);
        assert(all_positive(tail)) by {
            assert forall|i: int| 0 <= i < tail.len() implies #[trigger] tail[i] > 0 by {
                assert(left[i + 1] > 0);
            }
        }
        lemma_volume_positive(tail);
        let v = volume(tail);
        let inner = volume(tail + right);
        lemma_volume_concat(tail, right);
        assert((left + right).skip(1) =~= tail + right);
        lemma_mul_strictly_positive(v, w);
        lemma_mod_bound(index, inner);
        lemma_coordinate_concat(index % inner, tail, right);
        lemma_mul_is_commutative(v, w);
        lemma_div_denominator(index, w, v);
        lemma_mod_breakdown(index, w, v);
        let m = (index / w) % v;
        lemma_mod_bound(index / w, v);
        lemma_mul_is_commutative(w, m);
        lemma_fundamental_div_mod_converse(index % inner, w, m, index % w);
        let lead = seq![(index / inner) as u64];
        assert(coordinate_at(index, left + right) == lead + coordinate_at(
            index % inner,
            tail + right,
        ));
        assert(coordinate_at(index / w, left) == lead + coordinate_at(m, tail));
        assert(lead + (coordinate_at(m, tail) + coordinate_at(index % w, right)) =~= (lead
            + coordinate_at(m, tail)) + coordinate_at(index % w, right));
    }
}

/// Each component of a coordinate is read off the position by the axis' stride and dimension.
pub proof fn lemma_coordinate_component(index: int, shape: Seq<u64>, axis: int)
    requires
        0 <= index < volume(shape),
        all_positive(shape),
        0 <= axis < shape.len(),
    ensures
        coordinate_at(index, shape).len() == shape.len(),
        coordinate_at(index, shape)[axis] == (index / volume(shape.skip(axis + 1)))
            % shape[axis] as int,
    decreases shape.len(),
{
    lemma_coordinate_len(index, shape);
    lemma_coordinate_last(index, shape);
    let d = shape.last() as int;
    let init = shape.drop_last();
    assert(all_positive(init)) by {
        assert forall|i: int| 0 <= i < init.len() implies #[trigger] init[i] > 0 by {
            assert(shape[i] > 0);
        }
    }
    if axis == shape.len() - 1 {
        assert(shape.skip(axis + 1) =~= Seq::<u64>::empty());
        assert(volume(shape.skip(axis + 1)) == 1);
        assert(index / 1 == index);
        lemma_mod_bound(index, d);
    } else {
        lemma_coordinate_component(index / d, init, axis);
        assert(shape.skip(axis + 1) =~= init.skip(axis + 1).push(shape.last()));
        lemma_volume_push(init.skip(axis + 1), shape.last());
        lemma_volume_suffix_bound(init, axis + 1);
        lemma_mul_is_commutative(volume(init.skip(axis + 1)), d);
        lemma_div_denominator(index, d, volume(init.skip(axis + 1)));
    }
}

/// The sum of the components, each weighted.
pub open spec fn weighted_sum(coord: Seq<u64>, weights: Seq<int>) -> int
    decreases coord.len(),
{
    if coord.len() == 0 {
        0
    } else {
        weighted_sum(coord.drop_last(), weights.drop_last()) + coord.last() as int * weights.last()
    }
}

pub proof fn lemma_weighted_scale(coord: Seq<u64>, weights: Seq<int>, scaled: Seq<int>, by: int)
    requires
        coord.len() == weights.len() == scaled.len(),
        forall|i: int| 0 <= i < weights.len() ==> #[trigger] scaled[i] == weights[i] * by,
    ensures
        weighted_sum(coord, scaled) == weighted_sum(coord, weights) * by,
    decreases coord.len(),
{
    if coord.len() > 0 {
        assert forall|i: int| 0 <= i < weights.drop_last().len() implies
            #[trigger] scaled.drop_last()[i] == weights.drop_last()[i] * by by {
            assert(scaled[i] == weights[i] * by);
        }
        lemma_weighted_scale(coord.drop_last(), weights.drop_last(), scaled.drop_last(), by);
        let c = coord.last() as int;
        let w = weights.last();
        assert(scaled.last() == w * by);
        lemma_mul_is_associative(c, w, by);
        lemma_mul_is_distributive_add_other_way(
            by,
            weighted_sum(coord.drop_last(), weights.drop_last()),
            c * w,
        );
    }
}

pub proof fn lemma_weighted_update(coord: Seq<u64>, weights: Seq<int>, at: int, value: u64)
    requires
        coord.len() == weights.len(),
        0 <= at < coord.len(),
    ensures
        weighted_sum(coord.update(at, value), weights) == weighted_sum(coord, weights) + (value
            - coord[at]) * weights[at],
    decreases coord.len(),
{
    let changed = coord.update(at, value);
    let w = weights[at];
    assert((value - coord[at]) * w == value * w - coord[at] * w) by (nonlinear_arith);
    if at == coord.len() - 1 {
        assert(changed.drop_last() =~= coord.drop_last());
    } else {
        assert(changed.drop_last() =~= coord.drop_last().update(at, value));
        lemma_weighted_update(coord.drop_last(), weights.drop_last(), at, value);
    }
}

/// Changing one component moves the position by that many strides.
pub proof fn lemma_position_update(coord: Seq<u64>, shape: Seq<u64>, at: int, value: u64)
    requires
        coord.len() == shape.len(),
        0 <= at < coord.len(),
    ensures
        position_of(coord.update(at, value), shape) == position_of(coord, shape) + (value
            - coord[at]) * volume(shape.skip(at + 1)),
{
    lemma_position_weighted(coord, shape);
    lemma_position_weighted(coord.update(at, value), shape);
    lemma_weighted_update(coord, row_major_strides(shape), at, value);
}

/// A position is the quotient part times the last dimension plus the last component.
pub proof fn lemma_position_last(coord: Seq<u64>, shape: Seq<u64>)
    requires
        coord.len() == shape.len() > 0,
    ensures
        position_of(coord, shape) == position_of(coord.drop_last(), shape.drop_last())
            * shape.last() + coord.last(),
    decreases shape.len(),
{
    let d = shape.last() as int;
    if shape.len() == 1 {
        assert(shape.skip(1) =~= Seq::<u64>::empty());
        assert(volume(shape.skip(1)) == 1);
        assert(position_of(coord.skip(1), shape.skip(1)) == 0);
        assert(shape.drop_last() =~= Seq::<u64>::empty());
        assert(position_of(coord.drop_last(), shape.drop_last()) == 0);
        assert(coord[0] as int * 1 == coord[0]);
    } else {
        let rest = shape.skip(1);
        let tail = coord.skip(1);
        lemma_position_last(tail, rest);
        assert(tail.drop_last() =~= coord.drop_last().skip(1));
        assert(rest.drop_last() =~= shape.drop_last().skip(1));
        assert(rest =~= rest.drop_last().push(rest.last()));
        lemma_volume_push(rest.drop_last(), rest.last());
        let c = coord[0] as int;
        let v = volume(rest.drop_last());
        lemma_mul_is_associative(c, v, d);
        lemma_mul_is_distributive_add_other_way(
            d,
            c * v,
            position_of(tail.drop_last(), rest.drop_last()),
        );
    }
}

/// The position of a coordinate is its components weighted by the row-major strides.
pub proof fn lemma_position_weighted(coord: Seq<u64>, shape: Seq<u64>)
    requires
        coord.len() == shape.len(),
    ensures
        position_of(coord, shape) == weighted_sum(coord, row_major_strides(shape)),
    decreases shape.len(),
{
    if shape.len() > 0 {
        let init = shape.drop_last();
        let d = shape.last() as int;
        lemma_position_last(coord, shape);
        lemma_position_weighted(coord.drop_last(), init);
        let strides = row_major_strides(shape);
        assert forall|i: int| 0 <= i < init.len() implies #[trigger] strides.drop_last()[i]
            == row_major_strides(init)[i] * d by {
            assert(shape.skip(i + 1) =~= init.skip(i + 1).push(shape.last()));
            lemma_volume_push(init.skip(i + 1), shape.last());
        }
        lemma_weighted_scale(
            coord.drop_last(),
            row_major_strides(init),
            strides.drop_last(),
            d,
        );
        assert(shape.skip(shape.len() as int) =~= Seq::<u64>::empty());
        assert(strides.last() == 1);
        assert(coord.last() as int * 1 == coord.last());
    }
}

/// What follows a coordinate when the axes behind `axis` have run out: one step along
/// `axis`, and the axes behind it start over.
pub open spec fn carried(coord: Seq<u64>, axis: int) -> Seq<u64> {
    Seq::new(
        coord.len(),
        |i: int|
            if i < axis {
                coord[i]
            } else if i == axis {
                (coord[i] + 1) as u64
            } else {
                0
            },
    )
}

/// The coordinate at the next position: step the last axis that can step, and let every
/// axis behind it start over.
pub proof fn lemma_next_coordinate(index: int, shape: Seq<u64>, axis: int)
    requires
        0 <= index < volume(shape),
        all_positive(shape),
        0 <= axis < shape.len(),
        coordinate_at(index, shape)[axis] + 1 < shape[axis],
        forall|i: int|
            axis < i < shape.len() ==> #[trigger] coordinate_at(index, shape)[i] + 1 == shape[i],
    ensures
        index + 1 < volume(shape),
        coordinate_at(index + 1, shape) == carried(coordinate_at(index, shape), axis),
    decreases shape.len(),
{
    let d = shape.last() as int;
    let init = shape.drop_last();
    let coord = coordinate_at(index, shape);
    lemma_coordinate_last(index, shape);
    lemma_coordinate_len(index, shape);
    lemma_coordinate_position(index, shape);
    lemma_fundamental_div_mod(index, d);
    lemma_mod_bound(index, d);
    assert(shape =~= init.push(shape.last()));
    lemma_volume_push(init, shape.last());
    let q = index / d;
    let m = index % d;
    lemma_mul_is_commutative(d, q);
    assert(coord.last() == m);
    if axis == shape.len() - 1 {
        lemma_fundamental_div_mod_converse(index + 1, d, q, m + 1);
        assert(index + 1 < volume(shape)) by (nonlinear_arith)
            requires
                index == q * d + m,
                0 <= m,
                m + 1 < d,
                q + 1 <= volume(init),
                volume(shape) == volume(init) * d,
        ;
        lemma_coordinate_last(index + 1, shape);
        assert(coordinate_at(index + 1, shape) =~= carried(coord, axis));
    } else {
        assert(all_positive(init)) by {
            assert forall|i: int| 0 <= i < init.len() implies #[trigger] init[i] > 0 by {
                assert(shape[i] > 0);
            }
        }
        let head = coordinate_at(q, init);
        assert(coord == head.push(m as u64));
        lemma_coordinate_len(q, init);
        assert(coord[shape.len() - 1] + 1 == shape[shape.len() - 1]);
        assert forall|i: int| axis < i < init.len() implies #[trigger] head[i] + 1 == init[i] by {
            assert(coord[i] + 1 == shape[i]);
        }
        assert(head[axis] == coord[axis]);
        lemma_next_coordinate(q, init, axis);
        assert(index + 1 == (q + 1) * d) by (nonlinear_arith)
            requires
                index == q * d + m,
                m + 1 == d,
        ;
        lemma_fundamental_div_mod_converse(index + 1, d, q + 1, 0);
        assert(index + 1 < volume(shape)) by (nonlinear_arith)
            requires
                index + 1 == (q + 1) * d,
                q + 1 < volume(init),
                d > 0,
                volume(shape) == volume(init) * d,
        ;
        lemma_coordinate_last(index + 1, shape);
        assert(coordinate_at(index + 1, shape) =~= carried(coord, axis));
    }
}

/// Only the last coordinate of a box cannot step along any axis.
pub proof fn lemma_last_coordinate(index: int, shape: Seq<u64>)
    requires
        0 <= index < volume(shape),
        all_positive(shape),
        forall|i: int|
            0 <= i < shape.len() ==> #[trigger] coordinate_at(index, shape)[i] + 1 == shape[i],
    ensures
        index + 1 == volume(shape),
    decreases shape.len(),
{
    if shape.len() > 0 {
        let d = shape.last() as int;
        let init = shape.drop_last();
        let coord = coordinate_at(index, shape);
        lemma_coordinate_last(index, shape);
        lemma_coordinate_len(index, shape);
        lemma_fundamental_div_mod(index, d);
        lemma_mod_bound(index, d);
        let q = index / d;
        let head = coordinate_at(q, init);
        lemma_coordinate_len(q, init);
        assert(all_positive(init)) by {
            assert forall|i: int| 0 <= i < init.len() implies #[trigger] init[i] > 0 by {
                assert(shape[i] > 0);
            }
        }
        assert forall|i: int| 0 <= i < init.len() implies #[trigger] head[i] + 1 == init[i] by {
            assert(coord[i] + 1 == shape[i]);
        }
        assert(coord[shape.len() - 1] + 1 == shape[shape.len() - 1]);
        lemma_last_coordinate(q, init);
        assert(shape =~= init.push(shape.last()));
        lemma_volume_push(init, shape.last());
        assert(index + 1 == volume(shape)) by (nonlinear_arith)
            requires
                index == d * q + (d - 1),
                q + 1 == volume(init),
                volume(shape) == volume(init) * d,
        ;
    }
}

/// The first coordinate is all zeros.
pub proof fn lemma_coordinate_zero(shape: Seq<u64>)
    requires
        all_positive(shape),
    ensures
        coordinate_at(0, shape) == Seq::new(shape.len(), |i: int| 0u64),
    decreases shape.len(),
{
    if shape.len() > 0 {
        let rest = shape.skip(1);
        assert(all_positive(rest)) by {
            assert forall|i: int| 0 <= i < rest.len() implies #[trigger] rest[i] > 0 by {
                assert(shape[i + 1] > 0);
            }
        }
        lemma_volume_positive(rest);
        lemma_coordinate_zero(rest);
        let inner = volume(rest);
        assert(0int / inner == 0 && 0int % inner == 0) by (nonlinear_arith)
            requires
                inner > 0,
        ;
        assert(coordinate_at(0, shape) =~= Seq::new(shape.len(), |i: int| 0u64));
    } else {
        assert(coordinate_at(0, shape) =~= Seq::new(shape.len(), |i: int| 0u64));
    }
}

/// Step a coordinate to the next position of its box.
pub(crate) fn advance(coord: &mut Coord, shape: &[u64])
    requires
        all_positive(shape@),
        in_box(old(coord)@, shape@),
        position_of(old(coord)@, shape@) + 1 < volume(shape@),
    ensures
        final(coord)@ == coordinate_at(position_of(old(coord)@, shape@) + 1, shape@),
        in_box(final(coord)@, shape@),
        position_of(final(coord)@, shape@) == position_of(old(coord)@, shape@) + 1,
{
    let ghost start = coord@;
    let ghost index = position_of(start, shape@);
    proof {
        lemma_position_bound(start, shape@);
        lemma_position_coordinate(start, shape@);
    }
    let mut axis: usize = shape.len();
    loop
        invariant_except_break
            0 < axis <= shape.len(),
            forall|i: int| axis <= i < shape.len() ==> #[trigger] start[i] + 1 == shape@[i],
            forall|i: int|
                0 <= i < shape.len() ==> #[trigger] coord@[i] == if i < axis {
                    start[i]
                } else {
                    0
                },
        invariant
            coord@.len() == start.len() == shape.len(),
            in_box(start, shape@),
            all_positive(shape@),
            start == coordinate_at(index, shape@),
            0 <= index,
            index + 1 < volume(shape@),
        ensures
            coord@ == coordinate_at(index + 1, shape@),
        decreases axis,
    {
        axis -= 1;
        let value: u64 = coord.as_slice()[axis];
        assert(coord@[axis as int] == start[axis as int]);
        assert(start[axis as int] < shape@[axis as int]);
        if value + 1 < shape[axis] {
            coord.set(axis, value + 1);
            proof {
                lemma_next_coordinate(index, shape@, axis as int);
                assert(coord@ =~= carried(start, axis as int));
            }
            break ;
        }
        coord.set(axis, 0);
        proof {
            if axis == 0 {
                lemma_last_coordinate(index, shape@);
            }
        }
    }
    proof {
        lemma_coordinate_position(index + 1, shape@);
    }
}

} // verus!
