//! Plans for reading stored blocks. Every run of a plan covers requested elements, so a plan
//! is no longer than its request; it keeps the request's order and its duplicates.

use vstd::prelude::*;
use vstd::arithmetic::div_mod::{lemma_fundamental_div_mod, lemma_mod_bound};
use vstd::arithmetic::mul::lemma_mul_is_commutative;
use crate::error::{Error, Result};
use crate::geometry::{
    all_positive, coordinate_at, in_box, lemma_coordinate_component, lemma_coordinate_len,
    lemma_coordinate_position, lemma_position_bound, lemma_position_coordinate,
    lemma_position_update, lemma_position_weighted, lemma_volume_positive, lemma_volume_push,
    lemma_volume_split, lemma_volume_suffix_bound, lemma_weighted_update, position_of, row_major_strides, volume,
    weighted_sum,
};
use crate::inline::Coord;
use crate::mapping::{
    affine_maps_are_weighted_sums, affine_strides, constants, Contribution, CoordinateMap, fits,
    has_table, identity_map, identity_resolves_to_itself, is_affine, lemma_identity_offset,
    lemma_unravel, Mapping, offset_at, resolves, same_numbers, stride_axes, unravel,
};
use crate::request::{
    axes_fit, axes_lens, axes_of, axes_volume, Axis, axis_at, axis_len, BatchRequest, box_coords,
    boxes_coords, boxes_len, boxes_of, Cartesian, decode_flat, lemma_box_coord, lemma_boxes_index,
    lemma_boxes_len, lemma_boxes_prefix, lens_fit, linear_segments, request_coords, request_fits,
    request_len, RequestKind, Requested, requested_coordinates_lie_in_the_shape, segment_at,
    Selection,
};
use crate::schema::{
    are_strides, BlockPosition, ceil_div, checked_product, grid_of, lemma_ceil_div,
    lemma_product_fits, product_fits, valid_dims,
};

verus! {

/// Consecutive elements of a request that stand at a constant stride in one block.
#[derive(Clone, Copy, Debug, PartialEq, Eq, Structural)]
pub struct Run {
    /// Where the run starts in the request.
    pub output: usize,
    /// Where it starts in the block.
    pub offset: usize,
    pub stride: i64,
    pub len: usize,
}

/// The run has elements, and all of them lie in the block and in the request.
pub open spec fn run_fits(run: Run, block_len: int, output_len: int) -> bool {
    &&& run.len > 0
    &&& run.output + run.len <= output_len
    &&& run.offset < block_len
    &&& 0 <= run.offset + run.stride * (run.len - 1) < block_len
}

/// What a run writes to an output at a place, where it reaches it.
pub open spec fn scattered<T>(run: Run, block: Seq<T>, output: Seq<T>) -> Seq<T> {
    Seq::new(
        output.len(),
        |i: int|
            if run.output <= i < run.output + run.len {
                block[run.offset + run.stride * (i - run.output)]
            } else {
                output[i]
            },
    )
}

fn invalid() -> (error: Error)
    ensures
        error is InvalidLayout,
{
    Error::InvalidLayout("invalid storage run bounds or arithmetic overflow".to_string())
}

pub proof fn lemma_run_inside(run: Run, block_len: int, output_len: int, i: int)
    requires
        run_fits(run, block_len, output_len),
        0 <= i < run.len,
    ensures
        0 <= run.offset + run.stride * i < block_len,
{
    let s = run.stride as int;
    let n = run.len - 1;
    if s >= 0 {
        assert(0 <= s * i <= s * n) by (nonlinear_arith)
            requires
                s >= 0,
                0 <= i <= n,
        ;
    } else {
        assert(s * n <= s * i <= 0) by (nonlinear_arith)
            requires
                s < 0,
                0 <= i <= n,
        ;
    }
}

proof fn lemma_run_arithmetic(run: Run)
    ensures
        run.len > 0 ==> i128::MIN <= run.stride * (run.len - 1) && run.offset + run.stride * (
        run.len - 1) <= i128::MAX && run.stride * (run.len - 1) <= i128::MAX,
        run.len > 0 ==> i128::MIN <= run.offset + run.stride * (run.len - 1),
{
    let s = run.stride as int;
    let n = run.len - 1;
    if run.len > 0 {
        assert(-0x8000_0000_0000_0000 * 0xffff_ffff_ffff_ffff <= s * n <= 0x7fff_ffff_ffff_ffff
            * 0xffff_ffff_ffff_ffff) by (nonlinear_arith)
            requires
                -0x8000_0000_0000_0000 <= s <= 0x7fff_ffff_ffff_ffff,
                0 <= n <= 0xffff_ffff_ffff_ffff,
        ;
    }
}

impl Run {
    pub fn validate(&self, block_len: usize, output_len: usize) -> (result: Result<()>)
        ensures
            run_fits(*self, block_len as int, output_len as int) ==> result is Ok,
            !run_fits(*self, block_len as int, output_len as int) ==> result matches Err(
                Error::InvalidLayout(_),
            ),
    {
        let end: usize = match self.output.checked_add(self.len) {
            Some(end) => end,
            None => {
                return Err(invalid());
            },
        };
        if self.len == 0 {
            return Err(invalid());
        }
        proof {
            lemma_run_arithmetic(*self);
        }
        let last: i128 = self.offset as i128 + self.stride as i128 * (self.len - 1) as i128;
        if end > output_len || self.offset >= block_len || last < 0 || last >= block_len as i128 {
            return Err(invalid());
        }
        Ok(())
    }

    /// Copy the run's elements out of its block. Where the run does not fit, nothing is
    /// written.
    pub fn scatter<T: Copy>(&self, block: &[T], output: &mut [T]) -> (result: Result<()>)
        ensures
            run_fits(*self, block@.len() as int, old(output)@.len() as int) ==> result is Ok
                && final(output)@ == scattered(*self, block@, old(output)@),
            !run_fits(*self, block@.len() as int, old(output)@.len() as int) ==> final(output)@
                == old(output)@ && result matches Err(Error::InvalidLayout(_)),
    {
        self.validate(block.len(), output.len())?;
        let ghost before = output@;
        let total: usize = output.len();
        let mut i: usize = 0;
        while i < self.len
            invariant
                i <= self.len,
                before.len() == total,
                run_fits(*self, block@.len() as int, before.len() as int),
                output@.len() == before.len(),
                forall|j: int|
                    0 <= j < before.len() ==> #[trigger] output@[j] == if self.output <= j
                        < self.output + i {
                        block@[self.offset + self.stride * (j - self.output)]
                    } else {
                        before[j]
                    },
            decreases self.len - i,
        {
            proof {
                lemma_run_inside(*self, block@.len() as int, before.len() as int, i as int);
                assert(-0x8000_0000_0000_0000 * 0xffff_ffff_ffff_ffff <= self.stride * i
                    <= 0x7fff_ffff_ffff_ffff * 0xffff_ffff_ffff_ffff) by (nonlinear_arith)
                    requires
                        -0x8000_0000_0000_0000 <= self.stride <= 0x7fff_ffff_ffff_ffff,
                        0 <= i <= 0xffff_ffff_ffff_ffff,
                ;
            }
            let at: usize = (self.offset as i128 + self.stride as i128 * i as i128) as usize;
            output[self.output + i] = block[at];
            i += 1;
        }
        proof {
            assert(output@ =~= scattered(*self, block@, before));
        }
        Ok(())
    }
}

/// The elements of a run: where each one stands in the request, and where in the block.
pub open spec fn run_spots(run: Run) -> Seq<(int, int)> {
    Seq::new(
        run.len as nat,
        |i: int| (run.output + i, run.offset + run.stride * i),
    )
}

/// The elements of some runs, one run after the other.
pub open spec fn spots(runs: Seq<Run>) -> Seq<(int, int)>
    decreases runs.len(),
{
    if runs.len() == 0 {
        Seq::empty()
    } else {
        spots(runs.drop_last()) + run_spots(runs.last())
    }
}

/// Every run fits.
pub open spec fn runs_fit(runs: Seq<Run>, block_len: int, output_len: int) -> bool {
    forall|i: int| 0 <= i < runs.len() ==> run_fits(#[trigger] runs[i], block_len, output_len)
}

/// One run goes on with another: it starts where the other ends, in the request and, at the stride
/// of both, in the block. A single element has any stride.
pub open spec fn can_join(first: Run, second: Run) -> bool {
    let stride = if first.len == 1 {
        second.offset - first.offset
    } else {
        first.stride as int
    };
    &&& first.output + first.len == second.output
    &&& second.len == 1 || second.stride == stride
    &&& first.offset + stride * first.len == second.offset
}

/// No run goes on with the one before it.
pub open spec fn are_joined(runs: Seq<Run>) -> bool {
    forall|i: int, j: int|
        0 <= i && i + 1 == j && j < runs.len() ==> !#[trigger] can_join(runs[i], runs[j])
}

/// Append a run, as part of the last one where it goes on with it.
fn push_run(runs: &mut Vec<Run>, next: Run, Ghost(block_len): Ghost<int>, Ghost(total): Ghost<int>)
    requires
        block_len <= i64::MAX,
        total <= usize::MAX,
        runs_fit(old(runs)@, block_len, total),
        run_fits(next, block_len, total),
        are_joined(old(runs)@),
    ensures
        spots(final(runs)@) == spots(old(runs)@) + run_spots(next),
        runs_fit(final(runs)@, block_len, total),
        are_joined(final(runs)@),
        0 < final(runs)@.len() <= old(runs)@.len() + 1,
{
    let ghost before = runs@;
    let n: usize = runs.len();
    if n > 0 {
        let a: Run = runs[n - 1];
        let b: Run = next;
        assert(run_fits(runs@[n - 1], block_len, total));
        let stride: i64 = if a.len == 1 {
            b.offset as i64 - a.offset as i64
        } else {
            a.stride
        };
        proof {
            lemma_run_arithmetic(a);
            assert(-0x8000_0000_0000_0000 * 0xffff_ffff_ffff_ffff <= stride * a.len
                <= 0x7fff_ffff_ffff_ffff * 0xffff_ffff_ffff_ffff) by (nonlinear_arith)
                requires
                    -0x8000_0000_0000_0000 <= stride <= 0x7fff_ffff_ffff_ffff,
                    0 <= a.len <= 0xffff_ffff_ffff_ffff,
            ;
        }
        if a.output + a.len == b.output && (b.len == 1 || b.stride == stride) && a.offset as i128
            + stride as i128 * a.len as i128 == b.offset as i128 {
            let joined = Run { output: a.output, offset: a.offset, stride, len: a.len + b.len };
            runs.set(n - 1, joined);
            proof {
                assert(runs@.drop_last() =~= before.drop_last());
                assert(run_spots(joined) =~= run_spots(a) + run_spots(b)) by {
                    assert forall|i: int| 0 <= i < joined.len implies #[trigger] run_spots(joined)[i]
                        == (run_spots(a) + run_spots(b))[i] by {
                        if i < a.len {
                            if a.len == 1 {
                                assert(i == 0);
                                assert(stride * 0 == 0 && a.stride * 0 == 0);
                            }
                        } else {
                            let k = i - a.len;
                            assert(stride * i == stride * a.len + stride * k) by (nonlinear_arith)
                                requires
                                    i == a.len + k,
                            ;
                            if b.len == 1 {
                                assert(k == 0);
                                assert(stride * 0 == 0 && b.stride * 0 == 0);
                            }
                        }
                    }
                }
                assert(spots(runs@) =~= spots(before) + run_spots(next));
                let last = joined.len - 1;
                assert(run_spots(joined)[last] == run_spots(b)[b.len - 1]);
                assert forall|i: int, j: int|
                    0 <= i && i + 1 == j && j < runs@.len() implies !#[trigger] can_join(
                    runs@[i],
                    runs@[j],
                ) by {
                    assert(!can_join(before[i], before[j]));
                }
                assert forall|i: int| 0 <= i < runs@.len() implies run_fits(
                    #[trigger] runs@[i],
                    block_len,
                    total,
                ) by {
                    assert(run_fits(before[i], block_len, total));
                }
            }
            return ;
        }
    }
    runs.push(next);
    proof {
        assert(runs@.drop_last() =~= before);
        assert forall|i: int, j: int|
            0 <= i && i + 1 == j && j < runs@.len() implies !#[trigger] can_join(
            runs@[i],
            runs@[j],
        ) by {
            if j < before.len() {
                assert(!can_join(before[i], before[j]));
            }
        }
        assert forall|i: int| 0 <= i < runs@.len() implies run_fits(
            #[trigger] runs@[i],
            block_len,
            total,
        ) by {
            if i < before.len() {
                assert(run_fits(before[i], block_len, total));
            }
        }
    }
}

/// The runs of one logical block.
#[derive(Debug)]
pub struct Group {
    /// The index on the sparse axis, or zero, and the block of the grid.
    pub key: [u64; 2],
    pub runs: Vec<Run>,
}

/// The order of keys.
pub open spec fn key_below(left: Seq<u64>, right: Seq<u64>) -> bool {
    left[0] < right[0] || (left[0] == right[0] && left[1] < right[1])
}

/// The groups stand in the order of their keys, and no key stands twice.
pub open spec fn keys_ordered(groups: Seq<Group>) -> bool {
    forall|i: int, j: int|
        0 <= i < j < groups.len() ==> key_below(
            (#[trigger] groups[i]).key@,
            (#[trigger] groups[j]).key@,
        )
}

/// Where an element is found: the key of its block, and the place in it.
pub struct Address {
    pub key: Seq<u64>,
    pub place: int,
}

/// Some run covers the element.
pub open spec fn is_read(groups: Seq<Group>, output: int) -> bool {
    exists|g: int, s: int|
        0 <= g < groups.len() && 0 <= s < spots(groups[g].runs@).len() && (#[trigger] spots(
            groups[g].runs@,
        )[s]).0 == output
}

/// The groups read the element at each address, in the order of the addresses within each
/// group, each exactly once.
pub open spec fn reads(groups: Seq<Group>, addresses: Seq<Address>) -> bool {
    &&& forall|g: int, s: int|
        #![trigger spots(groups[g].runs@)[s]]
        0 <= g < groups.len() && 0 <= s < spots(groups[g].runs@).len() ==> {
            let (output, place) = spots(groups[g].runs@)[s];
            &&& 0 <= output < addresses.len()
            &&& addresses[output] == (Address { key: groups[g].key@, place })
        }
    &&& forall|o: int| 0 <= o < addresses.len() ==> #[trigger] is_read(groups, o)
    &&& forall|g: int, s: int, t: int|
        #![trigger spots(groups[g].runs@)[s], spots(groups[g].runs@)[t]]
        0 <= g < groups.len() && 0 <= s < t < spots(groups[g].runs@).len() ==> spots(
            groups[g].runs@,
        )[s].0 < spots(groups[g].runs@)[t].0
}

/// What is read from each block, in the order of the blocks.
#[derive(Debug)]
pub struct LogicalGroups {
    pub groups: Vec<Group>,
}

impl LogicalGroups {
    pub fn new() -> (plan: Self)
        ensures
            plan.groups@.len() == 0,
    {
        LogicalGroups { groups: Vec::new() }
    }

    pub fn len(&self) -> (len: usize)
        ensures
            len == self.groups@.len(),
    {
        self.groups.len()
    }

    /// Where a key stands, or would stand.
    fn find(&self, key: [u64; 2]) -> (result: (usize, bool))
        requires
            keys_ordered(self.groups@),
        ensures
            result.0 <= self.groups@.len(),
            forall|i: int|
                0 <= i < result.0 ==> key_below((#[trigger] self.groups@[i]).key@, key@),
            result.1 ==> result.0 < self.groups@.len() && self.groups@[result.0 as int].key@
                == key@,
            !result.1 ==> forall|i: int|
                result.0 <= i < self.groups@.len() ==> key_below(
                    key@,
                    (#[trigger] self.groups@[i]).key@,
                ),
    {
        let mut low: usize = 0;
        let mut high: usize = self.groups.len();
        while low < high
            invariant
                low <= high <= self.groups@.len(),
                keys_ordered(self.groups@),
                forall|i: int| 0 <= i < low ==> key_below((#[trigger] self.groups@[i]).key@, key@),
                forall|i: int|
                    high <= i < self.groups@.len() ==> key_below(
                        key@,
                        (#[trigger] self.groups@[i]).key@,
                    ),
            decreases high - low,
        {
            let mid: usize = low + (high - low) / 2;
            let other: [u64; 2] = self.groups[mid].key;
            assert(other@ == self.groups@[mid as int].key@);
            if other[0] == key[0] && other[1] == key[1] {
                proof {
                    assert(other@ =~= key@);
                    assert forall|i: int| 0 <= i < mid implies key_below(
                        (#[trigger] self.groups@[i]).key@,
                        key@,
                    ) by {
                        assert(key_below(self.groups@[i].key@, self.groups@[mid as int].key@));
                    }
                }
                return (mid, true);
            }
            if other[0] < key[0] || (other[0] == key[0] && other[1] < key[1]) {
                proof {
                    assert forall|i: int| 0 <= i < mid + 1 implies key_below(
                        (#[trigger] self.groups@[i]).key@,
                        key@,
                    ) by {
                        if i < mid {
                            assert(key_below(self.groups@[i].key@, self.groups@[mid as int].key@));
                        }
                    }
                }
                low = mid + 1;
            } else {
                proof {
                    assert forall|i: int| mid <= i < self.groups@.len() implies key_below(
                        key@,
                        (#[trigger] self.groups@[i]).key@,
                    ) by {
                        if i > mid {
                            assert(key_below(self.groups@[mid as int].key@, self.groups@[i].key@));
                        }
                    }
                }
                high = mid;
            }
        }
        (low, false)
    }
}

/// A plan while it is made.
struct Planner {
    plan: LogicalGroups,
    end: usize,
    block_len: usize,
    total: usize,
    addresses: Ghost<Seq<Address>>,
}

/// The addresses that a run reads.
pub open spec fn run_addresses(key: Seq<u64>, run: Run) -> Seq<Address> {
    Seq::new(
        run.len as nat,
        |i: int| Address { key, place: run.offset + run.stride * i },
    )
}

impl Planner {
    spec fn wf(&self) -> bool {
        let groups = self.plan.groups@;
        &&& self.block_len <= i64::MAX
        &&& self.end <= self.total
        &&& self.addresses@.len() == self.end
        &&& keys_ordered(groups)
        &&& reads(groups, self.addresses@)
        &&& forall|g: int|
            0 <= g < groups.len() ==> runs_fit(
                (#[trigger] groups[g]).runs@,
                self.block_len as int,
                self.total as int,
            ) && groups[g].runs@.len() > 0 && are_joined(groups[g].runs@)
    }

    /// Read some more elements.
    fn emit(&mut self, key: [u64; 2], run: Run) -> (result: Result<()>)
        requires
            old(self).wf(),
        ensures
            final(self).wf(),
            final(self).block_len == old(self).block_len,
            final(self).total == old(self).total,
            result is Ok <==> run_fits(run, old(self).block_len as int, old(self).total as int)
                && run.output == old(self).end,
            result is Ok ==> {
                &&& final(self).end == old(self).end + run.len
                &&& final(self).addresses@ == old(self).addresses@ + run_addresses(key@, run)
            },
            result matches Err(error) ==> error is InvalidLayout,
    {
        run.validate(self.block_len, self.total)?;
        if run.output != self.end {
            return Err(invalid());
        }
        let ghost before = self.plan.groups@;
        let ghost old_addresses = self.addresses@;
        let ghost more = run_addresses(key@, run);
        let ghost block_len = self.block_len as int;
        let ghost total = self.total as int;
        let (at, found) = self.plan.find(key);
        if !found {
            self.plan.groups.insert(at, Group { key, runs: Vec::new() });
        }
        let ghost middle = self.plan.groups@;
        let mut group = self.plan.groups.remove(at);
        let ghost old_runs = group.runs@;
        proof {
            if found {
                assert(middle == before);
                assert(group == before[at as int]);
                assert(runs_fit(before[at as int].runs@, block_len, total));
            } else {
                assert(group == middle[at as int]);
                assert(old_runs.len() == 0);
            }
        }
        push_run(&mut group.runs, run, Ghost(block_len), Ghost(total));
        let ghost new_runs = group.runs@;
        self.plan.groups.insert(at, group);
        self.end = self.end + run.len;
        let ghost after = self.plan.groups@;
        proof {
            self.addresses@ = old_addresses + more;
            let addresses = self.addresses@;
            let k = at as int;
            assert(after.len() == middle.len());
            assert(after[k].runs@ == new_runs);
            assert(after[k].key@ == key@);
            assert forall|g: int| 0 <= g < after.len() && g != k implies #[trigger] after[g]
                == middle[g] by {}
            // Where each group stood before.
            assert forall|g: int| 0 <= g < after.len() && g != k implies ({
                let from = if found || g < k {
                    g
                } else {
                    g - 1
                };
                0 <= from < before.len() && #[trigger] after[g] == before[from]
            }) by {}
            assert(keys_ordered(after)) by {
                assert forall|i: int, j: int| 0 <= i < j < after.len() implies key_below(
                    (#[trigger] after[i]).key@,
                    (#[trigger] after[j]).key@,
                ) by {
                    let fi = if found || i < k {
                        i
                    } else {
                        i - 1
                    };
                    let fj = if found || j < k {
                        j
                    } else {
                        j - 1
                    };
                    if i == k {
                        assert(after[j] == before[fj]);
                        if found {
                            assert(key_below(before[k].key@, before[j].key@));
                        }
                    } else if j == k {
                        assert(after[i] == before[fi]);
                    } else {
                        assert(after[i] == before[fi]);
                        assert(after[j] == before[fj]);
                        assert(key_below(before[fi].key@, before[fj].key@));
                    }
                }
            }
            assert(spots(new_runs) == spots(old_runs) + run_spots(run));
            if !found {
                assert(spots(old_runs) =~= Seq::<(int, int)>::empty());
            } else {
                assert(spots(old_runs) == spots(before[k].runs@));
            }
            let m = spots(old_runs).len() as int;
            assert forall|g: int, s: int|
                #![trigger spots(after[g].runs@)[s]]
                0 <= g < after.len() && 0 <= s < spots(after[g].runs@).len() implies {
                let (output, place) = spots(after[g].runs@)[s];
                &&& 0 <= output < addresses.len()
                &&& addresses[output] == (Address { key: after[g].key@, place })
            } by {
                let (output, place) = spots(after[g].runs@)[s];
                if g == k {
                    if s < m {
                        assert(spots(before[k].runs@)[s] == spots(new_runs)[s]);
                        assert(addresses[output] == old_addresses[output]);
                    } else {
                        let i = s - m;
                        assert(run_spots(run)[i] == spots(new_runs)[s]);
                        assert(addresses[output] == more[i]);
                    }
                } else {
                    let from = if found || g < k {
                        g
                    } else {
                        g - 1
                    };
                    assert(after[g] == before[from]);
                    assert(spots(before[from].runs@)[s] == (output, place));
                    assert(addresses[output] == old_addresses[output]);
                }
            }
            assert forall|o: int| 0 <= o < addresses.len() implies #[trigger] is_read(after, o) by {
                if o < old_addresses.len() {
                    assert(is_read(before, o));
                    let (g, s) = choose|g: int, s: int|
                        0 <= g < before.len() && 0 <= s < spots(before[g].runs@).len() && (
                        #[trigger] spots(before[g].runs@)[s]).0 == o;
                    if found {
                        if g == k {
                            assert(spots(after[k].runs@)[s] == spots(before[k].runs@)[s]);
                        } else {
                            assert(after[g] == before[g]);
                            assert(spots(after[g].runs@)[s].0 == o);
                        }
                    } else {
                        let to = if g < k {
                            g
                        } else {
                            g + 1
                        };
                        assert(after[to] == before[g]);
                        assert(spots(after[to].runs@)[s].0 == o);
                    }
                } else {
                    let i = o - old_addresses.len();
                    assert(spots(after[k].runs@)[m + i] == run_spots(run)[i]);
                    assert(spots(after[k].runs@)[m + i].0 == o);
                }
            }
            assert forall|g: int, s: int, t: int|
                #![trigger spots(after[g].runs@)[s], spots(after[g].runs@)[t]]
                0 <= g < after.len() && 0 <= s < t < spots(after[g].runs@).len() implies spots(
                after[g].runs@,
            )[s].0 < spots(after[g].runs@)[t].0 by {
                if g == k {
                    if t < m {
                        assert(spots(before[k].runs@)[s].0 < spots(before[k].runs@)[t].0);
                    } else {
                        assert(spots(new_runs)[t] == run_spots(run)[t - m]);
                        if s < m {
                            assert(spots(before[k].runs@)[s] == spots(new_runs)[s]);
                        } else {
                            assert(spots(new_runs)[s] == run_spots(run)[s - m]);
                        }
                    }
                } else {
                    let from = if found || g < k {
                        g
                    } else {
                        g - 1
                    };
                    assert(after[g] == before[from]);
                    assert(spots(before[from].runs@)[s].0 < spots(before[from].runs@)[t].0);
                }
            }
            assert forall|g: int| 0 <= g < after.len() implies runs_fit(
                (#[trigger] after[g]).runs@,
                block_len,
                total,
            ) && after[g].runs@.len() > 0 && are_joined(after[g].runs@) by {
                if g != k {
                    let from = if found || g < k {
                        g
                    } else {
                        g - 1
                    };
                    assert(after[g] == before[from]);
                }
            }
        }
        Ok(())
    }
}

/// How a tensor is cut into blocks.
pub struct StorageShape<'a> {
    pub shape: &'a [u64],
    pub strides: &'a [u64],
    pub block_shape: &'a [u64],
    pub block_strides: &'a [u64],
    pub grid_strides: &'a [u64],
    pub sparse_axis: Option<usize>,
}

/// The blocks of a shape, with the strides within a block and within the grid of blocks.
pub open spec fn blocks_fit(
    shape: Seq<u64>,
    block_shape: Seq<u64>,
    block_strides: Seq<u64>,
    grid_strides: Seq<u64>,
) -> bool {
    &&& valid_dims(shape)
    &&& block_shape.len() == shape.len()
    &&& all_positive(block_shape)
    &&& volume(grid_of(shape, block_shape)) <= u64::MAX
    &&& volume(block_shape) <= i64::MAX
    &&& volume(block_shape) <= usize::MAX
    &&& are_strides(block_strides, block_shape)
    &&& are_strides(grid_strides, grid_of(shape, block_shape))
}

/// Which block each component falls into.
pub open spec fn block_coord(coord: Seq<u64>, block_shape: Seq<u64>) -> Seq<u64> {
    Seq::new(coord.len(), |i: int| (coord[i] as int / block_shape[i] as int) as u64)
}

/// Where in its block each component falls.
pub open spec fn local_coord(coord: Seq<u64>, block_shape: Seq<u64>) -> Seq<u64> {
    Seq::new(coord.len(), |i: int| (coord[i] as int % block_shape[i] as int) as u64)
}

/// The block that holds an element, counted in row-major order over the grid.
pub open spec fn block_of(coord: Seq<u64>, shape: Seq<u64>, block_shape: Seq<u64>) -> int {
    position_of(block_coord(coord, block_shape), grid_of(shape, block_shape))
}

/// The place of an element in its block, counted in row-major order.
pub open spec fn place_of(coord: Seq<u64>, block_shape: Seq<u64>) -> int {
    position_of(local_coord(coord, block_shape), block_shape)
}

pub proof fn lemma_block_coord(coord: Seq<u64>, shape: Seq<u64>, block_shape: Seq<u64>)
    requires
        in_box(coord, shape),
        block_shape.len() == shape.len(),
        all_positive(block_shape),
        all_positive(shape),
    ensures
        in_box(block_coord(coord, block_shape), grid_of(shape, block_shape)),
        in_box(local_coord(coord, block_shape), block_shape),
        all_positive(grid_of(shape, block_shape)),
        forall|i: int|
            0 <= i < coord.len() ==> #[trigger] coord[i] == block_coord(coord, block_shape)[i]
                * block_shape[i] + local_coord(coord, block_shape)[i],
{
    let grid = grid_of(shape, block_shape);
    let blocks = block_coord(coord, block_shape);
    let local = local_coord(coord, block_shape);
    assert forall|i: int| 0 <= i < coord.len() implies #[trigger] coord[i] == blocks[i]
        * block_shape[i] + local[i] && blocks[i] < grid[i] && local[i] < block_shape[i] by {
        let c = coord[i] as int;
        let b = block_shape[i] as int;
        let d = shape[i] as int;
        assert(block_shape[i] > 0);
        assert(coord[i] < shape[i]);
        assert(shape[i] > 0);
        lemma_fundamental_div_mod(c, b);
        lemma_mod_bound(c, b);
        lemma_ceil_div(d, b);
        let q = c / b;
        assert(0 <= q <= c && q * b == b * q && q < ceil_div(d, b)) by (nonlinear_arith)
            requires
                c == b * q + c % b,
                0 <= c % b < b,
                0 <= c < d,
                d <= ceil_div(d, b) * b,
        ;
    }
    assert forall|i: int| 0 <= i < grid.len() implies #[trigger] grid[i] > 0 by {
        assert(shape[i] > 0);
        assert(block_shape[i] > 0);
        lemma_ceil_div(shape[i] as int, block_shape[i] as int);
    }
    assert forall|i: int| 0 <= i < grid.len() implies #[trigger] blocks[i] < grid[i] by {
        assert(coord[i] == blocks[i] * block_shape[i] + local[i]);
    }
    assert forall|i: int| 0 <= i < local.len() implies #[trigger] local[i] < block_shape[i] by {
        assert(coord[i] == blocks[i] * block_shape[i] + local[i]);
    }
}

/// There are no more blocks than elements.
pub proof fn lemma_grid_volume(shape: Seq<u64>, block_shape: Seq<u64>)
    requires
        all_positive(shape),
        all_positive(block_shape),
        block_shape.len() == shape.len(),
    ensures
        1 <= volume(grid_of(shape, block_shape)) <= volume(shape),
        all_positive(grid_of(shape, block_shape)),
    decreases shape.len(),
{
    let grid = grid_of(shape, block_shape);
    assert forall|i: int| 0 <= i < grid.len() implies 0 < #[trigger] grid[i] <= shape[i] by {
        assert(shape[i] > 0);
        assert(block_shape[i] > 0);
        lemma_ceil_div(shape[i] as int, block_shape[i] as int);
    }
    lemma_volume_positive(grid);
    lemma_volume_monotone(grid, shape);
}

/// The blocks of a grid have room for all elements.
pub proof fn lemma_blocks_hold(shape: Seq<u64>, block_shape: Seq<u64>)
    requires
        all_positive(shape),
        all_positive(block_shape),
        block_shape.len() == shape.len(),
    ensures
        volume(shape) <= volume(grid_of(shape, block_shape)) * volume(block_shape),
    decreases shape.len(),
{
    if shape.len() > 0 {
        let grid = grid_of(shape, block_shape);
        let rest = shape.skip(1);
        let blocks = block_shape.skip(1);
        assert(grid.skip(1) =~= grid_of(rest, blocks));
        assert forall|i: int| 0 <= i < rest.len() implies #[trigger] rest[i] > 0 by {
            assert(shape[i + 1] > 0);
        }
        assert forall|i: int| 0 <= i < blocks.len() implies #[trigger] blocks[i] > 0 by {
            assert(block_shape[i + 1] > 0);
        }
        lemma_blocks_hold(rest, blocks);
        lemma_volume_positive(rest);
        lemma_volume_positive(blocks);
        lemma_grid_volume(rest, blocks);
        assert(shape[0] > 0 && block_shape[0] > 0);
        lemma_ceil_div(shape[0] as int, block_shape[0] as int);
        let s = shape[0] as int;
        let b = block_shape[0] as int;
        let g = grid[0] as int;
        let vs = volume(rest);
        let vb = volume(blocks);
        let vg = volume(grid.skip(1));
        assert(s <= g * b);
        assert(s * vs <= (g * vg) * (b * vb)) by (nonlinear_arith)
            requires
                0 <= s <= g * b,
                0 <= vs <= vg * vb,
                g >= 0,
                b >= 0,
                vg >= 0,
                vb >= 0,
        ;
    } else {
        assert(grid_of(shape, block_shape).len() == 0);
    }
}

pub proof fn lemma_volume_monotone(small: Seq<u64>, large: Seq<u64>)
    requires
        small.len() == large.len(),
        forall|i: int| 0 <= i < small.len() ==> #[trigger] small[i] <= large[i],
    ensures
        volume(small) <= volume(large),
    decreases small.len(),
{
    if small.len() > 0 {
        assert forall|i: int| 0 <= i < small.skip(1).len() implies #[trigger] small.skip(1)[i]
            <= large.skip(1)[i] by {
            assert(small[i + 1] <= large[i + 1]);
        }
        lemma_volume_monotone(small.skip(1), large.skip(1));
        lemma_volume_positive(small.skip(1));
        let a = small[0] as int;
        let b = large[0] as int;
        let v = volume(small.skip(1));
        let w = volume(large.skip(1));
        assert(small[0] <= large[0]);
        assert(a * v <= b * w) by (nonlinear_arith)
            requires
                0 <= a <= b,
                0 <= v <= w,
        ;
    }
}

/// No two elements of a tensor share a block and a place in it.
pub proof fn block_positions_are_unique(
    left: Seq<u64>,
    right: Seq<u64>,
    shape: Seq<u64>,
    block_shape: Seq<u64>,
)
    requires
        all_positive(shape),
        all_positive(block_shape),
        block_shape.len() == shape.len(),
        in_box(left, shape),
        in_box(right, shape),
    ensures
        0 <= block_of(left, shape, block_shape) < volume(grid_of(shape, block_shape)),
        0 <= place_of(left, block_shape) < volume(block_shape),
        block_of(left, shape, block_shape) == block_of(right, shape, block_shape) && place_of(
            left,
            block_shape,
        ) == place_of(right, block_shape) ==> left == right,
{
    lemma_block_coord(left, shape, block_shape);
    lemma_block_coord(right, shape, block_shape);
    let grid = grid_of(shape, block_shape);
    lemma_position_bound(block_coord(left, block_shape), grid);
    lemma_position_bound(local_coord(left, block_shape), block_shape);
    lemma_position_coordinate(block_coord(left, block_shape), grid);
    lemma_position_coordinate(block_coord(right, block_shape), grid);
    lemma_position_coordinate(local_coord(left, block_shape), block_shape);
    lemma_position_coordinate(local_coord(right, block_shape), block_shape);
    if block_of(left, shape, block_shape) == block_of(right, shape, block_shape) && place_of(
        left,
        block_shape,
    ) == place_of(right, block_shape) {
        assert forall|i: int| 0 <= i < left.len() implies left[i] == right[i] by {
            assert(left[i] == block_coord(left, block_shape)[i] * block_shape[i] + local_coord(
                left,
                block_shape,
            )[i]);
            assert(right[i] == block_coord(right, block_shape)[i] * block_shape[i] + local_coord(
                right,
                block_shape,
            )[i]);
        }
        assert(left =~= right);
    }
}

/// Part of a sum of nonnegative terms is no larger than the sum.
proof fn lemma_weighted_prefix(coord: Seq<u64>, weights: Seq<int>, n: int)
    requires
        coord.len() == weights.len(),
        0 <= n <= coord.len(),
        forall|i: int| 0 <= i < weights.len() ==> #[trigger] weights[i] >= 0,
    ensures
        0 <= weighted_sum(coord.take(n), weights.take(n)) <= weighted_sum(coord, weights),
    decreases coord.len(),
{
    if coord.len() == 0 {
        assert(coord.take(n) =~= coord);
    } else {
        let init = coord.drop_last();
        let head = weights.drop_last();
        assert forall|i: int| 0 <= i < head.len() implies #[trigger] head[i] >= 0 by {
            assert(weights[i] >= 0);
        }
        assert(weights[weights.len() - 1] >= 0);
        assert(coord.last() * weights.last() >= 0) by (nonlinear_arith)
            requires
                coord.last() >= 0,
                weights.last() >= 0,
        ;
        if n == coord.len() {
            lemma_weighted_prefix(init, head, n - 1);
            assert(coord.take(n) =~= coord);
            assert(weights.take(n) =~= weights);
            assert(init.take(n - 1) =~= init);
            assert(head.take(n - 1) =~= head);
        } else {
            lemma_weighted_prefix(init, head, n);
            assert(init.take(n) =~= coord.take(n));
            assert(head.take(n) =~= weights.take(n));
        }
    }
}

/// Where an element is stored.
pub fn block_position(
    coord: &[u64],
    block_shape: &[u64],
    block_strides: &[u64],
    grid_strides: &[u64],
) -> (position: BlockPosition)
    requires
        exists|shape: Seq<u64>|
            #![trigger in_box(coord@, shape)]
            in_box(coord@, shape) && blocks_fit(
                shape,
                block_shape@,
                block_strides@,
                grid_strides@,
            ),
    ensures
        forall|shape: Seq<u64>|
            in_box(coord@, shape) && #[trigger] blocks_fit(
                shape,
                block_shape@,
                block_strides@,
                grid_strides@,
            ) ==> position.block_id == block_of(coord@, shape, block_shape@),
        position.offset_in_block == place_of(coord@, block_shape@),
{
    let ghost shape = choose|shape: Seq<u64>|
        #![trigger in_box(coord@, shape)]
        in_box(coord@, shape) && blocks_fit(shape, block_shape@, block_strides@, grid_strides@);
    let ghost grid = grid_of(shape, block_shape@);
    let ghost blocks = block_coord(coord@, block_shape@);
    let ghost local = local_coord(coord@, block_shape@);
    let ghost grid_weights = row_major_strides(grid);
    let ghost local_weights = row_major_strides(block_shape@);
    proof {
        lemma_block_coord(coord@, shape, block_shape@);
        lemma_grid_volume(shape, block_shape@);
        lemma_position_bound(blocks, grid);
        lemma_position_bound(local, block_shape@);
        lemma_position_weighted(blocks, grid);
        lemma_position_weighted(local, block_shape@);
        assert forall|i: int| 0 <= i < grid_weights.len() implies #[trigger] grid_weights[i]
            >= 0 by {
            lemma_volume_positive(grid.skip(i + 1));
        }
        assert forall|i: int| 0 <= i < local_weights.len() implies #[trigger] local_weights[i]
            >= 0 by {
            lemma_volume_positive(block_shape@.skip(i + 1));
        }
    }
    let mut block_id: u64 = 0;
    let mut offset: u64 = 0;
    let mut i: usize = 0;
    while i < coord.len()
        invariant
            i <= coord.len(),
            coord.len() == block_shape.len(),
            in_box(coord@, shape),
            blocks_fit(shape, block_shape@, block_strides@, grid_strides@),
            grid == grid_of(shape, block_shape@),
            blocks == block_coord(coord@, block_shape@),
            local == local_coord(coord@, block_shape@),
            grid_weights == row_major_strides(grid),
            local_weights == row_major_strides(block_shape@),
            forall|j: int| 0 <= j < grid_weights.len() ==> #[trigger] grid_weights[j] >= 0,
            forall|j: int| 0 <= j < local_weights.len() ==> #[trigger] local_weights[j] >= 0,
            weighted_sum(blocks, grid_weights) <= u64::MAX,
            weighted_sum(local, local_weights) <= u64::MAX,
            block_id == weighted_sum(blocks.take(i as int), grid_weights.take(i as int)),
            offset == weighted_sum(local.take(i as int), local_weights.take(i as int)),
        decreases coord.len() - i,
    {
        proof {
            assert(block_shape@[i as int] > 0);
            assert(grid_strides@[i as int] == grid_weights[i as int]);
            assert(block_strides@[i as int] == local_weights[i as int]);
            lemma_weighted_prefix(blocks, grid_weights, i + 1);
            lemma_weighted_prefix(local, local_weights, i + 1);
            lemma_weighted_prefix(blocks, grid_weights, i as int);
            lemma_weighted_prefix(local, local_weights, i as int);
            assert(blocks.take(i + 1).drop_last() =~= blocks.take(i as int));
            assert(grid_weights.take(i + 1).drop_last() =~= grid_weights.take(i as int));
            assert(local.take(i + 1).drop_last() =~= local.take(i as int));
            assert(local_weights.take(i + 1).drop_last() =~= local_weights.take(i as int));
        }
        let c: u64 = coord[i];
        let b: u64 = block_shape[i];
        let q: u64 = c / b;
        let r: u64 = c % b;
        assert(q == blocks[i as int]);
        assert(r == local[i as int]);
        assert(0 <= q * grid_strides@[i as int]) by (nonlinear_arith);
        assert(0 <= r * block_strides@[i as int]) by (nonlinear_arith);
        block_id = block_id + q * grid_strides[i];
        offset = offset + r * block_strides[i];
        i += 1;
    }
    proof {
        assert(blocks.take(i as int) =~= blocks);
        assert(grid_weights.take(i as int) =~= grid_weights);
        assert(local.take(i as int) =~= local);
        assert(local_weights.take(i as int) =~= local_weights);
        assert forall|other: Seq<u64>|
            in_box(coord@, other) && #[trigger] blocks_fit(
                other,
                block_shape@,
                block_strides@,
                grid_strides@,
            ) implies block_id == block_of(coord@, other, block_shape@) by {
            let other_grid = grid_of(other, block_shape@);
            lemma_position_weighted(blocks, other_grid);
            assert(row_major_strides(other_grid) =~= grid_weights) by {
                assert forall|j: int| 0 <= j < other_grid.len() implies row_major_strides(
                    other_grid,
                )[j] == grid_weights[j] by {
                    assert(grid_strides@[j] == volume(other_grid.skip(j + 1)));
                    assert(grid_strides@[j] == volume(grid.skip(j + 1)));
                }
            }
        }
    }
    BlockPosition { block_id, offset_in_block: offset as usize }
}

impl<'a> StorageShape<'a> {
    pub open spec fn wf(&self) -> bool {
        &&& are_strides(self.strides@, self.shape@)
        &&& blocks_fit(
            self.shape@,
            self.block_shape@,
            self.block_strides@,
            self.grid_strides@,
        )
        &&& self.sparse_axis matches Some(axis) ==> axis < self.shape@.len()
    }

    /// Offsets below this one can be split into digits: those of the elements, as far as a machine
    /// number goes.
    pub open spec fn limit(&self) -> int {
        if volume(self.shape@) <= u64::MAX {
            volume(self.shape@)
        } else {
            u64::MAX + 1
        }
    }

    /// Blocks that can be numbered hold few enough elements for wide arithmetic.
    pub proof fn lemma_size(&self)
        requires
            self.wf(),
        ensures
            0 < volume(self.shape@) <= i128::MAX,
    {
        let grid = grid_of(self.shape@, self.block_shape@);
        lemma_volume_positive(self.shape@);
        lemma_volume_positive(self.block_shape@);
        lemma_grid_volume(self.shape@, self.block_shape@);
        lemma_blocks_hold(self.shape@, self.block_shape@);
        assert(volume(grid) * volume(self.block_shape@) <= u64::MAX * i64::MAX) by (nonlinear_arith)
            requires
                0 <= volume(grid) <= u64::MAX,
                0 <= volume(self.block_shape@) <= i64::MAX,
        ;
    }

    /// The key under which an element's block is found.
    pub open spec fn key_of(&self, coord: Seq<u64>) -> Seq<u64> {
        seq![
            match self.sparse_axis {
                Some(axis) => coord[axis as int],
                None => 0,
            },
            block_of(coord, self.shape@, self.block_shape@) as u64,
        ]
    }

    /// Where an element is found.
    pub open spec fn address_of(&self, coord: Seq<u64>) -> Address {
        Address { key: self.key_of(coord), place: place_of(coord, self.block_shape@) }
    }

    pub fn position(&self, coord: &[u64]) -> (position: (u64, usize))
        requires
            self.wf(),
            in_box(coord@, self.shape@),
        ensures
            position.0 == block_of(coord@, self.shape@, self.block_shape@),
            position.1 == place_of(coord@, self.block_shape@),
            position.1 < volume(self.block_shape@),
    {
        let position = block_position(
            coord,
            self.block_shape,
            self.block_strides,
            self.grid_strides,
        );
        proof {
            block_positions_are_unique(coord@, coord@, self.shape@, self.block_shape@);
        }
        (position.block_id, position.offset_in_block)
    }

    pub fn key(&self, coord: &[u64], block: u64) -> (key: [u64; 2])
        requires
            self.sparse_axis matches Some(axis) ==> axis < coord@.len(),
        ensures
            key@[0] == match self.sparse_axis {
                Some(axis) => coord@[axis as int],
                None => 0,
            },
            key@[1] == block,
    {
        let index: u64 = match self.sparse_axis {
            Some(axis) => coord[axis],
            None => 0,
        };
        [index, block]
    }
}

/// The weighted sum follows its components.
proof fn lemma_weighted_linear(
    from: Seq<u64>,
    delta: Seq<u64>,
    to: Seq<u64>,
    weights: Seq<int>,
    factor: int,
)
    requires
        from.len() == delta.len() == to.len() == weights.len(),
        forall|i: int| 0 <= i < from.len() ==> #[trigger] to[i] == from[i] + factor * delta[i],
    ensures
        weighted_sum(to, weights) == weighted_sum(from, weights) + factor * weighted_sum(
            delta,
            weights,
        ),
    decreases from.len(),
{
    if from.len() > 0 {
        assert forall|i: int| 0 <= i < from.drop_last().len() implies #[trigger] to.drop_last()[i]
            == from.drop_last()[i] + factor * delta.drop_last()[i] by {
            assert(to[i] == from[i] + factor * delta[i]);
        }
        lemma_weighted_linear(
            from.drop_last(),
            delta.drop_last(),
            to.drop_last(),
            weights.drop_last(),
            factor,
        );
        let a = from.last() as int;
        let d = delta.last() as int;
        let w = weights.last();
        let rest = weighted_sum(delta.drop_last(), weights.drop_last());
        assert(to[from.len() - 1] == from[from.len() - 1] + factor * delta[from.len() - 1]);
        assert((a + factor * d) * w + factor * rest == a * w + factor * (rest + d * w))
            by (nonlinear_arith);
    } else {
        assert(factor * 0 == 0);
    }
}

/// Larger weights give a larger sum.
proof fn lemma_weighted_compare(coord: Seq<u64>, small: Seq<int>, large: Seq<int>, by: int)
    requires
        coord.len() == small.len() == large.len(),
        by >= 0,
        forall|i: int| 0 <= i < coord.len() ==> 0 <= #[trigger] small[i] <= by * large[i],
    ensures
        0 <= weighted_sum(coord, small) <= by * weighted_sum(coord, large),
    decreases coord.len(),
{
    if coord.len() > 0 {
        assert forall|i: int| 0 <= i < coord.drop_last().len() implies 0
            <= #[trigger] small.drop_last()[i] <= by * large.drop_last()[i] by {
            assert(0 <= small[i] <= by * large[i]);
        }
        lemma_weighted_compare(coord.drop_last(), small.drop_last(), large.drop_last(), by);
        let n = coord.len() - 1;
        assert(0 <= small[n] <= by * large[n]);
        let c = coord.last() as int;
        let s = small.last();
        let l = large.last();
        let rest = weighted_sum(coord.drop_last(), large.drop_last());
        assert(0 <= c * s && c * s + by * rest <= by * (rest + c * l)) by (nonlinear_arith)
            requires
                c >= 0,
                0 <= s <= by * l,
        ;
    } else {
        assert(by * 0 == 0);
    }
}

/// A component some steps further.
pub open spec fn stepped(from: u64, delta: u64, sign: int, steps: int) -> int {
    from + sign * steps * delta
}

/// A number of steps along some axes, from a coordinate, stays in the coordinate's block, and
/// does not move on the sparse axis.
pub open spec fn same_block(
    coord: Seq<u64>,
    delta: Seq<u64>,
    sign: int,
    steps: int,
    shape: Seq<u64>,
    block_shape: Seq<u64>,
    sparse_axis: Option<usize>,
    axis: int,
) -> bool {
    let c = stepped(coord[axis], delta[axis], sign, steps);
    &&& 0 <= c < shape[axis]
    &&& c / block_shape[axis] as int == coord[axis] as int / block_shape[axis] as int
    &&& c % block_shape[axis] as int == coord[axis] as int % block_shape[axis] as int + sign * steps
        * delta[axis]
    &&& sparse_axis == Some(axis as usize) ==> c == coord[axis]
}

/// How far a block reaches from a component, in the direction of the steps.
spec fn room_of(coord: u64, dim: u64, block: u64, sign: int) -> int {
    let low = coord as int / block as int * block as int;
    let high = low + if block - 1 <= dim - 1 - low {
        block - 1
    } else {
        dim - 1 - low
    };
    if sign < 0 {
        coord - low
    } else {
        high - coord
    }
}

proof fn lemma_room(
    coord: Seq<u64>,
    delta: Seq<u64>,
    sign: int,
    count: int,
    shape: Seq<u64>,
    block_shape: Seq<u64>,
    sparse_axis: Option<usize>,
    axis: int,
    steps: int,
)
    requires
        0 <= axis < coord.len(),
        coord.len() == delta.len() == shape.len() == block_shape.len(),
        coord.len() <= usize::MAX,
        coord[axis] < shape[axis],
        block_shape[axis] > 0,
        -1 <= sign <= 1,
        0 <= steps < count,
        (count - 1) * delta[axis] <= room_of(coord[axis], shape[axis], block_shape[axis], sign),
        sparse_axis == Some(axis as usize) && delta[axis] != 0 ==> count == 1,
    ensures
        same_block(coord, delta, sign, steps, shape, block_shape, sparse_axis, axis),
{
    let c = coord[axis] as int;
    let b = block_shape[axis] as int;
    let d = delta[axis] as int;
    let q = c / b;
    lemma_fundamental_div_mod(c, b);
    lemma_mod_bound(c, b);
    let r = c % b;
    assert(q * b == b * q) by (nonlinear_arith);
    let moved = stepped(coord[axis], delta[axis], sign, steps);
    assert(0 <= steps * d <= (count - 1) * d) by (nonlinear_arith)
        requires
            0 <= steps <= count - 1,
            d >= 0,
    ;
    assert(sign * steps * d == if sign < 0 {
        -(steps * d)
    } else if sign == 0 {
        0
    } else {
        steps * d
    }) by (nonlinear_arith)
        requires
            -1 <= sign <= 1,
    ;
    assert(0 <= moved - q * b < b);
    vstd::arithmetic::div_mod::lemma_fundamental_div_mod_converse(moved, b, q, moved - q * b);
    if sparse_axis == Some(axis as usize) {
        if d == 0 {
            assert(steps * 0 == 0);
        } else {
            assert(steps == 0);
            assert(0 * d == 0);
        }
    }
}

impl<'a> StorageShape<'a> {
    /// How many steps, at most `limit`, can be taken from a coordinate within its block, and how
    /// far each of them moves in the block.
    fn reach(&self, coord: &[u64], delta: &[u64], sign: i128, limit: usize) -> (result: (
        usize,
        i128,
    ))
        requires
            self.wf(),
            in_box(coord@, self.shape@),
            delta@.len() == self.shape@.len(),
            -1 <= sign <= 1,
            limit > 0,
            weighted_sum(delta@, row_major_strides(self.shape@)) <= u64::MAX,
        ensures
            0 < result.0 <= limit,
            forall|axis: int, steps: int|
                0 <= axis < coord@.len() && 0 <= steps < result.0 ==> #[trigger] same_block(
                    coord@,
                    delta@,
                    sign as int,
                    steps,
                    self.shape@,
                    self.block_shape@,
                    self.sparse_axis,
                    axis,
                ),
            result.1 == sign * weighted_sum(delta@, row_major_strides(self.block_shape@)),
    {
        let ghost weights = row_major_strides(self.block_shape@);
        let ghost wide = row_major_strides(self.shape@);
        let ghost most = volume(self.block_shape@);
        proof {
            lemma_volume_positive(self.block_shape@);
            assert forall|i: int| 0 <= i < coord@.len() implies 0 <= #[trigger] weights[i] <= most
                * wide[i] by {
                lemma_volume_suffix_bound(self.block_shape@, i + 1);
                lemma_volume_suffix_bound(self.shape@, i + 1);
                assert(most <= most * wide[i]) by (nonlinear_arith)
                    requires
                        most >= 1,
                        wide[i] >= 1,
                ;
            }
            assert forall|i: int| 0 <= i < weights.len() implies #[trigger] weights[i] >= 0 by {
                assert(0 <= weights[i] <= most * wide[i]);
            }
            lemma_weighted_compare(delta@, weights, wide, most);
            let m = weighted_sum(delta@, wide);
            assert(most * m <= i64::MAX * u64::MAX) by (nonlinear_arith)
                requires
                    0 <= most <= i64::MAX,
                    m <= u64::MAX,
            ;
            assert(sign * 0 == 0);
            assert(delta@.take(0) =~= Seq::<u64>::empty());
        }
        let mut count: usize = limit;
        let mut stride: i128 = 0;
        let mut i: usize = 0;
        while i < coord.len()
            invariant
                i <= coord.len(),
                self.wf(),
                in_box(coord@, self.shape@),
                delta@.len() == self.shape@.len(),
                -1 <= sign <= 1,
                0 < count <= limit,
                weights == row_major_strides(self.block_shape@),
                forall|j: int| 0 <= j < weights.len() ==> #[trigger] weights[j] >= 0,
                0 <= weighted_sum(delta@, weights) <= i64::MAX * u64::MAX,
                stride == sign * weighted_sum(delta@.take(i as int), weights.take(i as int)),
                forall|j: int|
                    0 <= j < i ==> (count - 1) * (#[trigger] delta@[j]) <= room_of(
                        coord@[j],
                        self.shape@[j],
                        self.block_shape@[j],
                        sign as int,
                    ),
                forall|j: int|
                    0 <= j < i && self.sparse_axis == Some(j as usize) && #[trigger] delta@[j] != 0
                        ==> count == 1,
            decreases coord.len() - i,
        {
            let c: u64 = coord[i];
            let b: u64 = self.block_shape[i];
            let dim: u64 = self.shape[i];
            let d: u64 = delta[i];
            let ghost count_before = count as int;
            proof {
                assert(coord@[i as int] < self.shape@[i as int]);
                assert(self.block_shape@[i as int] > 0);
                lemma_fundamental_div_mod(c as int, b as int);
                lemma_mod_bound(c as int, b as int);
                assert((c as int / b as int) * b as int == b as int * (c as int / b as int))
                    by (nonlinear_arith);
            }
            let low: u64 = c / b * b;
            let edge: u64 = if b - 1 <= dim - 1 - low {
                b - 1
            } else {
                dim - 1 - low
            };
            let high: u64 = low + edge;
            let room: u64 = if sign < 0 {
                c - low
            } else {
                high - c
            };
            assert(room == room_of(c, dim, b, sign as int));
            if d != 0 {
                let steps: u64 = room / d;
                proof {
                    lemma_fundamental_div_mod(room as int, d as int);
                    lemma_mod_bound(room as int, d as int);
                    assert(steps * d <= room) by (nonlinear_arith)
                        requires
                            room == d * steps + room as int % d as int,
                            room as int % d as int >= 0,
                    ;
                }
                if steps < (count - 1) as u64 {
                    count = (steps + 1) as usize;
                }
                proof {
                    assert((count - 1) * d <= steps * d) by (nonlinear_arith)
                        requires
                            0 <= count - 1 <= steps,
                            d > 0,
                    ;
                }
                if self.sparse_axis.is_some() {
                    if self.sparse_axis.unwrap() == i {
                        count = 1;
                    }
                }
            }
            proof {
                assert((count - 1) * d <= room) by (nonlinear_arith)
                    requires
                        d == 0 || count == 1 || (count - 1) * d <= room,
                        room >= 0,
                ;
                assert forall|j: int| 0 <= j < i implies (count - 1) * (#[trigger] delta@[j])
                    <= room_of(
                    coord@[j],
                    self.shape@[j],
                    self.block_shape@[j],
                    sign as int,
                ) by {
                    assert((count - 1) * delta@[j] <= (count_before - 1) * delta@[j])
                        by (nonlinear_arith)
                        requires
                            count <= count_before,
                            delta@[j] >= 0,
                    ;
                }
                let sum = weighted_sum(delta@.take(i as int), weights.take(i as int));
                lemma_weighted_prefix(delta@, weights, i as int);
                lemma_weighted_prefix(delta@, weights, i + 1);
                assert(delta@.take(i + 1).drop_last() =~= delta@.take(i as int));
                assert(weights.take(i + 1).drop_last() =~= weights.take(i as int));
                assert(self.block_strides@[i as int] == weights[i as int]);
                let w = weights[i as int];
                assert(0 <= d * w) by (nonlinear_arith)
                    requires
                        d >= 0,
                        w >= 0,
                ;
                assert(sign * sum + d * w * sign == sign * (sum + d * w)) by (nonlinear_arith);
                assert(-(sum + d * w) <= sign * (sum + d * w) <= sum + d * w) by (nonlinear_arith)
                    requires
                        -1 <= sign <= 1,
                        sum + d * w >= 0,
                ;
                assert(-(d * w) <= d * w * sign <= d * w) by (nonlinear_arith)
                    requires
                        -1 <= sign <= 1,
                        d * w >= 0,
                ;
            }
            stride = stride + d as i128 * self.block_strides[i] as i128 * sign;
            i += 1;
        }
        proof {
            assert(delta@.take(i as int) =~= delta@);
            assert(weights.take(i as int) =~= weights);
            assert forall|axis: int, steps: int|
                0 <= axis < coord@.len() && 0 <= steps < count implies #[trigger] same_block(
                coord@,
                delta@,
                sign as int,
                steps,
                self.shape@,
                self.block_shape@,
                self.sparse_axis,
                axis,
            ) by {
                assert(coord@[axis] < self.shape@[axis]);
                assert(self.block_shape@[axis] > 0);
                assert((count - 1) * delta@[axis] <= room_of(
                    coord@[axis],
                    self.shape@[axis],
                    self.block_shape@[axis],
                    sign as int,
                ));
                lemma_room(
                    coord@,
                    delta@,
                    sign as int,
                    count as int,
                    self.shape@,
                    self.block_shape@,
                    self.sparse_axis,
                    axis,
                    steps,
                );
            }
        }
        (count, stride)
    }
}

/// Offsets at a constant step, for consecutive elements of a request.
struct Progression {
    output: usize,
    start: i128,
    step: i128,
    len: usize,
}

/// Two rank-sized buffers that are used again at every boundary.
struct Scratch {
    coord: Coord,
    delta: Coord,
}

impl<'a> StorageShape<'a> {
    /// Where the elements at some offsets are found.
    pub open spec fn addresses_at(&self, offsets: Seq<int>) -> Seq<Address> {
        Seq::new(
            offsets.len(),
            |i: int| self.address_of(coordinate_at(offsets[i], self.shape@)),
        )
    }

    /// The steps from one coordinate within its block are elements at a constant stride in it.
    proof fn lemma_reach(
        &self,
        coord: Seq<u64>,
        delta: Seq<u64>,
        sign: int,
        count: int,
        steps: int,
    )
        requires
            self.wf(),
            in_box(coord, self.shape@),
            delta.len() == coord.len(),
            0 <= steps < count,
            forall|axis: int, steps: int|
                0 <= axis < coord.len() && 0 <= steps < count ==> #[trigger] same_block(
                    coord,
                    delta,
                    sign,
                    steps,
                    self.shape@,
                    self.block_shape@,
                    self.sparse_axis,
                    axis,
                ),
        ensures
            ({
                let flat = position_of(coord, self.shape@) + sign * steps * position_of(
                    delta,
                    self.shape@,
                );
                let to = coordinate_at(flat, self.shape@);
                &&& 0 <= flat < volume(self.shape@)
                &&& in_box(to, self.shape@)
                &&& self.key_of(to) == self.key_of(coord)
                &&& place_of(to, self.block_shape@) == place_of(coord, self.block_shape@) + sign
                    * steps * weighted_sum(delta, row_major_strides(self.block_shape@))
            }),
    {
        let shape = self.shape@;
        let blocks = self.block_shape@;
        let f = sign * steps;
        let to = Seq::new(
            coord.len(),
            |a: int| stepped(coord[a], delta[a], sign, steps) as u64,
        );
        assert forall|a: int| 0 <= a < coord.len() implies #[trigger] to[a] == coord[a] + f
            * delta[a] && to[a] < shape[a] by {
            assert(same_block(
                coord,
                delta,
                sign,
                steps,
                shape,
                blocks,
                self.sparse_axis,
                a,
            ));
        }
        assert(in_box(to, shape));
        lemma_weighted_linear(coord, delta, to, row_major_strides(shape), f);
        lemma_position_weighted(coord, shape);
        lemma_position_weighted(delta, shape);
        lemma_position_weighted(to, shape);
        lemma_position_bound(to, shape);
        lemma_position_coordinate(to, shape);
        let local = local_coord(coord, blocks);
        let local_to = local_coord(to, blocks);
        assert forall|a: int| 0 <= a < coord.len() implies #[trigger] local_to[a] == local[a] + f
            * delta[a] by {
            assert(same_block(
                coord,
                delta,
                sign,
                steps,
                shape,
                blocks,
                self.sparse_axis,
                a,
            ));
            assert(blocks[a] > 0);
            lemma_mod_bound(to[a] as int, blocks[a] as int);
            lemma_mod_bound(coord[a] as int, blocks[a] as int);
        }
        lemma_weighted_linear(local, delta, local_to, row_major_strides(blocks), f);
        lemma_position_weighted(local, blocks);
        lemma_position_weighted(local_to, blocks);
        assert(block_coord(to, blocks) =~= block_coord(coord, blocks)) by {
            assert forall|a: int| 0 <= a < coord.len() implies block_coord(to, blocks)[a]
                == block_coord(coord, blocks)[a] by {
                assert(same_block(
                    coord,
                    delta,
                    sign,
                    steps,
                    shape,
                    blocks,
                    self.sparse_axis,
                    a,
                ));
            }
        }
        if let Some(axis) = self.sparse_axis {
            assert(same_block(
                coord,
                delta,
                sign,
                steps,
                shape,
                blocks,
                self.sparse_axis,
                axis as int,
            ));
        }
        assert(self.key_of(to) =~= self.key_of(coord));
    }

    /// Read offsets at a constant step: cut them where a coordinate carries or a block ends.
    fn split(
        &self,
        plan: &mut Planner,
        scratch: &mut Scratch,
        progression: Progression,
    ) -> (result: Result<()>)
        requires
            self.wf(),
            old(plan).wf(),
            old(plan).block_len == volume(self.block_shape@),
            old(plan).end == progression.output,
            progression.output + progression.len <= old(plan).total,
        ensures
            final(plan).wf(),
            final(plan).block_len == old(plan).block_len,
            final(plan).total == old(plan).total,
            ({
                let start = progression.start as int;
                let last = start + progression.step * (progression.len - 1);
                let size = volume(self.shape@);
                let limit = self.limit();
                &&& result is Ok <==> progression.len == 0 || (0 <= start < limit && 0 <= last
                    < limit)
                &&& result is Ok ==> {
                    &&& final(plan).end == old(plan).end + progression.len
                    &&& final(plan).addresses@ == old(plan).addresses@ + self.addresses_at(
                        Seq::new(progression.len as nat, |t: int| start + progression.step * t),
                    )
                }
                &&& (result matches Err(Error::InvalidLayout(_))) <==> progression.len > 0 && (!(fits(
                    progression.step * (progression.len - 1),
                ) && fits(last)) || (0 <= start < size && 0 <= last < size && (start >= limit
                    || last >= limit)))
                &&& result matches Err(error) ==> (error is InvalidLayout || error is InvalidCoord)
                    && *final(plan) == *old(plan)
            }),
    {
        let Progression { output, start, step, len } = progression;
        let ghost first_addresses = plan.addresses@;
        if len == 0 {
            proof {
                assert(self.addresses_at(Seq::new(0, |t: int| start + step * t)) =~= Seq::<
                    Address,
                >::empty());
                assert(plan.addresses@ =~= first_addresses + self.addresses_at(
                    Seq::new(0, |t: int| start + step * t),
                ));
            }
            return Ok(());
        }
        let last: Option<i128> = match step.checked_mul((len - 1) as i128) {
            Some(span) => start.checked_add(span),
            None => None,
        };
        let last: i128 = match last {
            Some(last) => last,
            None => {
                proof {
                    assert(!(fits(step * (len - 1)) && fits(start + step * (len - 1))));
                }
                return Err(invalid());
            },
        };
        proof {
            self.lemma_size();
        }
        let size: i128 = wide_product(self.shape);
        if start < 0 || last < 0 || start >= size || last >= size {
            return Err(Error::InvalidCoord("mapped progression out of bounds".to_string()));
        }
        if start > u64::MAX as i128 || last > u64::MAX as i128 {
            return Err(invalid());
        }
        let ghost shape = self.shape@;
        let ghost offsets = Seq::new(len as nat, |t: int| start + step * t);
        proof {
            if len > 1 {
                let limit = self.limit();
                assert(-limit < step < limit && step * (len - 1) == last - start)
                    by (nonlinear_arith)
                    requires
                        len > 1,
                        step * (len - 1) == last - start,
                        -limit < last - start < limit,
                ;
            }
        }
        let magnitude: u64 = if len == 1 {
            0
        } else if step < 0 {
            (-step) as u64
        } else {
            step as u64
        };
        let sign: i128 = if len == 1 || step == 0 {
            0
        } else if step < 0 {
            -1
        } else {
            1
        };
        let ghost m = magnitude as int;
        proof {
            assert(len > 1 ==> sign * m == step) by (nonlinear_arith)
                requires
                    len > 1 && step < 0 ==> sign == -1 && m == -step,
                    len > 1 && step == 0 ==> sign == 0 && m == 0,
                    len > 1 && step > 0 ==> sign == 1 && m == step,
            ;
            assert(0 <= m < self.limit());
        }
        let delta = &mut scratch.delta;
        delta.resize(self.shape.len(), 0);
        let mut i: usize = 0;
        while i < self.shape.len()
            invariant
                i <= self.shape.len(),
                self.wf(),
                delta@.len() == self.shape@.len(),
                forall|j: int|
                    0 <= j < i ==> #[trigger] delta@[j] == unravel(
                        magnitude as int,
                        self.shape@,
                        self.strides@,
                    )[j],
            decreases self.shape.len() - i,
        {
            proof {
                lemma_volume_suffix_bound(self.shape@, i + 1);
                assert(self.strides@[i as int] == volume(self.shape@.skip(i + 1)));
                assert(self.shape@[i as int] > 0);
            }
            delta.set(i, (magnitude / self.strides[i]) % self.shape[i]);
            i += 1;
        }
        let ghost d = scratch.delta@;
        proof {
            assert(d =~= unravel(m, shape, self.strides@));
            lemma_unravel(m, shape, self.strides@);
            lemma_coordinate_position(m, shape);
            lemma_position_weighted(d, shape);
        }
        let ghost size = self.limit();
        let mut done: usize = 0;
        proof {
            assert(offsets.take(0) =~= Seq::<int>::empty());
            assert(plan.addresses@ =~= first_addresses + self.addresses_at(offsets.take(0)));
        }
        while done < len
            invariant
                done <= len,
                self.wf(),
                plan.wf(),
                plan.block_len == volume(self.block_shape@),
                plan.block_len == old(plan).block_len,
                plan.total == old(plan).total,
                output == old(plan).end,
                plan.end == output + done,
                output + len <= plan.total,
                shape == self.shape@,
                size == self.limit(),
                offsets == Seq::new(len as nat, |t: int| start + step * t),
                plan.addresses@ == first_addresses + self.addresses_at(offsets.take(done as int)),
                scratch.delta@ == d,
                d.len() == shape.len(),
                position_of(d, shape) == m,
                weighted_sum(d, row_major_strides(shape)) == m,
                0 <= m < size,
                -1 <= sign <= 1,
                len > 1 ==> sign * m == step,
                0 <= start < size,
                0 <= start + step * (len - 1) < size,
            decreases len - done,
        {
            proof {
                lemma_between(start as int, step as int, len as int, size as int, done as int);
            }
            let flat: u64 = (start + step * done as i128) as u64;
            let decoded = decode_flat(flat, self.shape, &mut scratch.coord);
            assert(decoded is Ok);
            let ghost coord = scratch.coord@;
            proof {
                lemma_coordinate_position(flat as int, shape);
            }
            let (count, stride) = self.reach(
                scratch.coord.as_slice(),
                scratch.delta.as_slice(),
                sign,
                len - done,
            );
            let (block, offset) = self.position(scratch.coord.as_slice());
            let key = self.key(scratch.coord.as_slice(), block);
            let ghost weight = weighted_sum(d, row_major_strides(self.block_shape@));
            proof {
                assert(key@ =~= self.key_of(coord));
                self.lemma_reach(coord, d, sign as int, count as int, count - 1);
                let to = coordinate_at(
                    position_of(coord, shape) + sign * (count - 1) * m,
                    shape,
                );
                block_positions_are_unique(to, to, shape, self.block_shape@);
                assert(sign * (count - 1) * weight == (count - 1) * stride) by (nonlinear_arith)
                    requires
                        stride == sign * weight,
                ;
                assert(sign * (count - 1) * m == (count - 1) * (sign * m)) by (nonlinear_arith);
                if count > 1 {
                    let v = volume(self.block_shape@);
                    assert(-v < stride < v) by (nonlinear_arith)
                        requires
                            count > 1,
                            0 <= offset < v,
                            0 <= offset + (count - 1) * stride < v,
                    ;
                }
            }
            let stride: i64 = if count == 1 {
                0
            } else {
                stride as i64
            };
            let run = Run { output: output + done, offset, stride, len: count };
            proof {
                if count == 1 {
                    assert(0 * (count - 1) == 0);
                } else {
                    lemma_mul_is_commutative(stride as int, count - 1);
                }
                assert(run_fits(run, plan.block_len as int, plan.total as int));
            }
            let ghost before = plan.addresses@;
            let emitted = plan.emit(key, run);
            assert(emitted is Ok);
            proof {
                let more = run_addresses(key@, run);
                let next = offsets.take(done + count);
                assert forall|k: int| 0 <= k < count implies #[trigger] more[k] == self.address_of(
                    coordinate_at(offsets[done + k], shape),
                ) by {
                    self.lemma_reach(coord, d, sign as int, count as int, k);
                    assert(sign * k * weight == run.stride * k) by (nonlinear_arith)
                        requires
                            count > 1 ==> run.stride == sign * weight,
                            count == 1 ==> k == 0,
                            0 <= k < count,
                    ;
                    assert(sign * k * m == step * k) by (nonlinear_arith)
                        requires
                            len > 1 ==> sign * m == step,
                            len == 1 ==> k == 0,
                            len >= 1,
                    ;
                    assert(step * (done + k) == step * done + step * k) by (nonlinear_arith);
                }
                assert(plan.addresses@ =~= first_addresses + self.addresses_at(next)) by {
                    assert forall|j: int| 0 <= j < plan.addresses@.len() implies #[trigger] plan.addresses@[j]
                        == (first_addresses + self.addresses_at(next))[j] by {
                        let n = first_addresses.len() as int;
                        if j < n + done {
                            assert(plan.addresses@[j] == before[j]);
                            if j >= n {
                                assert(before[j] == self.addresses_at(
                                    offsets.take(done as int),
                                )[j - n]);
                            }
                        } else {
                            let k = j - n - done;
                            assert(more[k] == self.address_of(
                                coordinate_at(offsets[done + k], shape),
                            ));
                        }
                    }
                }
            }
            done = done + count;
        }
        proof {
            assert(offsets.take(done as int) =~= offsets);
        }
        Ok(())
    }
}

/// Between two ends of a progression that lie in a range, all of it does.
proof fn lemma_between(start: int, step: int, len: int, size: int, t: int)
    requires
        0 <= start < size,
        0 <= start + step * (len - 1) < size,
        0 <= t < len,
    ensures
        0 <= start + step * t < size,
        -size < step * t < size,
{
    if step >= 0 {
        assert(0 <= step * t <= step * (len - 1)) by (nonlinear_arith)
            requires
                step >= 0,
                0 <= t <= len - 1,
        ;
    } else {
        assert(step * (len - 1) <= step * t <= 0) by (nonlinear_arith)
            requires
                step < 0,
                0 <= t <= len - 1,
        ;
    }
}

/// Strides as exact numbers.
pub open spec fn exact(strides: Seq<i128>) -> Seq<int> {
    Seq::new(strides.len(), |i: int| strides[i] as int)
}

/// The offset of a coordinate under strides.
pub open spec fn affine_at(offset: int, weights: Seq<int>, coord: Seq<u64>) -> int {
    offset + weighted_sum(coord, weights)
}

/// The offset can be computed, axis by axis, without leaving the range of offsets.
pub open spec fn sum_fits(offset: int, weights: Seq<int>, coord: Seq<u64>) -> bool {
    forall|i: int|
        0 <= i < coord.len() ==> fits((#[trigger] coord[i]) * weights[i]) && fits(
            affine_at(offset, weights.take(i + 1), coord.take(i + 1)),
        )
}

fn affine_offset(offset: i128, strides: &[i128], coord: &[u64]) -> (result: Result<i128>)
    requires
        coord@.len() == strides@.len(),
    ensures
        result is Ok <==> sum_fits(offset as int, exact(strides@), coord@),
        result matches Ok(value) ==> value == affine_at(offset as int, exact(strides@), coord@),
        result matches Err(error) ==> error is InvalidLayout,
{
    let ghost weights = exact(strides@);
    let mut value: i128 = offset;
    let mut i: usize = 0;
    proof {
        assert(coord@.take(0) =~= Seq::<u64>::empty());
    }
    while i < coord.len()
        invariant
            i <= coord.len(),
            coord.len() == strides.len(),
            weights == exact(strides@),
            value == affine_at(offset as int, weights.take(i as int), coord@.take(i as int)),
            forall|j: int|
                0 <= j < i ==> fits((#[trigger] coord@[j]) * weights[j]) && fits(
                    affine_at(offset as int, weights.take(j + 1), coord@.take(j + 1)),
                ),
        decreases coord.len() - i,
    {
        proof {
            assert(weights.take(i + 1).drop_last() =~= weights.take(i as int));
            assert(coord@.take(i + 1).drop_last() =~= coord@.take(i as int));
            lemma_mul_is_commutative(strides@[i as int] as int, coord@[i as int] as int);
        }
        let next: Option<i128> = match strides[i].checked_mul(coord[i] as i128) {
            Some(part) => value.checked_add(part),
            None => None,
        };
        match next {
            Some(next) => {
                value = next;
            },
            None => {
                proof {
                    assert(!(fits(coord@[i as int] * weights[i as int]) && fits(
                        affine_at(offset as int, weights.take(i + 1), coord@.take(i + 1)),
                    )));
                }
                return Err(invalid());
            },
        }
        i += 1;
    }
    proof {
        assert(weights.take(i as int) =~= weights);
        assert(coord@.take(i as int) =~= coord@);
    }
    Ok(value)
}

/// The offsets of some coordinates under strides.
pub open spec fn affine_offsets(
    offset: int,
    weights: Seq<int>,
    coords: Seq<Seq<u64>>,
) -> Seq<int> {
    Seq::new(coords.len(), |o: int| affine_at(offset, weights, coords[o]))
}

/// The offsets lie in a tensor of a size.
pub open spec fn within_size(offsets: Seq<int>, size: int) -> bool {
    forall|o: int| 0 <= o < offsets.len() ==> 0 <= #[trigger] offsets[o] < size
}

/// Each offset can be computed.
pub open spec fn sums_fit(offset: int, weights: Seq<int>, coords: Seq<Seq<u64>>) -> bool {
    forall|o: int| 0 <= o < coords.len() ==> sum_fits(offset, weights, #[trigger] coords[o])
}

/// A box of a single coordinate has a step on its first axis that can be computed as well.
pub open spec fn steps_fit(boxes: Seq<Seq<Selection>>, weights: Seq<int>) -> bool {
    forall|r: int|
        0 <= r < boxes.len() && axes_volume(#[trigger] boxes[r]) == 1 ==> (boxes[r].len() > 0 ==> (
        boxes[r][0] matches Selection::Span { step, .. } ==> fits(step * weights[0])))
}

/// The last axis with more than one index, or the first axis.
spec fn is_varying(lens: Seq<u64>, v: int) -> bool {
    &&& 0 <= v < lens.len()
    &&& forall|i: int| v < i < lens.len() ==> #[trigger] lens[i] <= 1
    &&& v > 0 ==> lens[v] > 1
}

/// The last of the first axes with more than one index, or the first axis.
pub open spec fn varying_among(lens: Seq<u64>, n: int) -> int
    decreases n,
{
    if n <= 1 {
        0
    } else if lens[n - 1] > 1 {
        n - 1
    } else {
        varying_among(lens, n - 1)
    }
}

/// The last axis with more than one index, or the first axis.
pub open spec fn varying(lens: Seq<u64>) -> int {
    varying_among(lens, lens.len() as int)
}

proof fn lemma_varying_axis(lens: Seq<u64>, v: int, n: int)
    requires
        is_varying(lens, v),
        v < n <= lens.len(),
    ensures
        varying_among(lens, n) == v,
    decreases n,
{
    if n > v + 1 {
        assert(lens[n - 1] <= 1);
        lemma_varying_axis(lens, v, n - 1);
    }
}

proof fn lemma_ones(lens: Seq<u64>)
    requires
        forall|i: int| 0 <= i < lens.len() ==> #[trigger] lens[i] == 1,
    ensures
        volume(lens) == 1,
    decreases lens.len(),
{
    if lens.len() > 0 {
        assert(lens[0] == 1);
        assert forall|i: int| 0 <= i < lens.skip(1).len() implies #[trigger] lens.skip(1)[i]
            == 1 by {
            assert(lens[i + 1] == 1);
        }
        lemma_ones(lens.skip(1));
    }
}

/// Behind the varying axis there is nothing to step over.
proof fn lemma_varying(lens: Seq<u64>, v: int)
    requires
        is_varying(lens, v),
        all_positive(lens),
    ensures
        volume(lens.skip(v + 1)) == 1,
        volume(lens.skip(v)) == lens[v],
        volume(lens) == volume(lens.take(v)) * lens[v],
{
    let tail = lens.skip(v + 1);
    assert forall|i: int| 0 <= i < tail.len() implies #[trigger] tail[i] == 1 by {
        assert(lens[v + 1 + i] <= 1);
        assert(lens[v + 1 + i] > 0);
    }
    lemma_ones(tail);
    assert(lens.skip(v).skip(1) =~= tail);
    assert(lens[v] as int * 1 == lens[v]);
    lemma_volume_split(lens, v);
}

fn last_varying(dims: &[u64]) -> (v: usize)
    requires
        dims@.len() > 0,
    ensures
        is_varying(dims@, v as int),
{
    let mut v: usize = dims.len() - 1;
    while v > 0 && dims[v] <= 1
        invariant
            v < dims.len(),
            forall|i: int| v < i < dims@.len() ==> #[trigger] dims@[i] <= 1,
        decreases v,
    {
        v -= 1;
    }
    v
}

/// Moving along the varying axis only changes that component.
proof fn lemma_along(lens: Seq<u64>, v: int, index: int, t: int)
    requires
        is_varying(lens, v),
        all_positive(lens),
        0 <= index < volume(lens),
        0 <= t,
        index % lens[v] as int + t < lens[v],
    ensures
        index + t < volume(lens),
        coordinate_at(index, lens).len() == lens.len(),
        coordinate_at(index, lens)[v] == index % lens[v] as int,
        coordinate_at(index + t, lens) == coordinate_at(index, lens).update(
            v,
            (index % lens[v] as int + t) as u64,
        ),
{
    lemma_varying(lens, v);
    lemma_coordinate_position(index, lens);
    lemma_coordinate_component(index, lens, v);
    assert(index / 1 == index);
    let coord = coordinate_at(index, lens);
    lemma_mod_bound(index, lens[v] as int);
    let value = (index % lens[v] as int + t) as u64;
    let to = coord.update(v, value);
    lemma_position_update(coord, lens, v, value);
    assert(t * 1 == t);
    assert(in_box(to, lens)) by {
        assert forall|i: int| 0 <= i < lens.len() implies #[trigger] to[i] < lens[i] by {
            assert(coord[i] < lens[i]);
        }
    }
    lemma_position_bound(to, lens);
    lemma_position_coordinate(to, lens);
}

/// Why a request is not planned.
pub ghost enum Fault {
    /// The tensor has more elements than can be counted.
    Schema,
    /// An element is not one of the tensor.
    Coord,
    /// An offset cannot be computed.
    Layout,
}

/// The result of planning, given why it fails, if it does.
pub open spec fn has_fault<T>(result: Result<T>, fault: Option<Fault>) -> bool {
    match fault {
        None => result is Ok,
        Some(Fault::Schema) => result matches Err(Error::InvalidSchema(_)),
        Some(Fault::Coord) => result matches Err(Error::InvalidCoord(_)),
        Some(Fault::Layout) => result matches Err(Error::InvalidLayout(_)),
    }
}

/// What is wrong with offsets at a constant step, from the one of a coordinate on: it, the step or
/// the last one cannot be computed, or the first or the last one is not that of an element.
pub open spec fn stretch_fault(
    storage: StorageShape,
    offset: int,
    weights: Seq<int>,
    coord: Seq<u64>,
    step: int,
    len: int,
) -> Option<Fault> {
    let first = affine_at(offset, weights, coord);
    let last = first + step * (len - 1);
    let size = volume(storage.shape@);
    if len == 0 {
        None
    } else if !sum_fits(offset, weights, coord) || !fits(step) {
        Some(Fault::Layout)
    } else if !fits(step * (len - 1)) || !fits(last) {
        Some(Fault::Layout)
    } else if !(0 <= first < size && 0 <= last < size) {
        Some(Fault::Coord)
    } else if first >= storage.limit() || last >= storage.limit() {
        Some(Fault::Layout)
    } else {
        None
    }
}

/// What is wrong first with consecutive positions of a view from a place of them on, read row by
/// row.
pub open spec fn span_fault(
    storage: StorageShape,
    offset: int,
    weights: Seq<int>,
    shape: Seq<u64>,
    start: int,
    len: int,
    done: int,
) -> Option<Fault>
    decreases len - done,
{
    let v = varying(shape);
    let width = shape[v] as int;
    let row_left = width - (start + done) % width;
    let count = if len - done <= row_left {
        len - done
    } else {
        row_left
    };
    if done >= len || count <= 0 {
        None
    } else {
        let coord = coordinate_at(start + done, shape);
        match stretch_fault(storage, offset, weights, coord, weights[v], count) {
            Some(fault) => Some(fault),
            None => span_fault(storage, offset, weights, shape, start, len, done + count),
        }
    }
}

/// What is wrong first with a box of a view from a place of it on, read row by row, each in runs of
/// a constant step.
pub open spec fn box_fault(
    storage: StorageShape,
    offset: int,
    weights: Seq<int>,
    axes: Seq<Selection>,
    done: int,
) -> Option<Fault>
    decreases axes_volume(axes) - done,
{
    let v = varying(axes_lens(axes));
    let (step, len) = segment_at(axes[v], done % (axes_lens(axes)[v] as int));
    if done >= axes_volume(axes) || len <= 0 || done + len > axes_volume(axes) {
        None
    } else {
        let coord = box_coords(axes)[done];
        match stretch_fault(storage, offset, weights, coord, step * weights[v], len) {
            Some(fault) => Some(fault),
            None => box_fault(storage, offset, weights, axes, done + len),
        }
    }
}

/// What is wrong first with boxes of a view, from one of them on.
pub open spec fn boxes_fault(
    storage: StorageShape,
    offset: int,
    weights: Seq<int>,
    boxes: Seq<Seq<Selection>>,
    r: int,
) -> Option<Fault>
    decreases boxes.len() - r,
{
    if r < 0 || r >= boxes.len() {
        None
    } else {
        match box_fault(storage, offset, weights, boxes[r], 0) {
            Some(fault) => Some(fault),
            None => boxes_fault(storage, offset, weights, boxes, r + 1),
        }
    }
}

/// What is wrong first with a request of a view whose offsets are strides.
pub open spec fn walk_fault(
    storage: StorageShape,
    offset: int,
    weights: Seq<int>,
    shape: Seq<u64>,
    request: Requested,
) -> Option<Fault> {
    if shape.len() == 0 {
        stretch_fault(storage, offset, weights, Seq::empty(), 0, request_len(request))
    } else {
        match request {
            Requested::Linear { start, len } => if shape[varying(shape)] == 0 {
                Some(Fault::Coord)
            } else {
                span_fault(storage, offset, weights, shape, start as int, len as int, 0)
            },
            Requested::Rectangles(boxes) => boxes_fault(storage, offset, weights, boxes, 0),
            Requested::Explicit(_) => None,
        }
    }
}

/// What is wrong with a request of a view: it is not one of the shape, or some element has no place
/// in the tensor. Where a table stands on some axis, or the request lists its coordinates, each
/// coordinate is resolved by itself. Those of the tensor itself stand for themselves.
pub open spec fn plan_fault(
    storage: StorageShape,
    request: Requested,
    mapping: Option<&CoordinateMap>,
) -> Option<Fault> {
    let map = map_or_identity(mapping, storage.shape@, storage.strides@);
    if request is Linear && !product_fits(map.shape) {
        Some(Fault::Schema)
    } else if !request_fits(request, map.shape) {
        Some(Fault::Coord)
    } else if request is Explicit || has_table(map) {
        if mapping is None || all_resolve(
            map,
            request_coords(request, map.shape),
            storage.shape@,
            storage.strides@,
        ) {
            None
        } else {
            Some(Fault::Coord)
        }
    } else if !is_affine(map) {
        Some(Fault::Coord)
    } else {
        walk_fault(
            storage,
            constants(map.base, map.axes),
            affine_strides(map.axes),
            map.shape,
            request,
        )
    }
}

/// A plan that has read the first of some offsets.
spec fn has_read(
    storage: StorageShape,
    plan: Planner,
    before: Seq<Address>,
    offsets: Seq<int>,
    size: int,
    n: int,
) -> bool {
    &&& 0 <= n <= offsets.len()
    &&& plan.addresses@ == before + storage.addresses_at(offsets.take(n))
    &&& within_size(offsets.take(n), size)
}

/// Reading the next offsets at a constant step.
proof fn lemma_has_read(
    storage: StorageShape,
    before: Seq<Address>,
    offsets: Seq<int>,
    size: int,
    n: int,
    start: int,
    step: int,
    len: int,
)
    requires
        0 <= n,
        0 <= len,
        n + len <= offsets.len(),
        forall|t: int| 0 <= t < len ==> #[trigger] offsets[n + t] == start + step * t,
        within_size(offsets.take(n), size),
        len == 0 || (0 <= start < size && 0 <= start + step * (len - 1) < size),
    ensures
        before + storage.addresses_at(offsets.take(n)) + storage.addresses_at(
            Seq::new(len as nat, |t: int| start + step * t),
        ) == before + storage.addresses_at(offsets.take(n + len)),
        within_size(offsets.take(n + len), size),
{
    let more = Seq::new(len as nat, |t: int| start + step * t);
    let left = before + storage.addresses_at(offsets.take(n)) + storage.addresses_at(more);
    let right = before + storage.addresses_at(offsets.take(n + len));
    assert(left =~= right) by {
        assert forall|i: int| 0 <= i < left.len() implies left[i] == right[i] by {
            let b = before.len() as int;
            if i >= b + n {
                let t = i - b - n;
                assert(offsets[n + t] == start + step * t);
            }
        }
    }
    let all = offsets.take(n + len);
    assert forall|o: int| 0 <= o < all.len() implies 0 <= #[trigger] all[o] < size by {
        if o < n {
            assert(0 <= offsets.take(n)[o] < size);
        } else {
            let t = o - n;
            assert(offsets[n + t] == start + step * t);
            lemma_between(start, step, len, size, t);
        }
    }
}

impl<'a> StorageShape<'a> {
    /// Read consecutive positions of a view, row by row.
    fn read_span(
        &self,
        plan: &mut Planner,
        scratch: &mut Scratch,
        span: (u64, usize),
        shape: &[u64],
        offset: i128,
        strides: &[i128],
    ) -> (result: Result<()>)
        requires
            self.wf(),
            old(plan).wf(),
            old(plan).block_len == volume(self.block_shape@),
            old(plan).end == 0,
            old(plan).total == span.1,
            shape@.len() == strides@.len() > 0,
            span.0 + span.1 <= volume(shape@),
            span.0 + span.1 <= u64::MAX,
        ensures
            final(plan).wf(),
            final(plan).block_len == old(plan).block_len,
            final(plan).total == old(plan).total,
            ({
                let coords = request_coords(
                    Requested::Linear { start: span.0, len: span.1 as nat },
                    shape@,
                );
                let offsets = affine_offsets(offset as int, exact(strides@), coords);
                &&& result is Ok ==> {
                    &&& final(plan).end == span.1
                    &&& final(plan).addresses@ == self.addresses_at(offsets)
                    &&& within_size(offsets, self.limit())
                }
                &&& all_positive(shape@) && sums_fit(offset as int, exact(strides@), coords)
                    && within_size(offsets, self.limit()) ==> result is Ok
            }),
            has_fault(
                result,
                if shape@[varying(shape@)] == 0 {
                    Some(Fault::Coord)
                } else {
                    span_fault(
                        *self,
                        offset as int,
                        exact(strides@),
                        shape@,
                        span.0 as int,
                        span.1 as int,
                        0,
                    )
                },
            ),
    {
        let ghost coords = request_coords(
            Requested::Linear { start: span.0, len: span.1 as nat },
            shape@,
        );
        let ghost weights = exact(strides@);
        let ghost offsets = affine_offsets(offset as int, weights, coords);
        let ghost size = self.limit();
        let v: usize = last_varying(shape);
        let ghost fault = span_fault(
            *self,
            offset as int,
            weights,
            shape@,
            span.0 as int,
            span.1 as int,
            0,
        );
        proof {
            lemma_varying_axis(shape@, v as int, shape@.len() as int);
        }
        let mut segments = linear_segments(span.0, span.1, shape[v])?;
        let mut coord = Coord::new();
        proof {
            lemma_volume_positive(shape@);
            assert(offsets.take(0) =~= Seq::<int>::empty());
            assert(plan.addresses@ =~= Seq::<Address>::empty());
            assert(plan.addresses@ =~= Seq::<Address>::empty() + self.addresses_at(
                offsets.take(0),
            ));
        }
        loop
            invariant
                self.wf(),
                plan.wf(),
                plan.block_len == volume(self.block_shape@),
                plan.block_len == old(plan).block_len,
                plan.total == span.1,
                plan.total == old(plan).total,
                shape@.len() == strides@.len() > 0,
                span.0 + span.1 <= volume(shape@),
                span.0 + span.1 <= u64::MAX,
                coords == request_coords(
                    Requested::Linear { start: span.0, len: span.1 as nat },
                    shape@,
                ),
                weights == exact(strides@),
                offsets == affine_offsets(offset as int, weights, coords),
                size == self.limit(),
                is_varying(shape@, v as int),
                v == varying(shape@),
                fault == span_fault(
                    *self,
                    offset as int,
                    weights,
                    shape@,
                    span.0 as int,
                    span.1 as int,
                    0,
                ),
                fault == span_fault(
                    *self,
                    offset as int,
                    weights,
                    shape@,
                    span.0 as int,
                    span.1 as int,
                    segments.spec_done(),
                ),
                segments.wf(),
                segments.spec_start() == span.0,
                segments.spec_len() == span.1,
                segments.spec_width() == shape@[v as int],
                plan.end == segments.spec_done(),
                has_read(
                    *self,
                    *plan,
                    Seq::<Address>::empty(),
                    offsets,
                    size,
                    segments.spec_done(),
                ),
            ensures
                segments.spec_done() == span.1,
            decreases span.1 - segments.spec_done(),
        {
            let (index, output, count) = match segments.next() {
                Some(segment) => segment,
                None => {
                    break ;
                },
            };
            proof {
                lemma_volume_positive(shape@);
            }
            let decoded = decode_flat(index, shape, &mut coord);
            assert(decoded is Ok);
            let ghost first = coord@;
            proof {
                lemma_coordinate_len(index as int, shape@);
                assert(coords[output as int] == first);
            }
            let start: i128 = match affine_offset(offset, strides, coord.as_slice()) {
                Ok(start) => start,
                Err(error) => {
                    assert(!sum_fits(offset as int, weights, coords[output as int]));
                    return Err(error);
                },
            };
            let step: i128 = strides[v];
            proof {
                assert forall|t: int| 0 <= t < count implies #[trigger] offsets[output + t] == start
                    + step * t by {
                    lemma_along(shape@, v as int, index as int, t);
                    lemma_along(shape@, v as int, index as int, 0);
                    let r = index as int % shape@[v as int] as int;
                    assert(coords[output + t] == coordinate_at(span.0 + (output + t), shape@));
                    assert(first[v as int] == r);
                    lemma_weighted_update(first, weights, v as int, (r + t) as u64);
                    lemma_mul_is_commutative(t, step as int);
                }
            }
            match self.split(plan, scratch, Progression { output, start, step, len: count }) {
                Ok(()) => {
                    proof {
                        lemma_has_read(
                            *self,
                            Seq::<Address>::empty(),
                            offsets,
                            size,
                            output as int,
                            start as int,
                            step as int,
                            count as int,
                        );
                    }
                },
                Err(error) => {
                    proof {
                        assert(offsets[output + 0] == start + step * 0);
                        assert(offsets[output + (count - 1)] == start + step * (count - 1));
                    }
                    return Err(error);
                },
            }
        }
        proof {
            assert(offsets.take(span.1 as int) =~= offsets);
            assert(Seq::<Address>::empty() + self.addresses_at(offsets) =~= self.addresses_at(
                offsets,
            ));
        }
        Ok(())
    }
}

fn last_varying_axis(axes: &[Axis]) -> (v: usize)
    requires
        axes@.len() > 0,
        lens_fit(axes_of(axes@)),
    ensures
        is_varying(axes_lens(axes_of(axes@)), v as int),
{
    let ghost lens = axes_lens(axes_of(axes@));
    let mut v: usize = axes.len() - 1;
    while v > 0 && axes[v].len() <= 1
        invariant
            v < axes.len(),
            lens == axes_lens(axes_of(axes@)),
            lens_fit(axes_of(axes@)),
            forall|i: int| v < i < lens.len() ==> #[trigger] lens[i] <= 1,
        decreases v,
    {
        assert(axis_len(axes_of(axes@)[v as int]) <= u64::MAX);
        v -= 1;
    }
    assert(axis_len(axes_of(axes@)[v as int]) <= u64::MAX);
    v
}

/// Along the varying axis of a box, only that component of its coordinates changes.
proof fn lemma_box_along(axes: Seq<Selection>, shape: Seq<u64>, v: int, index: int, t: int)
    requires
        axes_fit(axes, shape),
        lens_fit(axes),
        is_varying(axes_lens(axes), v),
        0 <= index < axes_volume(axes),
        index % axes_lens(axes)[v] as int == 0,
        0 <= t < axes_lens(axes)[v],
    ensures
        index + t < axes_volume(axes),
        box_coords(axes)[index].len() == shape.len(),
        box_coords(axes)[index + t] == box_coords(axes)[index].update(
            v,
            axis_at(axes[v], t) as u64,
        ),
        0 <= axis_at(axes[v], t) <= u64::MAX,
{
    let lens = axes_lens(axes);
    lemma_volume_positive(lens);
    lemma_along(lens, v, index, t);
    lemma_box_coord(axes, shape, index);
    lemma_box_coord(axes, shape, index + t);
    let places = coordinate_at(index, lens);
    let moved = coordinate_at(index + t, lens);
    assert(box_coords(axes)[index + t] =~= box_coords(axes)[index].update(
        v,
        axis_at(axes[v], t) as u64,
    ));
    assert(axis_at(axes[v], moved[v] as int) == box_coords(axes)[index + t][v]);
}

impl<'a> StorageShape<'a> {
    /// Read a box of a view, row by row.
    fn read_box(
        &self,
        plan: &mut Planner,
        scratch: &mut Scratch,
        rect: &Cartesian,
        shape: &[u64],
        offset: i128,
        strides: &[i128],
    ) -> (result: Result<()>)
        requires
            self.wf(),
            old(plan).wf(),
            old(plan).block_len == volume(self.block_shape@),
            rect.wf(),
            axes_fit(rect@, shape@),
            shape@.len() == strides@.len() > 0,
            old(plan).end + rect.spec_len() <= old(plan).total,
        ensures
            final(plan).wf(),
            final(plan).block_len == old(plan).block_len,
            final(plan).total == old(plan).total,
            ({
                let coords = box_coords(rect@);
                let weights = exact(strides@);
                let offsets = affine_offsets(offset as int, weights, coords);
                &&& result is Ok ==> {
                    &&& final(plan).end == old(plan).end + rect.spec_len()
                    &&& final(plan).addresses@ == old(plan).addresses@ + self.addresses_at(offsets)
                    &&& within_size(offsets, self.limit())
                }
                &&& sums_fit(offset as int, weights, coords) && within_size(
                    offsets,
                    self.limit(),
                ) && steps_fit(seq![rect@], weights) ==> result is Ok
                &&& has_fault(result, box_fault(*self, offset as int, weights, rect@, 0))
            }),
    {
        let ghost view = rect@;
        let ghost lens = axes_lens(view);
        let ghost coords = box_coords(view);
        let ghost weights = exact(strides@);
        let ghost offsets = affine_offsets(offset as int, weights, coords);
        let ghost size = self.limit();
        let ghost before = plan.addresses@;
        let ghost first_end = plan.end as int;
        let total: usize = rect.len();
        proof {
            lemma_volume_positive(lens);
            assert(offsets.take(0) =~= Seq::<int>::empty());
            assert(plan.addresses@ =~= before + self.addresses_at(offsets.take(0)));
        }
        if total == 0 {
            assert(offsets =~= offsets.take(0));
            return Ok(());
        }
        let axes = rect.axes();
        let v: usize = last_varying_axis(axes);
        proof {
            lemma_varying(lens, v as int);
            assert(axes_of(axes@)[v as int] == axes@[v as int]@);
            assert(axis_len(view[v as int]) <= u64::MAX);
            lemma_volume_suffix_bound(lens, v as int);
        }
        let ghost fault = box_fault(*self, offset as int, weights, view, 0);
        proof {
            lemma_varying_axis(lens, v as int, lens.len() as int);
        }
        let inner: usize = axes[v].len() as usize;
        let rows: usize = total / inner;
        let ghost rows_exact = volume(lens.take(v as int));
        proof {
            assert(rows == rows_exact) by {
                vstd::arithmetic::div_mod::lemma_fundamental_div_mod_converse(
                    total as int,
                    inner as int,
                    rows_exact,
                    0,
                );
            }
        }
        let mut coord = Coord::new();
        let mut row: usize = 0;
        while row < rows
            invariant
                row <= rows,
                self.wf(),
                plan.wf(),
                plan.block_len == volume(self.block_shape@),
                plan.block_len == old(plan).block_len,
                plan.total == old(plan).total,
                rect.wf(),
                view == rect@,
                axes_of(axes@) == view,
                axes_fit(view, shape@),
                shape@.len() == strides@.len() > 0,
                lens == axes_lens(view),
                all_positive(lens),
                is_varying(lens, v as int),
                inner == lens[v as int],
                inner == axis_len(view[v as int]),
                inner > 0,
                total == rect.spec_len(),
                total == axes_volume(view),
                rows * inner == total,
                coords == box_coords(view),
                weights == exact(strides@),
                offsets == affine_offsets(offset as int, weights, coords),
                size == self.limit(),
                first_end + total <= plan.total,
                plan.end == first_end + row * inner,
                row * inner <= total,
                v == varying(lens),
                fault == box_fault(*self, offset as int, weights, view, 0),
                fault == box_fault(*self, offset as int, weights, view, row * inner),
                has_read(*self, *plan, before, offsets, size, row * inner),
            decreases rows - row,
        {
            proof {
                assert((row + 1) * inner <= rows * inner && row * inner + inner == (row + 1) * inner
                    && row * inner < total) by (nonlinear_arith)
                    requires
                        row + 1 <= rows,
                        inner > 0,
                        rows * inner == total,
                ;
                vstd::arithmetic::div_mod::lemma_mod_multiples_basic(row as int, inner as int);
            }
            let index: usize = row * inner;
            rect.coordinate(index, &mut coord);
            let ghost base = coord@;
            let mut segments = axes[v].segments();
            let mut output: usize = plan.end;
            loop
                invariant
                    self.wf(),
                    plan.wf(),
                    plan.block_len == volume(self.block_shape@),
                    plan.block_len == old(plan).block_len,
                    plan.total == old(plan).total,
                    view == rect@,
                    axes_fit(view, shape@),
                    lens_fit(view),
                    shape@.len() == strides@.len() > 0,
                    lens == axes_lens(view),
                    all_positive(lens),
                    is_varying(lens, v as int),
                    inner == lens[v as int],
                    inner == axis_len(view[v as int]),
                    total == axes_volume(view),
                    index + inner <= total,
                    index as int % inner as int == 0,
                    coords == box_coords(view),
                    weights == exact(strides@),
                    offsets == affine_offsets(offset as int, weights, coords),
                    size == self.limit(),
                    base == coords[index as int],
                    coord@.len() == shape@.len(),
                    forall|i: int|
                        0 <= i < coord@.len() && i != v ==> #[trigger] coord@[i] == base[i],
                    segments.wf(),
                    segments.spec_axis() == view[v as int],
                    first_end + total <= plan.total,
                    output == plan.end,
                    plan.end == first_end + index + segments.spec_done(),
                    v == varying(lens),
                    fault == box_fault(*self, offset as int, weights, view, 0),
                    fault == box_fault(
                        *self,
                        offset as int,
                        weights,
                        view,
                        index + segments.spec_done(),
                    ),
                    has_read(*self, *plan, before, offsets, size, index + segments.spec_done()),
                ensures
                    segments.spec_done() == inner,
                decreases inner - segments.spec_done(),
            {
                let ghost done = segments.spec_done();
                let (value, step, len) = match segments.next() {
                    Some(segment) => segment,
                    None => {
                        break ;
                    },
                };
                coord.set(v, value);
                let ghost first = coord@;
                let ghost at = index + done;
                proof {
                    vstd::arithmetic::div_mod::lemma_add_mod_noop(
                        index as int,
                        done,
                        inner as int,
                    );
                    vstd::arithmetic::div_mod::lemma_small_mod(done as nat, inner as nat);
                    assert(at % inner as int == done);
                    lemma_box_along(view, shape@, v as int, index as int, done);
                    assert(axis_at(view[v as int], done + 0) == value + step * 0);
                    assert(first =~= coords[at]);
                }
                let start: i128 = match affine_offset(offset, strides, coord.as_slice()) {
                    Ok(start) => start,
                    Err(error) => {
                        assert(!sum_fits(offset as int, weights, coords[at]));
                        return Err(error);
                    },
                };
                let ghost w = weights[v as int];
                proof {
                    assert forall|t: int| 0 <= t < len implies #[trigger] offsets[at + t] == start + (
                    step * w) * t by {
                        lemma_box_along(view, shape@, v as int, index as int, done + t);
                        assert(axis_at(view[v as int], done + t) == value + step * t);
                        let to = (value + step * t) as u64;
                        assert(coords[at + t] =~= first.update(v as int, to));
                        lemma_weighted_update(first, weights, v as int, to);
                        assert((step * t) * w == (step * w) * t) by (nonlinear_arith);
                    }
                }
                let by: i128 = match step.checked_mul(strides[v]) {
                    Some(by) => by,
                    None => {
                        proof {
                            if sums_fit(offset as int, weights, coords) && within_size(
                                offsets,
                                size,
                            ) && steps_fit(seq![view], weights) {
                                if len >= 2 {
                                    assert(offsets[at + 0] == start + (step * w) * 0);
                                    assert(offsets[at + 1] == start + (step * w) * 1);
                                    assert(0 <= offsets[at + 0] < size);
                                    assert(0 <= offsets[at + 1] < size);
                                } else {
                                    assert(len == 1);
                                    if view[v as int] is Selected {
                                        assert(step == 0);
                                        assert(0 * w == 0);
                                    } else {
                                        assert(inner == 1);
                                        assert(v == 0);
                                        lemma_varying(lens, 0);
                                        assert(lens.take(0) =~= Seq::<u64>::empty());
                                        assert(volume(lens.take(0)) == 1);
                                        assert(axes_volume(seq![view][0]) == 1);
                                        assert(seq![view][0] == view);
                                    }
                                }
                            }
                        }
                        return Err(invalid());
                    },
                };
                match self.split(
                    plan,
                    scratch,
                    Progression { output, start, step: by, len: len as usize },
                ) {
                    Ok(()) => {
                        proof {
                            lemma_has_read(
                                *self,
                                before,
                                offsets,
                                size,
                                at,
                                start as int,
                                by as int,
                                len as int,
                            );
                        }
                    },
                    Err(error) => {
                        proof {
                            assert(offsets[at + 0] == start + (step * w) * 0);
                            assert(offsets[at + (len - 1)] == start + (step * w) * (len - 1));
                        }
                        return Err(error);
                    },
                }
                output = output + len as usize;
            }
            row += 1;
        }
        proof {
            assert(offsets.take(total as int) =~= offsets);
        }
        Ok(())
    }
}

/// The offsets of some coordinates under a map.
pub open spec fn mapped_offsets(map: Mapping, coords: Seq<Seq<u64>>) -> Seq<int> {
    Seq::new(coords.len(), |o: int| offset_at(map, coords[o]))
}

/// Each coordinate has a place in a tensor of this shape.
pub open spec fn all_resolve(
    map: Mapping,
    coords: Seq<Seq<u64>>,
    shape: Seq<u64>,
    strides: Seq<u64>,
) -> bool {
    forall|o: int| 0 <= o < coords.len() ==> resolves(map, #[trigger] coords[o], shape, strides)
}

proof fn lemma_affine_offsets(map: Mapping, coords: Seq<Seq<u64>>)
    requires
        is_affine(map),
        forall|o: int| 0 <= o < coords.len() ==> (#[trigger] coords[o]).len() == map.axes.len(),
    ensures
        affine_offsets(constants(map.base, map.axes), affine_strides(map.axes), coords)
            == mapped_offsets(map, coords),
{
    assert forall|o: int| 0 <= o < coords.len() implies affine_at(
        constants(map.base, map.axes),
        affine_strides(map.axes),
        coords[o],
    ) == offset_at(map, coords[o]) by {
        assert(coords[o].len() == map.axes.len());
        affine_maps_are_weighted_sums(map, coords[o]);
    }
    assert(affine_offsets(constants(map.base, map.axes), affine_strides(map.axes), coords)
        =~= mapped_offsets(map, coords));
}

/// The map of a tensor onto itself is its strides.
proof fn lemma_identity_affine(shape: Seq<u64>, strides: Seq<u64>)
    requires
        are_strides(strides, shape),
    ensures
        is_affine(identity_map(shape, strides)),
        !has_table(identity_map(shape, strides)),
        constants(0, stride_axes(strides)) == 0,
        affine_strides(stride_axes(strides)) == row_major_strides(shape),
{
    let map = identity_map(shape, strides);
    lemma_no_constants(stride_axes(strides));
    assert forall|k: int| 0 <= k <= map.axes.len() implies fits(
        constants(map.base, #[trigger] map.axes.take(k)),
    ) by {
        lemma_no_constants(map.axes.take(k));
    }
    assert(affine_strides(stride_axes(strides)) =~= row_major_strides(shape)) by {
        assert forall|i: int| 0 <= i < shape.len() implies affine_strides(stride_axes(strides))[i]
            == row_major_strides(shape)[i] by {
            assert(strides[i] == volume(shape.skip(i + 1)));
        }
    }
}

proof fn lemma_no_constants(axes: Seq<Contribution>)
    requires
        forall|i: int| 0 <= i < axes.len() ==> (#[trigger] axes[i]) is Stride,
    ensures
        constants(0, axes) == 0,
    decreases axes.len(),
{
    if axes.len() > 0 {
        assert(axes[axes.len() - 1] is Stride);
        assert forall|i: int| 0 <= i < axes.drop_last().len() implies (
        #[trigger] axes.drop_last()[i]) is Stride by {
            assert(axes[i] is Stride);
        }
        lemma_no_constants(axes.drop_last());
    }
}

/// Positions in a tensor are small enough to be computed.
proof fn lemma_positions_fit(shape: Seq<u64>, coord: Seq<u64>)
    requires
        in_box(coord, shape),
        volume(shape) <= i128::MAX,
    ensures
        sum_fits(0, row_major_strides(shape), coord),
{
    let weights = row_major_strides(shape);
    lemma_position_weighted(coord, shape);
    lemma_position_bound(coord, shape);
    assert forall|i: int| 0 <= i < weights.len() implies #[trigger] weights[i] >= 0 by {
        lemma_volume_positive(shape.skip(i + 1));
    }
    assert forall|i: int| 0 <= i < coord.len() implies fits((#[trigger] coord[i]) * weights[i])
        && fits(affine_at(0, weights.take(i + 1), coord.take(i + 1))) by {
        lemma_weighted_prefix(coord, weights, i + 1);
        lemma_weighted_prefix(coord, weights, i);
        assert(coord.take(i + 1).drop_last() =~= coord.take(i));
        assert(weights.take(i + 1).drop_last() =~= weights.take(i));
        assert(0 <= coord[i] * weights[i]) by (nonlinear_arith)
            requires
                coord[i] >= 0,
                weights[i] >= 0,
        ;
    }
}

/// The contents of a map, or the map of a tensor onto itself where there is none.
pub open spec fn map_or_identity(
    mapping: Option<&CoordinateMap>,
    shape: Seq<u64>,
    strides: Seq<u64>,
) -> Mapping {
    match mapping {
        Some(mapping) => mapping@,
        None => identity_map(shape, strides),
    }
}

/// The request can be planned: each element has a place in storage, and the arithmetic stays
/// within the range of offsets.
pub open spec fn plannable(storage: StorageShape, request: Requested, map: Mapping) -> bool {
    let coords = request_coords(request, map.shape);
    if request is Explicit || has_table(map) {
        all_resolve(map, coords, storage.shape@, storage.strides@)
    } else {
        let weights = affine_strides(map.axes);
        &&& is_affine(map)
        &&& sums_fit(constants(map.base, map.axes), weights, coords)
        &&& within_size(mapped_offsets(map, coords), storage.limit())
        &&& request is Linear ==> all_positive(map.shape)
        &&& request matches Requested::Rectangles(boxes) ==> steps_fit(boxes, weights)
    }
}

impl<'a> StorageShape<'a> {
    /// Read a request of a view whose offsets are strides.
    fn progressions(
        &self,
        plan: &mut Planner,
        scratch: &mut Scratch,
        request: &BatchRequest,
        shape: &[u64],
        offset: i128,
        strides: &[i128],
    ) -> (result: Result<()>)
        requires
            self.wf(),
            old(plan).wf(),
            old(plan).block_len == volume(self.block_shape@),
            old(plan).end == 0,
            old(plan).total == request.spec_len(),
            request.wf(),
            request_fits(request@, shape@),
            !(request@ is Explicit),
            shape@.len() == strides@.len(),
        ensures
            final(plan).wf(),
            final(plan).block_len == old(plan).block_len,
            final(plan).total == old(plan).total,
            ({
                let coords = request_coords(request@, shape@);
                let weights = exact(strides@);
                let offsets = affine_offsets(offset as int, weights, coords);
                &&& result is Ok ==> {
                    &&& final(plan).end == request.spec_len()
                    &&& final(plan).addresses@ == self.addresses_at(offsets)
                    &&& within_size(offsets, self.limit())
                }
                &&& sums_fit(offset as int, weights, coords) && within_size(
                    offsets,
                    self.limit(),
                ) && (request@ is Linear ==> all_positive(shape@)) && (
                request@ matches Requested::Rectangles(boxes) ==> steps_fit(boxes, weights))
                    ==> result is Ok
                &&& has_fault(
                    result,
                    walk_fault(*self, offset as int, weights, shape@, request@),
                )
            }),
    {
        let ghost coords = request_coords(request@, shape@);
        let ghost weights = exact(strides@);
        let ghost offsets = affine_offsets(offset as int, weights, coords);
        let ghost size = self.limit();
        let len: usize = request.len();
        proof {
            request.lemma_wf();
            if let Requested::Rectangles(boxes) = request@ {
                lemma_boxes_len(boxes);
            }
            assert(coords.len() == len);
        }
        if shape.len() == 0 {
            proof {
                assert forall|t: int| 0 <= t < len implies #[trigger] offsets[t] == offset + 0
                    * t by {
                    requested_coordinates_lie_in_the_shape(request@, shape@, t);
                    assert(coords[t].len() == 0);
                    assert(0 * t == 0);
                }
                assert(offsets.take(0) =~= Seq::<int>::empty());
                assert(plan.addresses@ =~= Seq::<Address>::empty());
                assert forall|t: int| 0 <= t < len implies #[trigger] offsets[0 + t] == offset + 0
                    * t by {
                    assert(offsets[t] == offset + 0 * t);
                }
            }
            let done = self.split(
                plan,
                scratch,
                Progression { output: 0, start: offset, step: 0, len },
            );
            proof {
                if done is Ok {
                    lemma_has_read(
                        *self,
                        Seq::<Address>::empty(),
                        offsets,
                        size,
                        0,
                        offset as int,
                        0,
                        len as int,
                    );
                    assert(offsets.take(len as int) =~= offsets);
                    assert(Seq::<Address>::empty() + self.addresses_at(offsets.take(0))
                        =~= Seq::<Address>::empty());
                    assert(plan.addresses@ =~= self.addresses_at(offsets));
                } else {
                    assert(offsets[0] == offset + 0 * 0);
                    assert(offsets[len - 1] == offset + 0 * (len - 1));
                }
            }
            return done;
        }
        match request.kind() {
            RequestKind::Linear { start } => {
                proof {
                    assert(product_fits(shape@));
                }
                self.read_span(plan, scratch, (*start, len), shape, offset, strides)
            },
            RequestKind::Rectangles(rectangles) => {
                let ghost boxes = boxes_of(rectangles@);
                let mut r: usize = 0;
                proof {
                    assert(boxes.take(0) =~= Seq::<Seq<Selection>>::empty());
                    assert(boxes_coords(boxes.take(0)) =~= Seq::<Seq<u64>>::empty());
                    assert(plan.addresses@ =~= Seq::<Address>::empty());
                    assert(plan.addresses@ =~= self.addresses_at(
                        affine_offsets(offset as int, weights, boxes_coords(boxes.take(0))),
                    ));
                }
                while r < rectangles.len()
                    invariant
                        r <= rectangles.len(),
                        self.wf(),
                        plan.wf(),
                        plan.block_len == volume(self.block_shape@),
                        plan.block_len == old(plan).block_len,
                        plan.total == old(plan).total,
                        plan.total == request.spec_len(),
                        request.wf(),
                        boxes == boxes_of(rectangles@),
                        request@ == Requested::Rectangles(boxes),
                        request.spec_len() == boxes_len(boxes),
                        request_fits(request@, shape@),
                        forall|i: int|
                            0 <= i < rectangles@.len() ==> (#[trigger] rectangles@[i]).wf(),
                        shape@.len() == strides@.len() > 0,
                        weights == exact(strides@),
                        coords == boxes_coords(boxes),
                        coords == request_coords(request@, shape@),
                        offsets == affine_offsets(offset as int, weights, coords),
                        size == self.limit(),
                        boxes_fault(*self, offset as int, weights, boxes, 0) == boxes_fault(
                            *self,
                            offset as int,
                            weights,
                            boxes,
                            r as int,
                        ),
                        plan.end == boxes_len(boxes.take(r as int)),
                        plan.addresses@ == self.addresses_at(
                            affine_offsets(
                                offset as int,
                                weights,
                                boxes_coords(boxes.take(r as int)),
                            ),
                        ),
                        within_size(
                            affine_offsets(
                                offset as int,
                                weights,
                                boxes_coords(boxes.take(r as int)),
                            ),
                            size,
                        ),
                    decreases rectangles.len() - r,
                {
                    let rect = &rectangles[r];
                    let ghost so_far = boxes_coords(boxes.take(r as int));
                    let ghost here = box_coords(rect@);
                    let ghost next = boxes_coords(boxes.take(r + 1));
                    proof {
                        assert(rectangles@[r as int].wf());
                        assert(boxes[r as int] == rect@);
                        assert(axes_fit(boxes[r as int], shape@));
                        lemma_boxes_prefix(boxes, r as int);
                        assert(boxes.take(r + 1).drop_last() =~= boxes.take(r as int));
                        assert(next == so_far + here);
                        lemma_boxes_len(boxes.take(r as int));
                        lemma_boxes_len(boxes);
                        lemma_volume_positive(axes_lens(rect@));
                        assert forall|k: int| 0 <= k < here.len() implies #[trigger] here[k]
                            == coords[so_far.len() + k] && so_far.len() + k < coords.len() by {
                            lemma_boxes_index(boxes, r as int, k);
                        }
                    }
                    match self.read_box(plan, scratch, rect, shape, offset, strides) {
                        Ok(()) => {
                            proof {
                                let done = affine_offsets(offset as int, weights, so_far);
                                let more = affine_offsets(offset as int, weights, here);
                                let both = affine_offsets(offset as int, weights, next);
                                assert(both =~= done + more);
                                assert(self.addresses_at(both) =~= self.addresses_at(done)
                                    + self.addresses_at(more));
                                assert forall|o: int| 0 <= o < both.len() implies 0
                                    <= #[trigger] both[o] < size by {
                                    if o < done.len() {
                                        assert(0 <= done[o] < size);
                                    } else {
                                        assert(0 <= more[o - done.len()] < size);
                                    }
                                }
                            }
                        },
                        Err(error) => {
                            proof {
                                if sums_fit(offset as int, weights, coords) && within_size(
                                    offsets,
                                    size,
                                ) && steps_fit(boxes, weights) {
                                    let more = affine_offsets(offset as int, weights, here);
                                    assert forall|k: int| 0 <= k < here.len() implies sum_fits(
                                        offset as int,
                                        weights,
                                        #[trigger] here[k],
                                    ) by {
                                        assert(here[k] == coords[so_far.len() + k]);
                                    }
                                    assert forall|k: int| 0 <= k < more.len() implies 0
                                        <= #[trigger] more[k] < size by {
                                        assert(here[k] == coords[so_far.len() + k]);
                                        assert(0 <= offsets[so_far.len() + k] < size);
                                    }
                                    assert(steps_fit(seq![rect@], weights)) by {
                                        assert(boxes[r as int] == rect@);
                                    }
                                }
                            }
                            return Err(error);
                        },
                    }
                    r += 1;
                }
                proof {
                    assert(boxes.take(r as int) =~= boxes);
                }
                Ok(())
            },
            RequestKind::Explicit(_) => Ok(()),
        }
    }

    /// Plan the reading of a request, of the tensor itself or of a view on it: which elements
    /// stand in which block, and where.
    pub fn plan(&self, request: &BatchRequest, mapping: Option<&CoordinateMap>) -> (result: Result<
        LogicalGroups,
    >)
        requires
            self.wf(),
            request.wf(),
            mapping matches Some(mapping) ==> mapping.tables_wf(),
        ensures
            ({
                let map = map_or_identity(mapping, self.shape@, self.strides@);
                let coords = request_coords(request@, map.shape);
                let offsets = mapped_offsets(map, coords);
                let block_len = volume(self.block_shape@);
                &&& result matches Ok(plan) ==> {
                    &&& request_fits(request@, map.shape)
                    &&& within_size(offsets, volume(self.shape@))
                    &&& keys_ordered(plan.groups@)
                    &&& reads(plan.groups@, self.addresses_at(offsets))
                    &&& forall|g: int|
                        0 <= g < plan.groups@.len() ==> runs_fit(
                            (#[trigger] plan.groups@[g]).runs@,
                            block_len,
                            request.spec_len(),
                        ) && plan.groups@[g].runs@.len() > 0 && are_joined(
                            plan.groups@[g].runs@,
                        )
                }
                &&& request_fits(request@, map.shape) && plannable(*self, request@, map)
                    ==> result is Ok
                &&& mapping is None && request@ is Linear && request_fits(request@, self.shape@)
                    ==> result is Ok
                &&& has_fault(result, plan_fault(*self, request@, mapping))
            }),
    {
        let ghost map = map_or_identity(mapping, self.shape@, self.strides@);
        let ghost coords = request_coords(request@, map.shape);
        let ghost offsets = mapped_offsets(map, coords);
        let ghost size = volume(self.shape@);
        let shape: &[u64] = match mapping {
            Some(mapping) => mapping.shape.as_slice(),
            None => self.shape,
        };
        request.validate(shape)?;
        let len: usize = request.len();
        proof {
            request.lemma_wf();
            lemma_volume_positive(self.block_shape@);
            lemma_product_fits(self.block_shape@);
            if let Requested::Rectangles(boxes) = request@ {
                lemma_boxes_len(boxes);
            }
            assert forall|o: int| 0 <= o < coords.len() implies in_box(
                #[trigger] coords[o],
                map.shape,
            ) by {
                requested_coordinates_lie_in_the_shape(request@, map.shape, o);
            }
            assert(coords.len() == len);
        }
        let block_len: usize = match checked_product(self.block_shape) {
            Ok(block_len) => block_len as usize,
            Err(_) => {
                return Err(invalid());
            },
        };
        let explicit = matches!(request.kind(), RequestKind::Explicit(_));
        let affine: Option<(i128, Vec<i128>)> = if explicit {
            None
        } else {
            match mapping {
                Some(mapping) => mapping.affine()?,
                None => {
                    proof {
                        lemma_identity_affine(self.shape@, self.strides@);
                    }
                    Some((0, widen(self.strides)))
                },
            }
        };
        let mut plan = Planner {
            plan: LogicalGroups::new(),
            end: 0,
            block_len,
            total: len,
            addresses: Ghost(Seq::empty()),
        };
        let mut scratch = Scratch { coord: Coord::new(), delta: Coord::new() };
        match affine {
            Some((offset, strides)) => {
                proof {
                    assert(is_affine(map));
                    assert(!has_table(map));
                    assert(offset == constants(map.base, map.axes));
                    assert(exact(strides@) =~= affine_strides(map.axes));
                    lemma_affine_offsets(map, coords);
                    if mapping is None && request@ is Linear {
                        self.lemma_size();
                        lemma_product_fits(self.shape@);
                        lemma_identity_affine(self.shape@, self.strides@);
                        assert forall|o: int| 0 <= o < coords.len() implies sum_fits(
                            0,
                            row_major_strides(self.shape@),
                            #[trigger] coords[o],
                        ) by {
                            lemma_positions_fit(self.shape@, coords[o]);
                        }
                        assert forall|o: int| 0 <= o < offsets.len() implies 0
                            <= #[trigger] offsets[o] < size by {
                            lemma_identity_offset(self.shape@, self.strides@, coords[o]);
                            lemma_position_bound(coords[o], self.shape@);
                        }
                    }
                }
                self.progressions(
                    &mut plan,
                    &mut scratch,
                    request,
                    shape,
                    offset,
                    strides.as_slice(),
                )?;
            },
            None => {
                let mut cursor = request.cursor(shape)?;
                let mut coord = Coord::new();
                let mut mapped = Coord::new();
                proof {
                    assert(offsets.take(0) =~= Seq::<int>::empty());
                    assert(plan.addresses@ =~= Seq::<Address>::empty() + self.addresses_at(
                        offsets.take(0),
                    ));
                }
                let mut more = cursor.next_into(&mut coord);
                while more
                    invariant
                        self.wf(),
                        request.wf(),
                        plan.wf(),
                        mapping matches Some(mapping) ==> mapping.tables_wf(),
                        plan.block_len == volume(self.block_shape@),
                        plan.total == len,
                        len == coords.len(),
                        map == map_or_identity(mapping, self.shape@, self.strides@),
                        coords == request_coords(request@, map.shape),
                        offsets == mapped_offsets(map, coords),
                        size == volume(self.shape@),
                        shape@ == map.shape,
                        request_fits(request@, map.shape),
                        request@ is Explicit || has_table(map),
                        request_len(request@) == len,
                        forall|o: int|
                            0 <= o < coords.len() ==> in_box(#[trigger] coords[o], map.shape),
                        forall|o: int|
                            mapping is Some && 0 <= o < plan.end ==> resolves(
                                map,
                                #[trigger] coords[o],
                                self.shape@,
                                self.strides@,
                            ),
                        cursor.wf(),
                        cursor.spec_request() == request@,
                        cursor.spec_shape() == shape@,
                        more ==> cursor.spec_position() == plan.end + 1 && plan.end < len && coord@
                            == coords[plan.end as int],
                        !more ==> plan.end == len,
                        has_read(
                            *self,
                            plan,
                            Seq::<Address>::empty(),
                            offsets,
                            size,
                            plan.end as int,
                        ),
                    decreases len - plan.end,
                {
                    let ghost o = plan.end as int;
                    let found: &[u64] = match mapping {
                        Some(mapping) => {
                            let resolved = mapping.resolve_into(
                                coord.as_slice(),
                                self.shape,
                                self.strides,
                                &mut mapped,
                            );
                            if let Err(error) = resolved {
                                proof {
                                    assert(!resolves(
                                        map,
                                        coords[o],
                                        self.shape@,
                                        self.strides@,
                                    ));
                                }
                                return Err(error);
                            }
                            proof {
                                lemma_unravel(offsets[o], self.shape@, self.strides@);
                            }
                            mapped.as_slice()
                        },
                        None => {
                            proof {
                                identity_resolves_to_itself(
                                    self.shape@,
                                    self.strides@,
                                    coords[o],
                                );
                                lemma_identity_offset(self.shape@, self.strides@, coords[o]);
                                lemma_position_bound(coords[o], self.shape@);
                                lemma_position_coordinate(coords[o], self.shape@);
                            }
                            coord.as_slice()
                        },
                    };
                    proof {
                        lemma_coordinate_position(offsets[o], self.shape@);
                        assert(found@ == coordinate_at(offsets[o], self.shape@));
                    }
                    let (block, offset) = self.position(found);
                    let key = self.key(found, block);
                    let run = Run { output: plan.end, offset, stride: 0, len: 1 };
                    proof {
                        assert(key@ =~= self.key_of(found@));
                        assert(0 * (run.len - 1) == 0);
                        assert(run_fits(run, plan.block_len as int, plan.total as int));
                    }
                    let ghost before = plan.addresses@;
                    let emitted = plan.emit(key, run);
                    assert(emitted is Ok);
                    proof {
                        let one = run_addresses(key@, run);
                        assert(offsets[o] + 0 * 0 == offsets[o]);
                        assert(one =~= self.addresses_at(
                            Seq::new(1, |t: int| offsets[o] + 0 * t),
                        )) by {
                            assert(0int * 0 == 0);
                            assert(one[0] == self.address_of(found@));
                        }
                        assert forall|t: int| 0 <= t < 1 implies #[trigger] offsets[o + t]
                            == offsets[o] + 0 * t by {
                            assert(0 * t == 0);
                        }
                        lemma_has_read(
                            *self,
                            Seq::<Address>::empty(),
                            offsets,
                            size,
                            o,
                            offsets[o],
                            0,
                            1,
                        );
                    }
                    more = cursor.next_into(&mut coord);
                }
                proof {
                    assert(offsets.take(len as int) =~= offsets);
                    assert(plan.addresses@ =~= self.addresses_at(offsets));
                }
            },
        }
        Ok(plan.plan)
    }
}

/// How many elements a shape has, in wide arithmetic.
fn wide_product(shape: &[u64]) -> (size: i128)
    requires
        all_positive(shape@),
        volume(shape@) <= i128::MAX,
    ensures
        size == volume(shape@),
{
    let mut size: i128 = 1;
    let mut i: usize = 0;
    while i < shape.len()
        invariant
            i <= shape.len(),
            all_positive(shape@),
            volume(shape@) <= i128::MAX,
            size == volume(shape@.take(i as int)),
        decreases shape.len() - i,
    {
        proof {
            lemma_volume_suffix_bound(shape@, i + 1);
            assert(shape@.take(i + 1) =~= shape@.take(i as int).push(shape@[i as int]));
            lemma_volume_push(shape@.take(i as int), shape@[i as int]);
        }
        size = size * shape[i] as i128;
        i += 1;
    }
    proof {
        assert(shape@.take(i as int) =~= shape@);
    }
    size
}

fn widen(strides: &[u64]) -> (wide: Vec<i128>)
    ensures
        same_numbers(affine_strides(stride_axes(strides@)), wide@),
{
    let mut wide: Vec<i128> = Vec::new();
    let mut i: usize = 0;
    while i < strides.len()
        invariant
            i <= strides.len(),
            wide.len() == i,
            forall|j: int| 0 <= j < i ==> #[trigger] wide@[j] == strides@[j],
        decreases strides.len() - i,
    {
        wide.push(strides[i] as i128);
        i += 1;
    }
    wide
}

} // verus!
