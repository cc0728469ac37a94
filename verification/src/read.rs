//! Reading blocks: which blocks a plan needs, and what their elements go to.

use vstd::prelude::*;
use crate::element::TensorElement;
use crate::error::{Error, Result};
use crate::geometry::{coordinate_at, lemma_coordinate_position, volume};
use crate::schema::Layout;
use crate::sorted::Groups;
use crate::storage_read::{
    Address, block_of, block_positions_are_unique, Group, is_read, LogicalGroups, reads, Run,
    run_fits, run_spots, runs_fit, scattered, spots, StorageShape,
};
use crate::tensor::{sparse_axis, TensorStorage, zeros};
use crate::write::{element, key_of, Store};

verus! {

/// No element of the request is read twice.
pub open spec fn outputs_distinct(runs: Seq<Run>) -> bool {
    forall|s: int, t: int|
        #![trigger spots(runs)[s], spots(runs)[t]]
        0 <= s < t < spots(runs).len() ==> spots(runs)[s].0 != spots(runs)[t].0
}

/// Some spot of the runs is for the element.
pub open spec fn covers_output(runs: Seq<Run>, output: int) -> bool {
    exists|s: int| 0 <= s < spots(runs).len() && (#[trigger] spots(runs)[s]).0 == output
}

/// The elements of a request that the runs read from a block, and no others, are those of the
/// block.
pub open spec fn taken_from_block<T>(
    runs: Seq<Run>,
    block: Seq<T>,
    before: Seq<T>,
    after: Seq<T>,
) -> bool {
    &&& after.len() == before.len()
    &&& forall|s: int|
        0 <= s < spots(runs).len() ==> after[(#[trigger] spots(runs)[s]).0]
            == block[spots(runs)[s].1]
    &&& forall|o: int|
        0 <= o < before.len() && !covers_output(runs, o) ==> #[trigger] after[o] == before[o]
}

proof fn lemma_one_more_run<T>(
    runs: Seq<Run>,
    next: Run,
    block: Seq<T>,
    before: Seq<T>,
    middle: Seq<T>,
)
    requires
        taken_from_block(runs, block, before, middle),
        outputs_distinct(runs.push(next)),
        runs_fit(runs, block.len() as int, before.len() as int),
        run_fits(next, block.len() as int, before.len() as int),
    ensures
        taken_from_block(
            runs.push(next),
            block,
            before,
            scattered(next, block, middle),
        ),
{
    let longer = runs.push(next);
    let after = scattered(next, block, middle);
    assert(longer.drop_last() =~= runs);
    let old_spots = spots(runs);
    let all = spots(longer);
    assert(all == old_spots + run_spots(next));
    assert forall|s: int| 0 <= s < all.len() implies after[(#[trigger] all[s]).0]
        == block[all[s].1] by {
        if s < old_spots.len() {
            assert(all[s] == old_spots[s]);
            let o = all[s].0;
            if next.output <= o < next.output + next.len {
                let t = old_spots.len() + (o - next.output);
                assert(all[t] == run_spots(next)[o - next.output]);
                assert(all[t].0 == o);
                assert(false);
            }
            lemma_spot_inside(runs, block.len() as int, before.len() as int, s);
        } else {
            let i = s - old_spots.len();
            assert(all[s] == run_spots(next)[i]);
        }
    }
    assert forall|o: int| 0 <= o < before.len() && !covers_output(longer, o) implies
        #[trigger] after[o] == before[o] by {
        if covers_output(runs, o) {
            let s = choose|s: int|
                0 <= s < old_spots.len() && (#[trigger] old_spots[s]).0 == o;
            assert(all[s].0 == o);
        }
        if next.output <= o < next.output + next.len {
            let t = old_spots.len() + (o - next.output);
            assert(all[t] == run_spots(next)[o - next.output]);
            assert(all[t].0 == o);
        }
        assert(middle[o] == before[o]);
    }
}

proof fn lemma_spot_inside(runs: Seq<Run>, block_len: int, output_len: int, s: int)
    requires
        runs_fit(runs, block_len, output_len),
        0 <= s < spots(runs).len(),
    ensures
        0 <= spots(runs)[s].0 < output_len,
    decreases runs.len(),
{
    let init = runs.drop_last();
    assert(run_fits(runs[runs.len() - 1], block_len, output_len));
    assert forall|i: int| 0 <= i < init.len() implies run_fits(
        #[trigger] init[i],
        block_len,
        output_len,
    ) by {
        assert(run_fits(runs[i], block_len, output_len));
    }
    if s < spots(init).len() {
        lemma_spot_inside(init, block_len, output_len, s);
        assert(spots(runs)[s] == spots(init)[s]);
    } else {
        assert(spots(runs)[s] == run_spots(runs.last())[s - spots(init).len()]);
    }
}

proof fn lemma_distinct_prefix(runs: Seq<Run>, n: int)
    requires
        outputs_distinct(runs),
        0 <= n <= runs.len(),
    ensures
        outputs_distinct(runs.take(n)),
    decreases runs.len() - n,
{
    if n == runs.len() {
        assert(runs.take(n) =~= runs);
    } else {
        lemma_distinct_prefix(runs, n + 1);
        let more = runs.take(n + 1);
        let less = runs.take(n);
        assert(more.drop_last() =~= less);
        assert forall|s: int, t: int|
            #![trigger spots(less)[s], spots(less)[t]]
            0 <= s < t < spots(less).len() implies spots(less)[s].0 != spots(less)[t].0 by {
            assert(spots(more)[s] == spots(less)[s]);
            assert(spots(more)[t] == spots(less)[t]);
        }
    }
}

/// What runs read from a block, one after the other.
pub open spec fn all_scattered<T>(runs: Seq<Run>, block: Seq<T>, output: Seq<T>) -> Seq<T>
    decreases runs.len(),
{
    if runs.len() == 0 {
        output
    } else {
        scattered(runs.last(), block, all_scattered(runs.drop_last(), block, output))
    }
}

/// Take what runs read from a block, one after the other. The whole block is checked, whatever is
/// read of it. Where no element is read twice, each is the one that its run names.
pub fn scatter_block<T: Copy>(
    block: &[T],
    runs: &[Run],
    block_len: usize,
    values: &mut Vec<T>,
) -> (result: Result<()>)
    ensures
        final(values)@.len() == old(values)@.len(),
        result is Ok <==> block@.len() == block_len && runs_fit(
            runs@,
            block_len as int,
            old(values)@.len() as int,
        ),
        result is Ok ==> final(values)@ == all_scattered(runs@, block@, old(values)@),
        result is Ok && outputs_distinct(runs@) ==> taken_from_block(
            runs@,
            block@,
            old(values)@,
            final(values)@,
        ),
        result matches Err(error) ==> error is InvalidLayout,
{
    if block.len() != block_len {
        return Err(Error::InvalidLayout("invalid stored block length".to_string()));
    }
    let ghost first = values@;
    let mut i: usize = 0;
    proof {
        assert(spots(runs@.take(0)) =~= Seq::<(int, int)>::empty());
        assert(taken_from_block(runs@.take(0), block@, first, first));
    }
    while i < runs.len()
        invariant
            i <= runs.len(),
            first == old(values)@,
            block@.len() == block_len,
            values@.len() == first.len(),
            runs_fit(runs@.take(i as int), block_len as int, first.len() as int),
            values@ == all_scattered(runs@.take(i as int), block@, first),
            outputs_distinct(runs@) ==> taken_from_block(
                runs@.take(i as int),
                block@,
                first,
                values@,
            ),
        decreases runs.len() - i,
    {
        let ghost middle = values@;
        let checked = runs[i].scatter(block, values.as_mut_slice());
        if let Err(error) = checked {
            assert(!run_fits(runs@[i as int], block_len as int, first.len() as int));
            return Err(error);
        }
        proof {
            let less = runs@.take(i as int);
            assert(runs@.take(i + 1) =~= less.push(runs@[i as int]));
            assert(runs@.take(i + 1).drop_last() =~= less);
            if outputs_distinct(runs@) {
                lemma_distinct_prefix(runs@, i + 1);
                lemma_one_more_run(less, runs@[i as int], block@, first, middle);
            }
        }
        i += 1;
    }
    proof {
        assert(runs@.take(i as int) =~= runs@);
    }
    Ok(())
}

/// The blocks to read, each with what is read from it. Rows of the index that name one block are
/// read together.
#[derive(Debug)]
pub struct BlockReads {
    pub blocks: Groups<Run>,
}

impl BlockReads {
    /// The entries stand in order, and each is that of a block.
    pub open spec fn wf(&self) -> bool {
        &&& self.blocks.wf()
        &&& forall|e: int|
            0 <= e < self.blocks.entries@.len() ==> (#[trigger] self.blocks.entries@[e]).0@.len()
                == 1
    }

    /// What is read from a block.
    pub open spec fn reads_from(&self, block: u64) -> Seq<Run> {
        self.blocks.listed(seq![block])
    }

    pub fn new() -> (reads: Self)
        ensures
            reads.wf(),
            forall|block: u64| #[trigger] reads.reads_from(block) == Seq::<Run>::empty(),
    {
        BlockReads { blocks: Groups::new() }
    }

    /// Add what is read through a row of the index. Without a row there is no block, and nothing is
    /// read.
    pub fn resolve(&mut self, block: Option<u64>, runs: &[Run])
        requires
            old(self).wf(),
        ensures
            final(self).wf(),
            forall|other: u64| #[trigger]
                final(self).reads_from(other) == if block == Some(other) {
                    old(self).reads_from(other) + runs@
                } else {
                    old(self).reads_from(other)
                },
    {
        let ghost before = *self;
        if let Some(id) = block {
            let key = vec![id];
            self.blocks.extend(key.as_slice(), runs);
            proof {
                assert(key@ =~= seq![id]);
                assert forall|other: u64| #[trigger]
                    self.reads_from(other) == if id == other {
                        before.reads_from(other) + runs@
                    } else {
                        before.reads_from(other)
                    } by {
                    if other != id {
                        assert(seq![other][0] != seq![id][0]);
                    }
                }
                let entries = self.blocks.entries@;
                assert forall|e: int| 0 <= e < entries.len() implies (
                #[trigger] entries[e]).0@.len() == 1 by {
                    let name = entries[e].0@;
                    if name != key@ {
                        self.blocks.lemma_listed(e);
                        assert(before.blocks.listed(name).len() > 0);
                        let d = choose|d: int|
                            0 <= d < before.blocks.entries@.len() && (
                            #[trigger] before.blocks.entries@[d]).0@ == name;
                        assert(before.blocks.entries@[d].0@.len() == 1);
                    }
                }
            }
        }
    }

    /// What a plan reads, given the block of each group, if there is one.
    pub fn resolved(plan: &LogicalGroups, found: &[Option<u64>]) -> (reads: Self)
        requires
            found@.len() == plan.groups@.len(),
        ensures
            reads.wf(),
            forall|block: u64| #[trigger]
                reads.reads_from(block) == resolved_runs(plan.groups@, found@, block),
    {
        let mut reads = BlockReads::new();
        let mut g: usize = 0;
        proof {
            assert(plan.groups@.take(0) =~= Seq::<Group>::empty());
        }
        while g < plan.groups.len()
            invariant
                g <= plan.groups.len(),
                found@.len() == plan.groups@.len(),
                reads.wf(),
                forall|block: u64| #[trigger]
                    reads.reads_from(block) == resolved_runs(
                        plan.groups@.take(g as int),
                        found@.take(g as int),
                        block,
                    ),
            decreases plan.groups.len() - g,
        {
            let ghost before = reads;
            proof {
                assert(plan.groups@.take(g + 1).drop_last() =~= plan.groups@.take(g as int));
                assert(plan.groups@.take(g + 1).last() == plan.groups@[g as int]);
                assert(found@.take(g + 1).drop_last() =~= found@.take(g as int));
                assert(found@.take(g + 1).last() == found@[g as int]);
            }
            reads.resolve(found[g], plan.groups[g].runs.as_slice());
            proof {
                assert forall|other: u64| #[trigger]
                    reads.reads_from(other) == resolved_runs(
                        plan.groups@.take(g + 1),
                        found@.take(g + 1),
                        other,
                    ) by {
                    assert(before.reads_from(other) == resolved_runs(
                        plan.groups@.take(g as int),
                        found@.take(g as int),
                        other,
                    ));
                }
            }
            g += 1;
        }
        assert(plan.groups@.take(g as int) =~= plan.groups@);
        assert(found@.take(g as int) =~= found@);
        reads
    }

    /// What a plan reads from a dense tensor. Its keys name the blocks.
    pub fn dense(plan: &LogicalGroups) -> (reads: Self)
        ensures
            reads.wf(),
            forall|block: u64| #[trigger]
                reads.reads_from(block) == resolved_runs(
                    plan.groups@,
                    grid_blocks(plan.groups@),
                    block,
                ),
    {
        let mut found: Vec<Option<u64>> = Vec::new();
        for g in 0..plan.groups.len()
            invariant
                found@ == grid_blocks(plan.groups@.take(g as int)),
        {
            found.push(Some(plan.groups[g].key[1]));
            assert(found@ =~= grid_blocks(plan.groups@.take(g + 1)));
        }
        assert(plan.groups@.take(plan.groups@.len() as int) =~= plan.groups@);
        BlockReads::resolved(plan, found.as_slice())
    }
}

/// The block of the grid that each group reads.
pub open spec fn grid_blocks(groups: Seq<Group>) -> Seq<Option<u64>> {
    Seq::new(groups.len(), |g: int| Some(groups[g].key@[1]))
}

/// The block of each group, looked up by its key.
pub open spec fn looked_up(
    groups: Seq<Group>,
    lookup: spec_fn(Seq<u64>) -> Option<u64>,
) -> Seq<Option<u64>> {
    Seq::new(groups.len(), |g: int| lookup(groups[g].key@))
}

/// What groups read from a block, given the block of each group.
pub open spec fn resolved_runs(
    groups: Seq<Group>,
    found: Seq<Option<u64>>,
    block: u64,
) -> Seq<Run>
    decreases groups.len(),
{
    if groups.len() == 0 {
        Seq::empty()
    } else if found.last() == Some(block) {
        resolved_runs(groups.drop_last(), found.drop_last(), block) + groups.last().runs@
    } else {
        resolved_runs(groups.drop_last(), found.drop_last(), block)
    }
}

/// What blocks give when what is read from each of them is taken, one block after the other.
pub open spec fn blocks_scattered<T>(
    entries: Seq<(Vec<u64>, Vec<Run>)>,
    blocks: Map<u64, Seq<T>>,
    output: Seq<T>,
) -> Seq<T>
    decreases entries.len(),
{
    if entries.len() == 0 {
        output
    } else {
        all_scattered(
            entries.last().1@,
            blocks[entries.last().0@[0]],
            blocks_scattered(entries.drop_last(), blocks, output),
        )
    }
}

proof fn lemma_spots_concat(left: Seq<Run>, right: Seq<Run>)
    ensures
        spots(left + right) == spots(left) + spots(right),
    decreases right.len(),
{
    if right.len() == 0 {
        assert(left + right =~= left);
        assert(spots(left + right) =~= spots(left) + spots(right));
    } else {
        lemma_spots_concat(left, right.drop_last());
        assert((left + right).drop_last() =~= left + right.drop_last());
        assert((left + right).last() == right.last());
        assert(spots(left + right) =~= spots(left) + spots(right));
    }
}

/// A spot of a group that is found in a block.
spec fn found_spot(
    groups: Seq<Group>,
    found: Seq<Option<u64>>,
    block: u64,
    g: int,
    t: int,
    spot: (int, int),
) -> bool {
    &&& 0 <= g < groups.len()
    &&& found[g] == Some(block)
    &&& 0 <= t < spots(groups[g].runs@).len()
    &&& spots(groups[g].runs@)[t] == spot
}

proof fn lemma_spot_origin(groups: Seq<Group>, found: Seq<Option<u64>>, block: u64, s: int)
    requires
        groups.len() == found.len(),
        0 <= s < spots(resolved_runs(groups, found, block)).len(),
    ensures
        exists|g: int, t: int| #[trigger]
            found_spot(
                groups,
                found,
                block,
                g,
                t,
                spots(resolved_runs(groups, found, block))[s],
            ),
    decreases groups.len(),
{
    if groups.len() > 0 {
        let init = groups.drop_last();
        let less = found.drop_last();
        let before = resolved_runs(init, less, block);
        let spot = spots(resolved_runs(groups, found, block))[s];
        lemma_spots_concat(before, groups.last().runs@);
        if s < spots(before).len() {
            lemma_spot_origin(init, less, block, s);
            let (g, t) = choose|g: int, t: int| #[trigger]
                found_spot(init, less, block, g, t, spots(before)[s]);
            assert(init[g] == groups[g]);
            assert(found_spot(groups, found, block, g, t, spot));
        } else {
            assert(found_spot(
                groups,
                found,
                block,
                groups.len() - 1,
                s - spots(before).len(),
                spot,
            ));
        }
    }
}

proof fn lemma_spot_kept(groups: Seq<Group>, found: Seq<Option<u64>>, block: u64, g: int, t: int)
    requires
        groups.len() == found.len(),
        0 <= g < groups.len(),
        found[g] == Some(block),
        0 <= t < spots(groups[g].runs@).len(),
    ensures
        spots(resolved_runs(groups, found, block)).contains(spots(groups[g].runs@)[t]),
    decreases groups.len(),
{
    let before = resolved_runs(groups.drop_last(), found.drop_last(), block);
    let all = spots(resolved_runs(groups, found, block));
    let spot = spots(groups[g].runs@)[t];
    lemma_spots_concat(before, groups.last().runs@);
    if g < groups.len() - 1 {
        lemma_spot_kept(groups.drop_last(), found.drop_last(), block, g, t);
        let s = choose|s: int| 0 <= s < spots(before).len() && spots(before)[s] == spot;
        assert(all[s] == spot);
    } else {
        assert(all[spots(before).len() + t] == spot);
    }
}

proof fn lemma_resolved_fit(
    groups: Seq<Group>,
    found: Seq<Option<u64>>,
    block: u64,
    block_len: int,
    len: int,
)
    requires
        groups.len() == found.len(),
        forall|g: int|
            0 <= g < groups.len() ==> runs_fit((#[trigger] groups[g]).runs@, block_len, len),
    ensures
        runs_fit(resolved_runs(groups, found, block), block_len, len),
    decreases groups.len(),
{
    if groups.len() > 0 {
        let init = groups.drop_last();
        assert forall|g: int| 0 <= g < init.len() implies runs_fit(
            (#[trigger] init[g]).runs@,
            block_len,
            len,
        ) by {
            assert(init[g] == groups[g]);
        }
        lemma_resolved_fit(init, found.drop_last(), block, block_len, len);
        assert(runs_fit(groups[groups.len() - 1].runs@, block_len, len));
    }
}

/// What a block gives where every spot of its runs has the value that the output is to have.
proof fn lemma_all_scattered<T>(runs: Seq<Run>, block: Seq<T>, output: Seq<T>, target: Seq<T>)
    requires
        runs_fit(runs, block.len() as int, output.len() as int),
        target.len() == output.len(),
        forall|s: int|
            0 <= s < spots(runs).len() ==> block[(#[trigger] spots(runs)[s]).1]
                == target[spots(runs)[s].0],
    ensures
        all_scattered(runs, block, output).len() == output.len(),
        forall|o: int|
            0 <= o < output.len() ==> #[trigger] all_scattered(runs, block, output)[o]
                == if covers_output(runs, o) {
                target[o]
            } else {
                output[o]
            },
    decreases runs.len(),
{
    if runs.len() > 0 {
        let init = runs.drop_last();
        let last = runs.last();
        assert(run_fits(runs[runs.len() - 1], block.len() as int, output.len() as int));
        assert forall|i: int| 0 <= i < init.len() implies run_fits(
            #[trigger] init[i],
            block.len() as int,
            output.len() as int,
        ) by {
            assert(run_fits(runs[i], block.len() as int, output.len() as int));
        }
        assert forall|s: int| 0 <= s < spots(init).len() implies block[(
        #[trigger] spots(init)[s]).1] == target[spots(init)[s].0] by {
            assert(spots(runs)[s] == spots(init)[s]);
        }
        lemma_all_scattered(init, block, output, target);
        let before = all_scattered(init, block, output);
        let after = all_scattered(runs, block, output);
        let n = spots(init).len() as int;
        assert forall|o: int| 0 <= o < output.len() implies #[trigger] after[o]
            == if covers_output(runs, o) {
            target[o]
        } else {
            output[o]
        } by {
            assert(after[o] == scattered(last, block, before)[o]);
            if last.output <= o < last.output + last.len {
                let i = o - last.output;
                assert(spots(runs)[n + i] == run_spots(last)[i]);
                assert(spots(runs)[n + i].0 == o);
            } else if covers_output(init, o) {
                let s = choose|s: int|
                    0 <= s < spots(init).len() && (#[trigger] spots(init)[s]).0 == o;
                assert(spots(runs)[s] == spots(init)[s]);
            } else if covers_output(runs, o) {
                let s = choose|s: int|
                    0 <= s < spots(runs).len() && (#[trigger] spots(runs)[s]).0 == o;
                if s < n {
                    assert(spots(init)[s] == spots(runs)[s]);
                } else {
                    assert(spots(runs)[s] == run_spots(last)[s - n]);
                }
            }
            assert(before[o] == if covers_output(init, o) {
                target[o]
            } else {
                output[o]
            });
        }
    }
}

/// Some entry reads the element.
spec fn entries_cover(entries: Seq<(Vec<u64>, Vec<Run>)>, output: int) -> bool {
    exists|e: int|
        0 <= e < entries.len() && covers_output((#[trigger] entries[e]).1@, output)
}

/// The spots of an entry have the values that the output is to have.
spec fn entry_agrees<T>(
    entry: (Vec<u64>, Vec<Run>),
    blocks: Map<u64, Seq<T>>,
    target: Seq<T>,
) -> bool {
    let block = blocks[entry.0@[0]];
    &&& runs_fit(entry.1@, block.len() as int, target.len() as int)
    &&& forall|s: int|
        0 <= s < spots(entry.1@).len() ==> block[(#[trigger] spots(entry.1@)[s]).1]
            == target[spots(entry.1@)[s].0]
}

proof fn lemma_blocks_scattered<T>(
    entries: Seq<(Vec<u64>, Vec<Run>)>,
    blocks: Map<u64, Seq<T>>,
    output: Seq<T>,
    target: Seq<T>,
)
    requires
        target.len() == output.len(),
        forall|e: int|
            0 <= e < entries.len() ==> entry_agrees(#[trigger] entries[e], blocks, target),
    ensures
        blocks_scattered(entries, blocks, output).len() == output.len(),
        forall|o: int|
            0 <= o < output.len() ==> #[trigger] blocks_scattered(entries, blocks, output)[o]
                == if entries_cover(entries, o) {
                target[o]
            } else {
                output[o]
            },
    decreases entries.len(),
{
    if entries.len() > 0 {
        let init = entries.drop_last();
        let last = entries.last();
        assert forall|e: int| 0 <= e < init.len() implies entry_agrees(
            #[trigger] init[e],
            blocks,
            target,
        ) by {
            assert(entry_agrees(entries[e], blocks, target));
        }
        lemma_blocks_scattered(init, blocks, output, target);
        assert(entry_agrees(entries[entries.len() - 1], blocks, target));
        let before = blocks_scattered(init, blocks, output);
        let after = blocks_scattered(entries, blocks, output);
        lemma_all_scattered(last.1@, blocks[last.0@[0]], before, target);
        assert forall|o: int| 0 <= o < output.len() implies #[trigger] after[o]
            == if entries_cover(entries, o) {
            target[o]
        } else {
            output[o]
        } by {
            assert(after[o] == if covers_output(last.1@, o) {
                target[o]
            } else {
                before[o]
            });
            if covers_output(last.1@, o) {
                assert(covers_output(entries[entries.len() - 1].1@, o));
            } else if entries_cover(init, o) {
                let e = choose|e: int|
                    0 <= e < init.len() && covers_output((#[trigger] init[e]).1@, o);
                assert(covers_output(entries[e].1@, o));
            } else if entries_cover(entries, o) {
                let e = choose|e: int|
                    0 <= e < entries.len() && covers_output((#[trigger] entries[e]).1@, o);
                if e < init.len() {
                    assert(covers_output(init[e].1@, o));
                }
            }
        }
    }
}

/// The blocks that reads name are there, and have the length of a block.
pub open spec fn blocks_there<T>(
    reads: BlockReads,
    blocks: Map<u64, Seq<T>>,
    block_len: int,
) -> bool {
    forall|block: u64| #[trigger]
        reads.reads_from(block).len() > 0 ==> blocks.dom().contains(block)
            && blocks[block].len() == block_len
}

/// Reading a plan block by block gives each place of the request what the block of its group holds
/// for it, and zero where the group has no block.
pub proof fn scattered_blocks_are_read<T: TensorElement>(
    groups: Seq<Group>,
    addresses: Seq<Address>,
    lookup: spec_fn(Seq<u64>) -> Option<u64>,
    block_reads: BlockReads,
    blocks: Map<u64, Seq<T>>,
    block_len: int,
)
    requires
        reads(groups, addresses),
        forall|g: int|
            0 <= g < groups.len() ==> runs_fit(
                (#[trigger] groups[g]).runs@,
                block_len,
                addresses.len() as int,
            ),
        block_reads.wf(),
        forall|block: u64| #[trigger]
            block_reads.reads_from(block) == resolved_runs(
                groups,
                looked_up(groups, lookup),
                block,
            ),
        blocks_there(block_reads, blocks, block_len),
    ensures
        ({
            let values = blocks_scattered(
                block_reads.blocks.entries@,
                blocks,
                zeros::<T>(addresses.len() as int),
            );
            &&& values.len() == addresses.len()
            &&& read_from_blocks(
                groups,
                |key: Seq<u64>|
                    match lookup(key) {
                        Some(block) => Some(blocks[block]),
                        None => None,
                    },
                values,
            )
        }),
{
    let found = looked_up(groups, lookup);
    let entries = block_reads.blocks.entries@;
    let start = zeros::<T>(addresses.len() as int);
    let target = Seq::new(
        addresses.len(),
        |o: int|
            match lookup(addresses[o].key) {
                Some(block) => blocks[block][addresses[o].place],
                None => T::spec_zero(),
            },
    );
    assert forall|e: int| 0 <= e < entries.len() implies entry_agrees(
        #[trigger] entries[e],
        blocks,
        target,
    ) by {
        let block = entries[e].0@[0];
        let runs = entries[e].1@;
        assert(entries[e].0@ =~= seq![block]);
        block_reads.blocks.lemma_listed(e);
        assert(block_reads.reads_from(block) == runs);
        lemma_resolved_fit(groups, found, block, block_len, addresses.len() as int);
        assert forall|s: int| 0 <= s < spots(runs).len() implies blocks[block][(
        #[trigger] spots(runs)[s]).1] == target[spots(runs)[s].0] by {
            lemma_spot_origin(groups, found, block, s);
            let (g, t) = choose|g: int, t: int| #[trigger]
                found_spot(groups, found, block, g, t, spots(runs)[s]);
            assert(spots(groups[g].runs@)[t] == spots(runs)[s]);
        }
    }
    lemma_blocks_scattered(entries, blocks, start, target);
    let values = blocks_scattered(entries, blocks, start);
    assert forall|g: int, s: int|
        #![trigger spots(groups[g].runs@)[s]]
        0 <= g < groups.len() && 0 <= s < spots(groups[g].runs@).len() implies {
        let (output, place) = spots(groups[g].runs@)[s];
        values[output] == match lookup(groups[g].key@) {
            Some(block) => blocks[block][place],
            None => T::spec_zero(),
        }
    } by {
        let (output, place) = spots(groups[g].runs@)[s];
        assert(addresses[output] == (Address { key: groups[g].key@, place }));
        match lookup(groups[g].key@) {
            Some(block) => {
                lemma_spot_kept(groups, found, block, g, s);
                let runs = resolved_runs(groups, found, block);
                assert(block_reads.reads_from(block) == runs);
                let k = choose|k: int|
                    0 <= k < spots(runs).len() && spots(runs)[k] == spots(groups[g].runs@)[s];
                assert(spots(runs)[k].0 == output);
                assert(covers_output(runs, output));
                assert(runs.len() > 0);
                let e = choose|e: int|
                    0 <= e < entries.len() && (#[trigger] entries[e]).0@ == seq![block];
                assert(covers_output(entries[e].1@, output));
                assert(entries_cover(entries, output));
            },
            None => {
                assert(target[output] == T::spec_zero());
                assert(start[output] == T::spec_zero());
            },
        }
    }
}

/// The values are what each group of a plan reads from its block; zero where there is no block.
pub open spec fn read_from_blocks<T: TensorElement>(
    groups: Seq<Group>,
    blocks: spec_fn(Seq<u64>) -> Option<Seq<T>>,
    values: Seq<T>,
) -> bool {
    forall|g: int, s: int|
        #![trigger spots(groups[g].runs@)[s]]
        0 <= g < groups.len() && 0 <= s < spots(groups[g].runs@).len() ==> {
            let (output, place) = spots(groups[g].runs@)[s];
            values[output] == match blocks(groups[g].key@) {
                Some(block) => block[place],
                None => T::spec_zero(),
            }
        }
}

/// The block of a key: that of the grid in a dense tensor, that of the row of the index in a
/// sparse one.
pub open spec fn block_under<T>(storage: TensorStorage, store: Store<T>, key: Seq<u64>) -> Option<
    u64,
> {
    if storage.spec_layout() is Dense {
        Some(key[1])
    } else if store.index.dom().contains(key) {
        Some(store.index[key])
    } else {
        None
    }
}

/// The block that storage holds under a key, if there is one.
pub open spec fn stored_block<T>(storage: TensorStorage, store: Store<T>, key: Seq<u64>) -> Option<
    Seq<T>,
> {
    match block_under(storage, store, key) {
        Some(block) => if store.blocks.dom().contains(block) {
            Some(store.blocks[block])
        } else {
            None
        },
        None => None,
    }
}

/// A plan that is read from storage gives the elements that storage holds: at every place of the
/// request the element at its coordinate.
pub proof fn planned_reads_give_the_elements<T: TensorElement>(
    storage: TensorStorage,
    store: Store<T>,
    shape: StorageShape<'_>,
    groups: Seq<Group>,
    offsets: Seq<int>,
    values: Seq<T>,
    o: int,
)
    requires
        storage.wf(),
        storage.is_countable(),
        shape.wf(),
        shape.shape@ == storage.spec_shape(),
        shape.block_shape@ == storage.spec_block_shape(),
        shape.sparse_axis == match storage.spec_layout() {
            Layout::Dense => None::<usize>,
            Layout::Sparse { .. } => Some(sparse_axis(storage.spec_layout())),
        },
        reads(groups, shape.addresses_at(offsets)),
        forall|i: int|
            0 <= i < offsets.len() ==> 0 <= #[trigger] offsets[i] < volume(storage.spec_shape()),
        read_from_blocks(
            groups,
            |key: Seq<u64>| stored_block(storage, store, key),
            values,
        ),
        0 <= o < offsets.len(),
    ensures
        values[o] == element(storage, store, coordinate_at(offsets[o], storage.spec_shape())),
{
    storage.lemma_wf();
    let addresses = shape.addresses_at(offsets);
    let coord = coordinate_at(offsets[o], storage.spec_shape());
    lemma_coordinate_position(offsets[o], storage.spec_shape());
    block_positions_are_unique(coord, coord, storage.spec_shape(), storage.spec_block_shape());
    assert(addresses.len() == offsets.len());
    assert(is_read(groups, o));
    let (g, s) = choose|g: int, s: int|
        0 <= g < groups.len() && 0 <= s < spots(groups[g].runs@).len() && (#[trigger] spots(
            groups[g].runs@,
        )[s]).0 == o;
    let (output, place) = spots(groups[g].runs@)[s];
    assert(addresses[o] == (Address { key: groups[g].key@, place }));
    assert(addresses[o] == shape.address_of(coord));
    let key = groups[g].key@;
    assert(key[1] == block_of(coord, storage.spec_shape(), storage.spec_block_shape()) as u64);
    if !(storage.spec_layout() is Dense) {
        assert(key =~= key_of(storage, coord));
    }
    assert(values[o] == match stored_block(storage, store, key) {
        Some(block) => block[place],
        None => T::spec_zero(),
    });
}

/// What a read gives back: the blocks of a plan are looked up, and taken one after the other over
/// zeros. Then every place of the request holds the element that storage holds at its coordinate.
pub proof fn reads_give_the_elements<T: TensorElement>(
    storage: TensorStorage,
    store: Store<T>,
    shape: StorageShape<'_>,
    groups: Seq<Group>,
    offsets: Seq<int>,
    block_reads: BlockReads,
    o: int,
)
    requires
        storage.wf(),
        storage.is_countable(),
        shape.wf(),
        shape.shape@ == storage.spec_shape(),
        shape.block_shape@ == storage.spec_block_shape(),
        shape.sparse_axis == match storage.spec_layout() {
            Layout::Dense => None::<usize>,
            Layout::Sparse { .. } => Some(sparse_axis(storage.spec_layout())),
        },
        reads(groups, shape.addresses_at(offsets)),
        forall|g: int|
            0 <= g < groups.len() ==> runs_fit(
                (#[trigger] groups[g]).runs@,
                storage.spec_block_len(),
                offsets.len() as int,
            ),
        forall|i: int|
            0 <= i < offsets.len() ==> 0 <= #[trigger] offsets[i] < volume(storage.spec_shape()),
        block_reads.wf(),
        forall|block: u64| #[trigger]
            block_reads.reads_from(block) == resolved_runs(
                groups,
                looked_up(groups, |key: Seq<u64>| block_under(storage, store, key)),
                block,
            ),
        blocks_there(block_reads, store.blocks, storage.spec_block_len()),
        0 <= o < offsets.len(),
    ensures
        blocks_scattered(
            block_reads.blocks.entries@,
            store.blocks,
            zeros::<T>(offsets.len() as int),
        )[o] == element(storage, store, coordinate_at(offsets[o], storage.spec_shape())),
{
    let addresses = shape.addresses_at(offsets);
    let lookup = |key: Seq<u64>| block_under(storage, store, key);
    let found = looked_up(groups, lookup);
    let len = storage.spec_block_len();
    assert(addresses.len() == offsets.len());
    scattered_blocks_are_read(groups, addresses, lookup, block_reads, store.blocks, len);
    let values = blocks_scattered(
        block_reads.blocks.entries@,
        store.blocks,
        zeros::<T>(offsets.len() as int),
    );
    let held = |key: Seq<u64>| stored_block(storage, store, key);
    assert(read_from_blocks(groups, held, values)) by {
        let given = |key: Seq<u64>|
            match lookup(key) {
                Some(block) => Some(store.blocks[block]),
                None => None,
            };
        assert(read_from_blocks(groups, given, values));
        assert forall|g: int, s: int|
            #![trigger spots(groups[g].runs@)[s]]
            0 <= g < groups.len() && 0 <= s < spots(groups[g].runs@).len() implies {
            let (output, place) = spots(groups[g].runs@)[s];
            values[output] == match held(groups[g].key@) {
                Some(block) => block[place],
                None => T::spec_zero(),
            }
        } by {
            if let Some(block) = lookup(groups[g].key@) {
                lemma_spot_kept(groups, found, block, g, s);
                assert(block_reads.reads_from(block).len() > 0);
            }
        }
    }
    planned_reads_give_the_elements(storage, store, shape, groups, offsets, values, o);
}

/// The block of each group of a plan of a dense tensor is the one that its key names.
pub proof fn grid_blocks_are_looked_up<T>(
    storage: TensorStorage,
    store: Store<T>,
    groups: Seq<Group>,
)
    requires
        storage.spec_layout() is Dense,
    ensures
        grid_blocks(groups) == looked_up(
            groups,
            |key: Seq<u64>| block_under(storage, store, key),
        ),
{
    assert(grid_blocks(groups) =~= looked_up(
        groups,
        |key: Seq<u64>| block_under(storage, store, key),
    ));
}

} // verus!
