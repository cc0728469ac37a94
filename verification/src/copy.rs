//! Copying a tensor into storage, batch by batch.

use vstd::prelude::*;
use vstd::string::StringExecFns;
use crate::element::TensorElement;
use crate::error::{Error, Result};
use crate::expression::MAX_BATCH_ELEMENTS;
use crate::geometry::{in_box, volume};
use crate::request::coords_of;
use crate::schema::{checked_product, Layout, product_fits};
use crate::sorted::Groups;
use crate::storage_read::{block_of, block_positions_are_unique, place_of};
use crate::tensor::{TensorStorage, updated, updates_fit};
use crate::validate::validate_coord;
use crate::write::{key_of, plan_sparse_write, SparseWriteAction, spec_action};

verus! {

/// An update of a block: its order in a batch, its place in the block and its value.
pub type Update<T> = (usize, usize, T);

/// The key that the updates of an element are grouped by: its block, and for a sparse tensor its
/// row of the index.
pub open spec fn copy_key(storage: TensorStorage, coord: Seq<u64>) -> Seq<u64> {
    if storage.spec_layout() is Dense {
        seq![block_of(coord, storage.spec_shape(), storage.spec_block_shape()) as u64]
    } else {
        key_of(storage, coord)
    }
}

/// The value is kept. A sparse tensor keeps no zeros.
pub open spec fn is_copied<T: TensorElement>(storage: TensorStorage, value: T) -> bool {
    storage.spec_layout() is Dense || !value.spec_is_zero()
}

/// The updates of a batch that go under a key, in the order of the batch.
pub open spec fn copy_updates<T: TensorElement>(
    storage: TensorStorage,
    coords: Seq<Seq<u64>>,
    values: Seq<T>,
    key: Seq<u64>,
) -> Seq<Update<T>>
    decreases coords.len(),
{
    if coords.len() == 0 {
        Seq::empty()
    } else {
        let before = copy_updates(storage, coords.drop_last(), values.drop_last(), key);
        if is_copied(storage, values.last()) && copy_key(storage, coords.last()) == key {
            before.push(
                (
                    (coords.len() - 1) as usize,
                    place_of(coords.last(), storage.spec_block_shape()) as usize,
                    values.last(),
                ),
            )
        } else {
            before
        }
    }
}

/// Every coordinate lies in the shape.
pub open spec fn all_in_box(coords: Seq<Seq<u64>>, shape: Seq<u64>) -> bool {
    forall|i: int| 0 <= i < coords.len() ==> in_box(#[trigger] coords[i], shape)
}

/// The block that is there for a group of updates: of a dense tensor always one, of a sparse tensor
/// the one that the index has under the key.
pub open spec fn group_block(
    storage: TensorStorage,
    key: Seq<u64>,
    found: Option<u64>,
) -> Option<u64> {
    if storage.spec_layout() is Dense {
        Some(key[0])
    } else {
        found
    }
}

impl TensorStorage {
    /// Group a batch of a copy by the blocks that it goes to.
    pub fn plan_copy<T: TensorElement>(&self, coords: &[Vec<u64>], values: &[T]) -> (result: Result<
        Groups<Update<T>>,
    >)
        requires
            self.wf(),
            self.is_countable(),
        ensures
            result is Ok <==> {
                &&& coords@.len() == values@.len()
                &&& values@.len() <= MAX_BATCH_ELEMENTS
                &&& all_in_box(coords_of(coords@), self.spec_shape())
            },
            result matches Ok(groups) ==> groups.wf() && forall|key: Seq<u64>| #[trigger]
                groups.listed(key) == copy_updates(*self, coords_of(coords@), values@, key),
            (result matches Err(Error::InvalidLayout(_))) <==> coords@.len() != values@.len()
                || values@.len() > MAX_BATCH_ELEMENTS,
            result matches Err(error) ==> error is InvalidLayout || error is InvalidCoord,
    {
        let n: usize = coords.len();
        if n != values.len() || n > MAX_BATCH_ELEMENTS {
            return Err(Error::InvalidLayout("invalid copy batch lengths".to_string()));
        }
        let ghost list = coords_of(coords@);
        let mut i: usize = 0;
        while i < n
            invariant
                i <= n,
                n == coords@.len(),
                n == values@.len(),
                n <= MAX_BATCH_ELEMENTS,
                list == coords_of(coords@),
                forall|j: int| 0 <= j < i ==> in_box(#[trigger] list[j], self.spec_shape()),
            decreases n - i,
        {
            let checked = validate_coord(self.shape(), coords[i].as_slice());
            if let Err(error) = checked {
                assert(!in_box(list[i as int], self.spec_shape()));
                return Err(error);
            }
            assert(in_box(list[i as int], self.spec_shape()));
            i += 1;
        }
        let mut groups: Groups<Update<T>> = Groups::new();
        let mut i: usize = 0;
        proof {
            assert forall|key: Seq<u64>| #[trigger] groups.listed(key) == copy_updates(
                *self,
                list.take(0),
                values@.take(0),
                key,
            ) by {}
        }
        while i < n
            invariant
                i <= n,
                n == coords@.len(),
                n == values@.len(),
                self.wf(),
                self.is_countable(),
                list == coords_of(coords@),
                all_in_box(list, self.spec_shape()),
                groups.wf(),
                forall|key: Seq<u64>| #[trigger]
                    groups.listed(key) == copy_updates(
                        *self,
                        list.take(i as int),
                        values@.take(i as int),
                        key,
                    ),
            decreases n - i,
        {
            let coord = coords[i].as_slice();
            let value = values[i];
            let ghost before = groups;
            proof {
                assert(list[i as int] == coord@);
                assert(list.take(i + 1).drop_last() =~= list.take(i as int));
                assert(values@.take(i + 1).drop_last() =~= values@.take(i as int));
                assert(list.take(i + 1).last() == coord@);
                assert(values@.take(i + 1).last() == value);
            }
            let position = self.block_position_from_base_coord(coord);
            let (kept, key) = match self.layout() {
                Layout::Dense => (true, vec![position.block_id]),
                Layout::Sparse { .. } => {
                    (!value.is_zero(), self.sparse_key(coord, position.block_id))
                },
            };
            assert(key@ =~= copy_key(*self, coord@));
            let ghost name = key@;
            if kept {
                groups.push(key, (i, position.offset_in_block, value));
            }
            proof {
                assert forall|other: Seq<u64>| #[trigger] groups.listed(other) == copy_updates(
                    *self,
                    list.take(i + 1),
                    values@.take(i + 1),
                    other,
                ) by {
                    assert(before.listed(other) == copy_updates(
                        *self,
                        list.take(i as int),
                        values@.take(i as int),
                        other,
                    ));
                }
            }
            i += 1;
        }
        proof {
            assert(list.take(i as int) =~= list);
            assert(values@.take(i as int) =~= values@);
        }
        Ok(groups)
    }

    /// What to do with a group of updates, given the block that the index has under its key.
    pub fn plan_group(&self, key: &[u64], found: Option<u64>) -> (action: SparseWriteAction)
        requires
            key@.len() > 0,
        ensures
            exists|fresh: u64|
                action == #[trigger] spec_action(group_block(*self, key@, found), false, fresh),
    {
        let existing = match self.layout() {
            Layout::Dense => Some(key[0]),
            Layout::Sparse { .. } => found,
        };
        plan_sparse_write(existing, false)
    }
}

/// The value that a batch gives an element: the last one that is kept, or else the one before.
pub open spec fn last_copied<T: TensorElement>(
    storage: TensorStorage,
    coords: Seq<Seq<u64>>,
    values: Seq<T>,
    coord: Seq<u64>,
    otherwise: T,
) -> T
    decreases coords.len(),
{
    if coords.len() == 0 {
        otherwise
    } else if coords.last() == coord && is_copied(storage, values.last()) {
        values.last()
    } else {
        last_copied(storage, coords.drop_last(), values.drop_last(), coord, otherwise)
    }
}

/// A block with the updates of a batch holds at every place what the batch gives its element.
pub proof fn copied_batches_are_read_back<T: TensorElement>(
    storage: TensorStorage,
    coords: Seq<Seq<u64>>,
    values: Seq<T>,
    block: Seq<T>,
    coord: Seq<u64>,
)
    requires
        storage.wf(),
        storage.is_countable(),
        coords.len() == values.len(),
        all_in_box(coords, storage.spec_shape()),
        block.len() == storage.spec_block_len(),
        in_box(coord, storage.spec_shape()),
    ensures
        ({
            let updates = copy_updates(storage, coords, values, copy_key(storage, coord));
            let place = place_of(coord, storage.spec_block_shape());
            &&& updates_fit(updates, storage.spec_block_len())
            &&& updated(block, updates).len() == block.len()
            &&& updated(block, updates)[place] == last_copied(
                storage,
                coords,
                values,
                coord,
                block[place],
            )
        }),
    decreases coords.len(),
{
    storage.lemma_wf();
    let shape = storage.spec_shape();
    let blocks = storage.spec_block_shape();
    let key = copy_key(storage, coord);
    let updates = copy_updates(storage, coords, values, key);
    block_positions_are_unique(coord, coord, shape, blocks);
    if coords.len() > 0 {
        let init = coords.drop_last();
        let last = coords[coords.len() - 1];
        assert(in_box(coords[coords.len() - 1], shape));
        assert forall|i: int| 0 <= i < init.len() implies in_box(#[trigger] init[i], shape) by {
            assert(in_box(coords[i], shape));
        }
        copied_batches_are_read_back(storage, init, values.drop_last(), block, coord);
        let before = copy_updates(storage, init, values.drop_last(), key);
        block_positions_are_unique(last, coord, shape, blocks);
        if is_copied(storage, values.last()) && copy_key(storage, last) == key {
            assert(updates.drop_last() =~= before);
            if last != coord {
                let a = copy_key(storage, last);
                if storage.spec_layout() is Dense {
                    assert(a[0] == key[0]);
                } else {
                    assert(a[1] == key[1]);
                }
                assert(place_of(last, blocks) != place_of(coord, blocks));
            }
            assert forall|i: int| 0 <= i < updates.len() implies (#[trigger] updates[i]).1
                < storage.spec_block_len() by {
                if i < before.len() {
                    assert(before[i].1 < storage.spec_block_len());
                }
            }
        }
    }
}

/// The updates stand in the order of the batch.
pub open spec fn in_batch_order<T>(updates: Seq<Update<T>>) -> bool {
    forall|i: int, j: int|
        0 <= i < j < updates.len() ==> (#[trigger] updates[i]).0 <= (#[trigger] updates[j]).0
}

/// Put updates in the order of the batch. Each is kept, and none is added.
pub fn order_updates<T: Copy>(updates: Vec<Update<T>>) -> (ordered: Vec<Update<T>>)
    ensures
        in_batch_order(ordered@),
        ordered@.to_multiset() == updates@.to_multiset(),
        ordered@.len() == updates@.len(),
{
    let mut ordered: Vec<Update<T>> = Vec::new();
    let mut i: usize = 0;
    proof {
        assert(updates@.take(0) =~= Seq::<Update<T>>::empty());
        assert(ordered@ =~= Seq::<Update<T>>::empty());
    }
    while i < updates.len()
        invariant
            i <= updates.len(),
            in_batch_order(ordered@),
            ordered@.len() == i,
            ordered@.to_multiset() == updates@.take(i as int).to_multiset(),
        decreases updates.len() - i,
    {
        let update = updates[i];
        let mut place: usize = ordered.len();
        while place > 0 && ordered[place - 1].0 > update.0
            invariant
                place <= ordered@.len(),
                in_batch_order(ordered@),
                forall|j: int| place <= j < ordered@.len() ==> update.0 < (#[trigger] ordered@[j]).0,
            decreases place,
        {
            place -= 1;
        }
        let ghost before = ordered@;
        ordered.insert(place, update);
        proof {
            assert(updates@.take(i + 1) =~= updates@.take(i as int).push(update));
            vstd::seq_lib::to_multiset_build(updates@.take(i as int), update);
            vstd::seq_lib::to_multiset_insert(before, place as int, update);
            assert(ordered@ == before.insert(place as int, update));
            assert forall|a: int, b: int| 0 <= a < b < ordered@.len() implies (
            #[trigger] ordered@[a]).0 <= (#[trigger] ordered@[b]).0 by {
                let from_a = if a < place {
                    a
                } else {
                    a - 1
                };
                let from_b = if b < place {
                    b
                } else {
                    b - 1
                };
                if a == place {
                    assert(ordered@[b] == before[from_b]);
                } else if b == place {
                    assert(ordered@[a] == before[a]);
                    if place > 0 && a < place - 1 {
                        assert(before[a].0 <= before[place - 1].0);
                    }
                } else {
                    assert(ordered@[a] == before[from_a]);
                    assert(ordered@[b] == before[from_b]);
                }
            }
        }
        i += 1;
    }
    assert(updates@.take(i as int) =~= updates@);
    ordered
}

/// How many elements a copy expects and how many it got.
#[derive(Clone, Copy, Debug, PartialEq, Eq, Structural)]
pub struct CopyProgress {
    expected: u64,
    received: u64,
}

impl CopyProgress {
    pub closed spec fn spec_expected(&self) -> int {
        self.expected as int
    }

    pub closed spec fn spec_received(&self) -> int {
        self.received as int
    }

    pub open spec fn wf(&self) -> bool {
        self.spec_received() <= self.spec_expected()
    }

    /// A copy of a tensor of this shape.
    pub fn new(shape: &[u64]) -> (result: Result<Self>)
        ensures
            result is Ok <==> product_fits(shape@),
            result matches Ok(progress) ==> progress.wf() && progress.spec_expected() == volume(
                shape@,
            ) && progress.spec_received() == 0,
            result matches Err(error) ==> error is InvalidSchema,
    {
        let expected: u64 = checked_product(shape)?;
        Ok(CopyProgress { expected, received: 0 })
    }

    /// Take one more batch.
    pub fn accept(&mut self, coords: usize, values: usize) -> (result: Result<()>)
        requires
            old(self).wf(),
        ensures
            final(self).wf(),
            final(self).spec_expected() == old(self).spec_expected(),
            result is Ok <==> coords == values && values <= MAX_BATCH_ELEMENTS && old(
                self,
            ).spec_received() + values <= old(self).spec_expected(),
            result is Ok ==> final(self).spec_received() == old(self).spec_received() + values,
            result matches Err(error) ==> error is InvalidLayout && *final(self) == *old(self),
    {
        if coords != values || values > MAX_BATCH_ELEMENTS {
            return Err(
                Error::InvalidLayout(
                    "copy block: expected equal coordinate/value lengths at most ".to_string().concat(
                        MAX_BATCH_ELEMENTS.to_string().as_str(),
                    ).concat(", got ").concat(coords.to_string().as_str()).concat(" and ").concat(
                        values.to_string().as_str(),
                    ),
                ),
            );
        }
        let left: u64 = self.expected - self.received;
        if values as u64 > left {
            return Err(
                Error::InvalidLayout("reader returned more values than its shape".to_string()),
            );
        }
        self.received = self.received + values as u64;
        Ok(())
    }

    /// The copy got every element.
    pub fn finish(&self) -> (result: Result<()>)
        ensures
            self.spec_received() == self.spec_expected() ==> result is Ok,
            self.spec_received() != self.spec_expected() ==> result matches Err(
                Error::InvalidLayout(_),
            ),
    {
        if self.received != self.expected {
            return Err(
                Error::InvalidLayout("reader returned fewer values than its shape".to_string()),
            );
        }
        Ok(())
    }
}

} // verus!
