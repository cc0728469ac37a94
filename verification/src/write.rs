//! What a write does to the blocks and the index of a stored tensor.

use vstd::prelude::*;
use vstd::string::StringExecFns;
use crate::element::TensorElement;
use crate::error::{Error, Result};
use crate::geometry::in_box;
use crate::inline::Range;
use crate::storage_read::{block_of, block_positions_are_unique, place_of};
use crate::tensor::{all_zero, sparse_axis, TensorStorage, zeros};
use crate::validate::{
    full_bounds, full_range, iter_range_coords, list_dims, range_fits, range_volume, RangeCoords,
    same_dims, validate_coord,
};

verus! {

/// What to do for a write to a sparse tensor.
#[derive(Clone, Copy, PartialEq, Eq, Debug, Structural)]
pub enum SparseWriteAction {
    /// Change the block of the row.
    Write(u64),
    /// Clear the element in the block of the row, and remove a row that is left without elements.
    DeleteRow(u64),
    /// Leave everything as it is.
    NoOp,
    /// Add a block and its row, and change it.
    CreateBlockAndWrite(u64),
}

/// What to do, given the block of the row, if there is one, and a number for a new block. A zero
/// can remove a row and never adds one.
pub open spec fn spec_action(existing: Option<u64>, zero: bool, fresh: u64) -> SparseWriteAction {
    match existing {
        Some(block) => if zero {
            SparseWriteAction::DeleteRow(block)
        } else {
            SparseWriteAction::Write(block)
        },
        None => if zero {
            SparseWriteAction::NoOp
        } else {
            SparseWriteAction::CreateBlockAndWrite(fresh)
        },
    }
}

pub fn sparse_action(existing: Option<u64>, zero: bool, fresh: u64) -> (action: SparseWriteAction)
    ensures
        action == spec_action(existing, zero, fresh),
{
    match existing {
        Some(block) => if zero {
            SparseWriteAction::DeleteRow(block)
        } else {
            SparseWriteAction::Write(block)
        },
        None => if zero {
            SparseWriteAction::NoOp
        } else {
            SparseWriteAction::CreateBlockAndWrite(fresh)
        },
    }
}

/// `rand::random`: any number. Nothing is promised of it, not even that it is new.
#[verifier::external_body]
fn random_id() -> (id: u64) {
    rand::random()
}

/// What to do, with a random number for a new block.
pub fn plan_sparse_write(existing: Option<u64>, zero: bool) -> (action: SparseWriteAction)
    ensures
        exists|fresh: u64| action == #[trigger] spec_action(existing, zero, fresh),
{
    let fresh: u64 = random_id();
    let action = sparse_action(existing, zero, fresh);
    assert(action == spec_action(existing, zero, fresh));
    action
}

/// One step of a write.
#[derive(PartialEq, Eq, Debug)]
pub enum StorageStep {
    /// Add a block of zeros, unless the block is there.
    EnsureBlock(u64),
    /// Put a block of zeros in the place of the block.
    CreateBlock(u64),
    /// Write the value to a place of the block.
    UpdateBlock { block: u64, offset: usize },
    /// Name the block in the index.
    InsertRow { key: Vec<u64>, block: u64 },
    /// Remove a row from the index, and the block that it names, if all elements of the block are
    /// zero.
    DropRowIfEmpty { key: Vec<u64>, block: u64 },
}

/// A step by its contents.
pub enum Step {
    EnsureBlock(u64),
    CreateBlock(u64),
    UpdateBlock { block: u64, offset: int },
    InsertRow { key: Seq<u64>, block: u64 },
    DropRowIfEmpty { key: Seq<u64>, block: u64 },
}

impl View for StorageStep {
    type V = Step;

    open spec fn view(&self) -> Step {
        match *self {
            StorageStep::EnsureBlock(block) => Step::EnsureBlock(block),
            StorageStep::CreateBlock(block) => Step::CreateBlock(block),
            StorageStep::UpdateBlock { block, offset } => Step::UpdateBlock {
                block,
                offset: offset as int,
            },
            StorageStep::InsertRow { key, block } => Step::InsertRow { key: key@, block },
            StorageStep::DropRowIfEmpty { key, block } => Step::DropRowIfEmpty { key: key@, block },
        }
    }
}

/// The contents of some steps.
pub open spec fn steps_of(steps: Seq<StorageStep>) -> Seq<Step> {
    Seq::new(steps.len(), |i: int| steps[i]@)
}

/// The key of an element in the index.
pub open spec fn key_of(storage: TensorStorage, coord: Seq<u64>) -> Seq<u64> {
    seq![
        coord[sparse_axis(storage.spec_layout()) as int],
        block_of(coord, storage.spec_shape(), storage.spec_block_shape()) as u64,
    ]
}

/// The steps of a write to a dense tensor.
pub open spec fn dense_steps(storage: TensorStorage, coord: Seq<u64>) -> Seq<Step> {
    let block = block_of(coord, storage.spec_shape(), storage.spec_block_shape()) as u64;
    seq![
        Step::EnsureBlock(block),
        Step::UpdateBlock { block, offset: place_of(coord, storage.spec_block_shape()) },
    ]
}

/// The steps of a write to a sparse tensor.
pub open spec fn sparse_steps(
    storage: TensorStorage,
    coord: Seq<u64>,
    action: SparseWriteAction,
) -> Seq<Step> {
    let offset = place_of(coord, storage.spec_block_shape());
    let key = key_of(storage, coord);
    match action {
        SparseWriteAction::Write(block) => seq![Step::UpdateBlock { block, offset }],
        SparseWriteAction::DeleteRow(block) => seq![
            Step::UpdateBlock { block, offset },
            Step::DropRowIfEmpty { key, block },
        ],
        SparseWriteAction::NoOp => Seq::empty(),
        SparseWriteAction::CreateBlockAndWrite(block) => seq![
            Step::CreateBlock(block),
            Step::InsertRow { key, block },
            Step::UpdateBlock { block, offset },
        ],
    }
}

impl TensorStorage {
    /// The steps of a write to an element of a dense tensor.
    pub fn plan_dense_write(&self, coord: &[u64]) -> (result: Result<Vec<StorageStep>>)
        requires
            self.wf(),
            self.is_countable(),
        ensures
            result is Ok <==> in_box(coord@, self.spec_shape()),
            result matches Ok(steps) ==> steps_of(steps@) == dense_steps(*self, coord@),
            result matches Err(error) ==> error is InvalidCoord,
    {
        validate_coord(self.shape(), coord)?;
        let position = self.block_position_from_base_coord(coord);
        let steps = vec![
            StorageStep::EnsureBlock(position.block_id),
            StorageStep::UpdateBlock {
                block: position.block_id,
                offset: position.offset_in_block,
            },
        ];
        assert(steps_of(steps@) =~= dense_steps(*self, coord@));
        Ok(steps)
    }

    /// The steps of a write to an element of a sparse tensor.
    pub fn plan_sparse_steps(&self, coord: &[u64], action: SparseWriteAction) -> (result: Result<
        Vec<StorageStep>,
    >)
        requires
            self.wf(),
            self.is_countable(),
        ensures
            result is Ok <==> in_box(coord@, self.spec_shape()),
            result matches Ok(steps) ==> steps_of(steps@) == sparse_steps(*self, coord@, action),
            result matches Err(error) ==> error is InvalidCoord,
    {
        validate_coord(self.shape(), coord)?;
        let position = self.block_position_from_base_coord(coord);
        let offset: usize = position.offset_in_block;
        let key = self.sparse_key(coord, position.block_id);
        let steps = match action {
            SparseWriteAction::Write(block) => vec![StorageStep::UpdateBlock { block, offset }],
            SparseWriteAction::DeleteRow(block) => vec![
                StorageStep::UpdateBlock { block, offset },
                StorageStep::DropRowIfEmpty { key, block },
            ],
            SparseWriteAction::NoOp => Vec::new(),
            SparseWriteAction::CreateBlockAndWrite(block) => vec![
                StorageStep::CreateBlock(block),
                StorageStep::InsertRow { key, block },
                StorageStep::UpdateBlock { block, offset },
            ],
        };
        assert(steps_of(steps@) =~= sparse_steps(*self, coord@, action));
        Ok(steps)
    }
}

/// What storage holds: the rows of the index, and the blocks.
pub ghost struct Store<T> {
    pub index: Map<Seq<u64>, u64>,
    pub blocks: Map<u64, Seq<T>>,
}

/// What a step of a write of a value makes of storage.
pub open spec fn step_applied<T: TensorElement>(
    store: Store<T>,
    step: Step,
    value: T,
    block_len: int,
) -> Store<T> {
    match step {
        Step::EnsureBlock(block) => if store.blocks.dom().contains(block) {
            store
        } else {
            Store { blocks: store.blocks.insert(block, zeros(block_len)), ..store }
        },
        Step::CreateBlock(block) => Store {
            blocks: store.blocks.insert(block, zeros(block_len)),
            ..store
        },
        Step::UpdateBlock { block, offset } => Store {
            blocks: store.blocks.insert(block, store.blocks[block].update(offset, value)),
            ..store
        },
        Step::InsertRow { key, block } => Store { index: store.index.insert(key, block), ..store },
        Step::DropRowIfEmpty { key, block } => if all_zero(store.blocks[block]) {
            Store { index: store.index.remove(key), blocks: store.blocks.remove(block) }
        } else {
            store
        },
    }
}

/// What the steps of a write make of storage, one after the other.
pub open spec fn steps_applied<T: TensorElement>(
    store: Store<T>,
    steps: Seq<Step>,
    value: T,
    block_len: int,
) -> Store<T>
    decreases steps.len(),
{
    if steps.len() == 0 {
        store
    } else {
        step_applied(
            steps_applied(store, steps.drop_last(), value, block_len),
            steps.last(),
            value,
            block_len,
        )
    }
}

/// The block that holds an element, if there is one.
pub open spec fn block_holding<T>(
    storage: TensorStorage,
    store: Store<T>,
    coord: Seq<u64>,
) -> Option<u64> {
    if storage.spec_layout() is Dense {
        Some(block_of(coord, storage.spec_shape(), storage.spec_block_shape()) as u64)
    } else if store.index.dom().contains(key_of(storage, coord)) {
        Some(store.index[key_of(storage, coord)])
    } else {
        None
    }
}

/// The element that storage holds at a coordinate: zero where no block holds one.
pub open spec fn element<T: TensorElement>(
    storage: TensorStorage,
    store: Store<T>,
    coord: Seq<u64>,
) -> T {
    match block_holding(storage, store, coord) {
        Some(block) => if store.blocks.dom().contains(block) {
            store.blocks[block][place_of(coord, storage.spec_block_shape())]
        } else {
            T::spec_zero()
        },
        None => T::spec_zero(),
    }
}

/// Every block has the length of a block, and no block is named by two rows of the index.
pub open spec fn store_fits<T>(storage: TensorStorage, store: Store<T>) -> bool {
    &&& forall|block: u64| #[trigger]
        store.blocks.dom().contains(block) ==> store.blocks[block].len()
            == storage.spec_block_len()
    &&& forall|key: Seq<u64>| #[trigger]
        store.index.dom().contains(key) ==> store.blocks.dom().contains(store.index[key])
    &&& forall|a: Seq<u64>, b: Seq<u64>|
        #![trigger store.index[a], store.index[b]]
        store.index.dom().contains(a) && store.index.dom().contains(b) && store.index[a]
            == store.index[b] ==> a == b
}

proof fn lemma_two_steps<T: TensorElement>(
    store: Store<T>,
    first: Step,
    second: Step,
    value: T,
    block_len: int,
)
    ensures
        steps_applied(store, seq![first, second], value, block_len) == step_applied(
            step_applied(store, first, value, block_len),
            second,
            value,
            block_len,
        ),
{
    let steps = seq![first, second];
    assert(steps.drop_last() =~= seq![first]);
    assert(seq![first].drop_last() =~= Seq::<Step>::empty());
    assert(steps_applied(store, Seq::<Step>::empty(), value, block_len) == store);
    assert(steps_applied(store, seq![first], value, block_len) == step_applied(
        store,
        first,
        value,
        block_len,
    ));
}

/// A write to a dense tensor is read back, and no other element changes.
pub proof fn dense_writes_are_read_back<T: TensorElement>(
    storage: TensorStorage,
    store: Store<T>,
    coord: Seq<u64>,
    value: T,
    other: Seq<u64>,
)
    requires
        storage.wf(),
        storage.is_countable(),
        storage.spec_layout() is Dense,
        store_fits(storage, store),
        in_box(coord, storage.spec_shape()),
        in_box(other, storage.spec_shape()),
    ensures
        ({
            let after = steps_applied(
                store,
                dense_steps(storage, coord),
                value,
                storage.spec_block_len(),
            );
            element(storage, after, other) == if other == coord {
                value
            } else {
                element(storage, store, other)
            }
        }),
        store_fits(
            storage,
            steps_applied(store, dense_steps(storage, coord), value, storage.spec_block_len()),
        ),
{
    storage.lemma_wf();
    let shape = storage.spec_shape();
    let blocks = storage.spec_block_shape();
    let len = storage.spec_block_len();
    block_positions_are_unique(coord, other, shape, blocks);
    block_positions_are_unique(other, coord, shape, blocks);
    let block = block_of(coord, shape, blocks) as u64;
    let offset = place_of(coord, blocks);
    lemma_two_steps(
        store,
        Step::EnsureBlock(block),
        Step::UpdateBlock { block, offset },
        value,
        len,
    );
    let middle = step_applied(store, Step::EnsureBlock(block), value, len);
    assert(middle.blocks[block].len() == len);
}

/// Two values are one, or both are zero.
pub open spec fn same_value<T: TensorElement>(left: T, right: T) -> bool {
    left == right || (left.spec_is_zero() && right.spec_is_zero())
}

/// The type has a single zero.
pub open spec fn one_zero<T: TensorElement>() -> bool {
    forall|value: T| #[trigger] value.spec_is_zero() ==> value == T::spec_zero()
}

/// Bytes have a single zero.
pub proof fn bytes_have_one_zero()
    ensures
        one_zero::<u8>(),
{
}

/// What a write makes of a sparse tensor, with a number for a new block.
pub open spec fn sparse_written<T: TensorElement>(
    storage: TensorStorage,
    store: Store<T>,
    coord: Seq<u64>,
    value: T,
    fresh: u64,
) -> Store<T> {
    let action = spec_action(
        block_holding(storage, store, coord),
        value.spec_is_zero(),
        fresh,
    );
    steps_applied(
        store,
        sparse_steps(storage, coord, action),
        value,
        storage.spec_block_len(),
    )
}

/// What a write of any value makes of a sparse tensor, in one piece.
pub proof fn lemma_sparse_written<T: TensorElement>(
    storage: TensorStorage,
    store: Store<T>,
    coord: Seq<u64>,
    value: T,
    fresh: u64,
)
    requires
        storage.wf(),
        storage.spec_layout() is Sparse,
    ensures
        ({
            let len = storage.spec_block_len();
            let offset = place_of(coord, storage.spec_block_shape());
            let key = key_of(storage, coord);
            let after = sparse_written(storage, store, coord, value, fresh);
            if store.index.dom().contains(key) {
                let block = store.index[key];
                let changed = store.blocks[block].update(offset, value);
                if value.spec_is_zero() && all_zero(changed) {
                    after == Store {
                        index: store.index.remove(key),
                        blocks: store.blocks.insert(block, changed).remove(block),
                    }
                } else {
                    after == Store { blocks: store.blocks.insert(block, changed), ..store }
                }
            } else if value.spec_is_zero() {
                after == store
            } else {
                after == Store {
                    index: store.index.insert(key, fresh),
                    blocks: store.blocks.insert(fresh, zeros(len)).insert(
                        fresh,
                        zeros::<T>(len).update(offset, value),
                    ),
                }
            }
        }),
{
    let len = storage.spec_block_len();
    let offset = place_of(coord, storage.spec_block_shape());
    let key = key_of(storage, coord);
    match block_holding(storage, store, coord) {
        Some(block) => {
            let first = Step::UpdateBlock { block, offset };
            if value.spec_is_zero() {
                lemma_two_steps(store, first, Step::DropRowIfEmpty { key, block }, value, len);
            } else {
                assert(seq![first].drop_last() =~= Seq::<Step>::empty());
                assert(steps_applied(store, seq![first].drop_last(), value, len) == store);
            }
        },
        None => {
            if value.spec_is_zero() {
                assert(steps_applied(store, Seq::<Step>::empty(), value, len) == store);
            } else {
                let first = Step::CreateBlock(fresh);
                let second = Step::InsertRow { key, block: fresh };
                let third = Step::UpdateBlock { block: fresh, offset };
                let steps = seq![first, second, third];
                assert(steps.drop_last() =~= seq![first, second]);
                lemma_two_steps(store, first, second, value, len);
            }
        },
    }
}

/// A write of any value to a sparse tensor is read back, and no other element changes, whatever
/// number a new block gets that no block has. A zero is read back as a zero: where the type has
/// several, the one that is stored for an element without a row may be another one. After a zero
/// was written, no row of zeros is left for the element.
pub proof fn sparse_writes_are_read_back<T: TensorElement>(
    storage: TensorStorage,
    store: Store<T>,
    coord: Seq<u64>,
    value: T,
    fresh: u64,
    other: Seq<u64>,
)
    requires
        storage.wf(),
        storage.is_countable(),
        storage.spec_layout() is Sparse,
        store_fits(storage, store),
        in_box(coord, storage.spec_shape()),
        in_box(other, storage.spec_shape()),
        !store.blocks.dom().contains(fresh),
    ensures
        ({
            let after = sparse_written(storage, store, coord, value, fresh);
            let key = key_of(storage, coord);
            let expected = if other == coord {
                value
            } else {
                element(storage, store, other)
            };
            &&& same_value(element(storage, after, other), expected)
            &&& !value.spec_is_zero() || one_zero::<T>() ==> element(storage, after, other)
                == expected
            &&& store_fits(storage, after)
            &&& after.index.dom().contains(key) ==> !value.spec_is_zero() || !all_zero(
                after.blocks[after.index[key]],
            )
        }),
{
    storage.lemma_wf();
    T::lemma_zero();
    lemma_sparse_written(storage, store, coord, value, fresh);
    let shape = storage.spec_shape();
    let blocks = storage.spec_block_shape();
    let len = storage.spec_block_len();
    block_positions_are_unique(coord, other, shape, blocks);
    block_positions_are_unique(other, coord, shape, blocks);
    let offset = place_of(coord, blocks);
    let place = place_of(other, blocks);
    let key = key_of(storage, coord);
    let other_key = key_of(storage, other);
    let after = sparse_written(storage, store, coord, value, fresh);
    assert(key == other_key ==> key[1] == other_key[1]);
    if store.index.dom().contains(other_key) {
        assert(store.blocks.dom().contains(store.index[other_key]));
    }
    if store.index.dom().contains(key) {
        let block = store.index[key];
        let changed = store.blocks[block].update(offset, value);
        assert(store.blocks.dom().contains(block));
        if store.index.dom().contains(other_key) {
            assert(store.index[other_key] == block ==> other_key == key);
        }
        if value.spec_is_zero() && all_zero(changed) {
            assert(changed[place].spec_is_zero());
        }
    }
    assert forall|a: Seq<u64>| #[trigger]
        after.index.dom().contains(a) implies after.blocks.dom().contains(after.index[a]) by {
        if store.index.dom().contains(a) {
            assert(store.blocks.dom().contains(store.index[a]));
            if store.index.dom().contains(key) {
                assert(store.index[a] == store.index[key] ==> a == key);
            }
        }
    }
    assert forall|a: Seq<u64>, b: Seq<u64>|
        #![trigger after.index[a], after.index[b]]
        after.index.dom().contains(a) && after.index.dom().contains(b) && after.index[a]
            == after.index[b] implies a == b by {
        if store.index.dom().contains(a) {
            assert(store.blocks.dom().contains(store.index[a]));
        }
        if store.index.dom().contains(b) {
            assert(store.blocks.dom().contains(store.index[b]));
        }
        if store.index.dom().contains(a) && store.index.dom().contains(b) {
            assert(store.index[a] == store.index[b] ==> a == b);
        }
    }
}

/// Some element of a row stands at a place of the row's block.
pub open spec fn is_owned(storage: TensorStorage, key: Seq<u64>, place: int) -> bool {
    exists|coord: Seq<u64>| #[trigger]
        in_box(coord, storage.spec_shape()) && key_of(storage, coord) == key && place_of(
            coord,
            storage.spec_block_shape(),
        ) == place
}

/// The block of a row is zero where no element of the row stands.
pub open spec fn rows_are_clean<T: TensorElement>(storage: TensorStorage, store: Store<T>) -> bool {
    forall|key: Seq<u64>, place: int|
        #![trigger store.index[key], is_owned(storage, key, place)]
        store.index.dom().contains(key) && 0 <= place < storage.spec_block_len() && !is_owned(
            storage,
            key,
            place,
        ) ==> store.blocks[store.index[key]][place].spec_is_zero()
}

/// All elements of a row are zero.
pub open spec fn row_is_zero<T: TensorElement>(
    storage: TensorStorage,
    store: Store<T>,
    key: Seq<u64>,
) -> bool {
    forall|coord: Seq<u64>| #[trigger]
        in_box(coord, storage.spec_shape()) && key_of(storage, coord) == key ==> element(
            storage,
            store,
            coord,
        ).spec_is_zero()
}

/// After a write to a sparse tensor, the row of the element is gone if all its elements are zero.
/// Writes keep the rest of the blocks clean, on which this rests.
pub proof fn rows_of_zeros_are_removed<T: TensorElement>(
    storage: TensorStorage,
    store: Store<T>,
    coord: Seq<u64>,
    value: T,
    fresh: u64,
)
    requires
        storage.wf(),
        storage.is_countable(),
        storage.spec_layout() is Sparse,
        store_fits(storage, store),
        rows_are_clean(storage, store),
        in_box(coord, storage.spec_shape()),
        !store.blocks.dom().contains(fresh),
    ensures
        ({
            let after = sparse_written(storage, store, coord, value, fresh);
            let key = key_of(storage, coord);
            &&& rows_are_clean(storage, after)
            &&& row_is_zero(storage, after, key) ==> !after.index.dom().contains(key)
        }),
{
    storage.lemma_wf();
    T::lemma_zero();
    lemma_sparse_written(storage, store, coord, value, fresh);
    sparse_writes_are_read_back(storage, store, coord, value, fresh, coord);
    let len = storage.spec_block_len();
    let blocks = storage.spec_block_shape();
    let key = key_of(storage, coord);
    let offset = place_of(coord, blocks);
    let after = sparse_written(storage, store, coord, value, fresh);
    block_positions_are_unique(coord, coord, storage.spec_shape(), blocks);
    assert(is_owned(storage, key, offset));
    assert forall|a: Seq<u64>, place: int|
        #![trigger after.index[a], is_owned(storage, a, place)]
        after.index.dom().contains(a) && 0 <= place < len && !is_owned(
            storage,
            a,
            place,
        ) implies after.blocks[after.index[a]][place].spec_is_zero() by {
        if store.index.dom().contains(a) {
            assert(store.blocks.dom().contains(store.index[a]));
            assert(store.blocks[store.index[a]][place].spec_is_zero());
            if store.index.dom().contains(key) {
                assert(store.index[a] == store.index[key] ==> a == key);
            }
        }
    }
    if after.index.dom().contains(key) && row_is_zero(storage, after, key) {
        assert(element(storage, after, coord).spec_is_zero());
        let block = after.blocks[after.index[key]];
        assert(store_fits(storage, after));
        assert(after.blocks.dom().contains(after.index[key]));
        assert(after.blocks.dom().contains(after.index[key]) ==> block.len() == len);
        assert forall|place: int| 0 <= place < block.len() implies (
        #[trigger] block[place]).spec_is_zero() by {
            if is_owned(storage, key, place) {
                let c = choose|c: Seq<u64>| #[trigger]
                    in_box(c, storage.spec_shape()) && key_of(storage, c) == key && place_of(
                        c,
                        blocks,
                    ) == place;
                assert(element(storage, after, c).spec_is_zero());
            } else {
                assert(after.blocks[after.index[key]][place].spec_is_zero());
            }
        }
        assert(all_zero(block));
    }
}

/// Check that there is a value for each element of a range, and walk over the elements. The count
/// is checked without visiting them.
pub fn plan_write_values(shape: &[u64], range: &Range, values: usize) -> (result: Result<
    RangeCoords,
>)
    ensures
        result is Ok <==> range_fits(range@, shape@) && range_volume(range@) == values,
        result matches Ok(walk) ==> walk.wf() && walk.spec_range() == range@ && walk.position()
            == 0,
        (result matches Err(Error::DataMismatch(_))) <==> range_fits(range@, shape@)
            && range_volume(range@) <= u64::MAX && range_volume(range@) != values,
        result matches Err(error) ==> error is DataMismatch || error is InvalidLayout,
{
    let walk = iter_range_coords(shape, range)?;
    if walk.remaining() != values as u64 {
        return Err(
            Error::DataMismatch(
                "expected ".to_string().concat(walk.remaining().to_string().as_str()).concat(
                    " values for range but got ",
                ).concat(values.to_string().as_str()),
            ),
        );
    }
    Ok(walk)
}

/// Walk over all elements of a tensor, to write each.
pub fn plan_fill(shape: &[u64]) -> (result: Result<RangeCoords>)
    ensures
        result is Ok <==> range_volume(full_bounds(shape@)) <= u64::MAX,
        result matches Ok(walk) ==> walk.wf() && walk.spec_range() == full_bounds(shape@)
            && walk.position() == 0,
        result matches Err(error) ==> error is InvalidLayout,
{
    proof {
        lemma_full_range_fits(shape@);
    }
    iter_range_coords(shape, &full_range(shape))
}

/// Walk over all elements of a tensor, to write those of another. Both have one shape.
pub fn plan_write_tensor(shape: &[u64], other: &[u64]) -> (result: Result<RangeCoords>)
    ensures
        result is Ok <==> shape@ == other@ && range_volume(full_bounds(shape@)) <= u64::MAX,
        result matches Ok(walk) ==> walk.wf() && walk.spec_range() == full_bounds(shape@)
            && walk.position() == 0,
        result matches Err(error) ==> error is InvalidLayout,
{
    if !same_dims(shape, other) {
        return Err(
            Error::InvalidLayout(
                "cannot write tensor of shape ".to_string().concat(
                    list_dims(other).as_str(),
                ).concat(" into tensor of shape ").concat(list_dims(shape).as_str()),
            ),
        );
    }
    plan_fill(shape)
}

/// All of a tensor is a range of it.
proof fn lemma_full_range_fits(shape: Seq<u64>)
    ensures
        range_fits(full_bounds(shape), shape),
{
}

} // verus!
