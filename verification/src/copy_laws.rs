//! What a whole copy holds: the elements of its source.

use vstd::prelude::*;
use crate::copy::{
    all_in_box, copied_batches_are_read_back, copy_key, copy_updates, group_block, in_batch_order,
    is_copied, last_copied, Update,
};
use crate::element::TensorElement;
use crate::geometry::{
    all_positive, coordinate_at, in_box, lemma_coordinate_position, lemma_position_bound,
    lemma_position_coordinate, lemma_volume_positive, position_of, volume,
};
use crate::matrix::derived_layout;
use crate::read::{
    block_under, BlockReads, blocks_scattered, blocks_there, looked_up, reads_give_the_elements,
    resolved_runs,
};
use crate::schema::{
    greedy_blocks, greedy_blocks_fill_the_capacity, Layout, MAX_BLOCK_CAPACITY,
};
use crate::sorted::{Groups, lemma_lex_irreflexive, lex_below};
use crate::storage_read::{
    block_of, block_positions_are_unique, Group, place_of, reads, runs_fit, StorageShape,
};
use crate::tensor::{sparse_axis, TensorStorage, updated, zeros};
use crate::write::{
    block_holding, element, key_of, one_zero, same_value, SparseWriteAction, spec_action, Store,
    store_fits,
};

verus! {

/// The block that the index has under a key.
pub open spec fn row_block<T>(store: Store<T>, key: Seq<u64>) -> Option<u64> {
    if store.index.dom().contains(key) {
        Some(store.index[key])
    } else {
        None
    }
}

/// What the updates of one key make of storage: a change of the block that is there, or a new block
/// with its row.
pub open spec fn group_copied<T: TensorElement>(
    storage: TensorStorage,
    store: Store<T>,
    key: Seq<u64>,
    updates: Seq<Update<T>>,
    fresh: u64,
) -> Store<T> {
    match spec_action(group_block(storage, key, row_block(store, key)), false, fresh) {
        SparseWriteAction::Write(block) => Store {
            blocks: store.blocks.insert(block, updated(store.blocks[block], updates)),
            ..store
        },
        SparseWriteAction::CreateBlockAndWrite(block) => Store {
            index: store.index.insert(key, block),
            blocks: store.blocks.insert(
                block,
                updated(zeros(storage.spec_block_len()), updates),
            ),
        },
        _ => store,
    }
}

/// A list of the groups, in any order, with each of them once.
pub open spec fn lists_groups(order: Seq<int>, len: int) -> bool {
    &&& order.no_duplicates()
    &&& forall|m: int| 0 <= m < order.len() ==> 0 <= #[trigger] order[m] < len
    &&& forall|e: int| 0 <= e < len ==> #[trigger] order.contains(e)
}

/// What the first groups of a list make of storage, with a number for a new block for each.
pub open spec fn groups_copied<T: TensorElement>(
    storage: TensorStorage,
    store: Store<T>,
    entries: Seq<(Vec<u64>, Vec<Update<T>>)>,
    order: Seq<int>,
    ids: Seq<u64>,
    n: int,
) -> Store<T>
    decreases n,
{
    if n <= 0 {
        store
    } else {
        group_copied(
            storage,
            groups_copied(storage, store, entries, order, ids, n - 1),
            entries[order[n - 1]].0@,
            entries[order[n - 1]].1@,
            ids[n - 1],
        )
    }
}

/// The numbers for new blocks are those of no block.
pub open spec fn ids_are_fresh<T: TensorElement>(
    storage: TensorStorage,
    store: Store<T>,
    entries: Seq<(Vec<u64>, Vec<Update<T>>)>,
    order: Seq<int>,
    ids: Seq<u64>,
) -> bool {
    &&& ids.len() == order.len()
    &&& forall|n: int|
        0 <= n < ids.len() ==> !groups_copied(
            storage,
            store,
            entries,
            order,
            ids,
            n,
        ).blocks.dom().contains(#[trigger] ids[n])
}

/// The blocks of a dense tensor are there.
pub open spec fn blocks_exist<T>(storage: TensorStorage, store: Store<T>) -> bool {
    storage.spec_layout() is Dense ==> forall|coord: Seq<u64>| #[trigger]
        in_box(coord, storage.spec_shape()) ==> store.blocks.dom().contains(
            block_of(coord, storage.spec_shape(), storage.spec_block_shape()) as u64,
        )
}

/// Some of the first groups of the list is that of the key.
spec fn is_listed<T>(
    entries: Seq<(Vec<u64>, Vec<Update<T>>)>,
    order: Seq<int>,
    n: int,
    key: Seq<u64>,
) -> bool {
    exists|m: int| 0 <= m < n && entries[#[trigger] order[m]].0@ == key
}

/// Updates under a key come from an element of the key.
proof fn lemma_update_origin<T: TensorElement>(
    storage: TensorStorage,
    coords: Seq<Seq<u64>>,
    values: Seq<T>,
    key: Seq<u64>,
)
    requires
        coords.len() == values.len(),
    ensures
        copy_updates(storage, coords, values, key).len() > 0 <==> exists|i: int|
            0 <= i < coords.len() && #[trigger] copies_to(storage, coords[i], values[i], key),
    decreases coords.len(),
{
    if coords.len() > 0 {
        let init = coords.drop_last();
        let less = values.drop_last();
        lemma_update_origin(storage, init, less, key);
        let n = coords.len() - 1;
        if copy_updates(storage, init, less, key).len() > 0 {
            let i = choose|i: int|
                0 <= i < init.len() && #[trigger] copies_to(storage, init[i], less[i], key);
            assert(copies_to(storage, coords[i], values[i], key));
        }
        if copies_to(storage, coords.last(), values.last(), key) {
            assert(copies_to(storage, coords[n], values[n], key));
        }
        if exists|i: int|
            0 <= i < coords.len() && #[trigger] copies_to(storage, coords[i], values[i], key) {
            let i = choose|i: int|
                0 <= i < coords.len() && #[trigger] copies_to(storage, coords[i], values[i], key);
            if i < n {
                assert(copies_to(storage, init[i], less[i], key));
            }
        }
    }
}

/// An element is copied, and to a block of the key.
pub open spec fn copies_to<T: TensorElement>(
    storage: TensorStorage,
    coord: Seq<u64>,
    value: T,
    key: Seq<u64>,
) -> bool {
    is_copied(storage, value) && copy_key(storage, coord) == key
}

/// The groups are those of a batch.
pub open spec fn groups_batch<T: TensorElement>(
    storage: TensorStorage,
    groups: Groups<Update<T>>,
    coords: Seq<Seq<u64>>,
    values: Seq<T>,
) -> bool {
    &&& groups.wf()
    &&& forall|key: Seq<u64>| #[trigger]
        groups.listed(key) == copy_updates(storage, coords, values, key)
}

proof fn lemma_groups_copied<T: TensorElement>(
    storage: TensorStorage,
    store: Store<T>,
    groups: Groups<Update<T>>,
    order: Seq<int>,
    ids: Seq<u64>,
    coords: Seq<Seq<u64>>,
    values: Seq<T>,
    n: int,
)
    requires
        storage.wf(),
        storage.is_countable(),
        store_fits(storage, store),
        blocks_exist(storage, store),
        coords.len() == values.len(),
        all_in_box(coords, storage.spec_shape()),
        groups_batch(storage, groups, coords, values),
        lists_groups(order, groups.entries@.len() as int),
        ids_are_fresh(storage, store, groups.entries@, order, ids),
        0 <= n <= order.len(),
    ensures
        ({
            let after = groups_copied(storage, store, groups.entries@, order, ids, n);
            &&& store_fits(storage, after)
            &&& blocks_exist(storage, after)
            &&& storage.spec_layout() is Dense ==> after.index == store.index
            &&& !(storage.spec_layout() is Dense) ==> forall|key: Seq<u64>| #[trigger]
                after.index.dom().contains(key) <==> store.index.dom().contains(key) || is_listed(
                    groups.entries@,
                    order,
                    n,
                    key,
                )
            &&& forall|coord: Seq<u64>| #[trigger]
                in_box(coord, storage.spec_shape()) ==> element(storage, after, coord)
                    == if is_listed(groups.entries@, order, n, copy_key(storage, coord)) {
                    last_copied(storage, coords, values, coord, element(storage, store, coord))
                } else {
                    element(storage, store, coord)
                }
        }),
    decreases n,
{
    let entries = groups.entries@;
    let shape = storage.spec_shape();
    let blocks = storage.spec_block_shape();
    let len = storage.spec_block_len();
    let dense = storage.spec_layout() is Dense;
    storage.lemma_wf();
    if n > 0 {
        let m = n - 1;
        lemma_groups_copied(storage, store, groups, order, ids, coords, values, m);
        let middle = groups_copied(storage, store, entries, order, ids, m);
        let after = groups_copied(storage, store, entries, order, ids, n);
        let key = entries[order[m]].0@;
        let updates = entries[order[m]].1@;
        let fresh = ids[m];
        assert(!middle.blocks.dom().contains(fresh));
        groups.lemma_listed(order[m]);
        assert(groups.listed(key) == updates);
        assert(updates == copy_updates(storage, coords, values, key));
        assert(updates.len() > 0);
        lemma_update_origin(storage, coords, values, key);
        let i = choose|i: int|
            0 <= i < coords.len() && #[trigger] copies_to(storage, coords[i], values[i], key);
        let witness = coords[i];
        assert(in_box(coords[i], shape));
        assert(!is_listed(entries, order, m, key)) by {
            if is_listed(entries, order, m, key) {
                let e = choose|e: int| 0 <= e < m && entries[#[trigger] order[e]].0@ == key;
                assert(order[e] != order[m]);
                if order[e] < order[m] {
                    assert(lex_below(entries[order[e]].0@, entries[order[m]].0@));
                } else {
                    assert(lex_below(entries[order[m]].0@, entries[order[e]].0@));
                }
                lemma_lex_irreflexive(key);
            }
        }
        block_positions_are_unique(witness, witness, shape, blocks);
        let existing = group_block(storage, key, row_block(middle, key));
        let base = match existing {
            Some(block) => middle.blocks[block],
            None => zeros(len),
        };
        let target = match existing {
            Some(block) => block,
            None => fresh,
        };
        if dense {
            assert(key[0] == block_of(witness, shape, blocks) as u64);
            assert(middle.blocks.dom().contains(key[0]));
        } else if middle.index.dom().contains(key) {
            assert(middle.blocks.dom().contains(middle.index[key]));
        }
        assert(base.len() == len);
        copied_batches_are_read_back(storage, coords, values, base, witness);
        assert(after.blocks == middle.blocks.insert(target, updated(base, updates)));
        assert forall|block: u64| #[trigger]
            after.blocks.dom().contains(block) implies after.blocks[block].len() == len by {
            if block != target {
                assert(middle.blocks.dom().contains(block));
            }
        }
        assert forall|a: Seq<u64>| #[trigger]
            after.index.dom().contains(a) implies after.blocks.dom().contains(after.index[a]) by {
            if middle.index.dom().contains(a) {
                assert(middle.blocks.dom().contains(middle.index[a]));
            }
        }
        assert forall|a: Seq<u64>, b: Seq<u64>|
            #![trigger after.index[a], after.index[b]]
            after.index.dom().contains(a) && after.index.dom().contains(b) && after.index[a]
                == after.index[b] implies a == b by {
            if middle.index.dom().contains(a) {
                assert(middle.blocks.dom().contains(middle.index[a]));
            }
            if middle.index.dom().contains(b) {
                assert(middle.blocks.dom().contains(middle.index[b]));
            }
            if middle.index.dom().contains(a) && middle.index.dom().contains(b) {
                assert(middle.index[a] == middle.index[b] ==> a == b);
            }
        }
        assert forall|other: Seq<u64>| !dense implies (#[trigger] after.index.dom().contains(other)
            <==> store.index.dom().contains(other) || is_listed(entries, order, n, other)) by {
            lemma_listed_next(entries, order, m, other);
            assert(middle.index.dom().contains(other) <==> store.index.dom().contains(other)
                || is_listed(entries, order, m, other));
        }
        assert forall|coord: Seq<u64>| #[trigger] in_box(coord, shape) implies element(
            storage,
            after,
            coord,
        ) == if is_listed(entries, order, n, copy_key(storage, coord)) {
            last_copied(storage, coords, values, coord, element(storage, store, coord))
        } else {
            element(storage, store, coord)
        } by {
            let name = copy_key(storage, coord);
            lemma_listed_next(entries, order, m, name);
            block_positions_are_unique(coord, witness, shape, blocks);
            if name == key {
                copied_batches_are_read_back(storage, coords, values, base, coord);
                assert(element(storage, middle, coord) == base[place_of(coord, blocks)]);
            } else {
                assert(element(storage, middle, coord) == element(storage, after, coord)) by {
                    if dense {
                        assert(name[0] != key[0]) by {
                            if name[0] == key[0] {
                                assert(name =~= key);
                            }
                        }
                    } else if middle.index.dom().contains(name) {
                        assert(middle.blocks.dom().contains(middle.index[name]));
                        if middle.index.dom().contains(key) {
                            assert(middle.index[name] == middle.index[key] ==> name == key);
                        }
                    }
                }
            }
        }
    } else {
        assert forall|key: Seq<u64>| !is_listed(entries, order, 0, key) by {}
    }
}

proof fn lemma_listed_next<T>(
    entries: Seq<(Vec<u64>, Vec<Update<T>>)>,
    order: Seq<int>,
    m: int,
    key: Seq<u64>,
)
    requires
        0 <= m < order.len(),
    ensures
        is_listed(entries, order, m + 1, key) <==> is_listed(entries, order, m, key)
            || entries[order[m]].0@ == key,
{
    if is_listed(entries, order, m, key) {
        let e = choose|e: int| 0 <= e < m && entries[#[trigger] order[e]].0@ == key;
        assert(entries[order[e]].0@ == key);
    }
    if entries[order[m]].0@ == key {
        assert(0 <= m < m + 1);
    }
}

/// Copying a batch, its groups in any order, gives each element the last value that the batch has
/// for it and that is kept, and leaves every other element. A sparse tensor has a row afterwards
/// where it had one, and where the batch has a value that is not zero.
pub proof fn copied_batches_are_stored<T: TensorElement>(
    storage: TensorStorage,
    store: Store<T>,
    groups: Groups<Update<T>>,
    order: Seq<int>,
    ids: Seq<u64>,
    coords: Seq<Seq<u64>>,
    values: Seq<T>,
)
    requires
        storage.wf(),
        storage.is_countable(),
        store_fits(storage, store),
        blocks_exist(storage, store),
        coords.len() == values.len(),
        all_in_box(coords, storage.spec_shape()),
        groups_batch(storage, groups, coords, values),
        lists_groups(order, groups.entries@.len() as int),
        ids_are_fresh(storage, store, groups.entries@, order, ids),
    ensures
        ({
            let n = order.len() as int;
            let after = groups_copied(storage, store, groups.entries@, order, ids, n);
            &&& store_fits(storage, after)
            &&& blocks_exist(storage, after)
            &&& storage.spec_layout() is Dense ==> after.index == store.index
            &&& !(storage.spec_layout() is Dense) ==> forall|key: Seq<u64>| #[trigger]
                after.index.dom().contains(key) <==> store.index.dom().contains(key) || exists|
                    i: int,
                |
                    0 <= i < coords.len() && #[trigger] copies_to(
                        storage,
                        coords[i],
                        values[i],
                        key,
                    )
            &&& forall|coord: Seq<u64>| #[trigger]
                in_box(coord, storage.spec_shape()) ==> element(storage, after, coord)
                    == last_copied(storage, coords, values, coord, element(storage, store, coord))
        }),
{
    let n = order.len() as int;
    let entries = groups.entries@;
    let after = groups_copied(storage, store, entries, order, ids, n);
    lemma_groups_copied(storage, store, groups, order, ids, coords, values, n);
    storage.lemma_wf();
    assert forall|key: Seq<u64>| #[trigger] is_listed(entries, order, n, key) <==> groups.listed(
        key,
    ).len() > 0 by {
        if is_listed(entries, order, n, key) {
            let m = choose|m: int| 0 <= m < n && entries[#[trigger] order[m]].0@ == key;
            groups.lemma_listed(order[m]);
        }
        if groups.listed(key).len() > 0 {
            let e = choose|e: int| 0 <= e < entries.len() && (#[trigger] entries[e]).0@ == key;
            assert(order.contains(e));
            let m = choose|m: int| 0 <= m < order.len() && order[m] == e;
            assert(entries[order[m]].0@ == key);
        }
    }
    assert forall|key: Seq<u64>| !(storage.spec_layout() is Dense) implies (
    #[trigger] after.index.dom().contains(key) <==> store.index.dom().contains(key) || exists|
        i: int,
    |
        0 <= i < coords.len() && #[trigger] copies_to(storage, coords[i], values[i], key)) by {
        lemma_update_origin(storage, coords, values, key);
        assert(is_listed(entries, order, n, key) <==> groups.listed(key).len() > 0);
    }
    assert forall|coord: Seq<u64>| #[trigger] in_box(
        coord,
        storage.spec_shape(),
    ) implies element(storage, after, coord) == last_copied(
        storage,
        coords,
        values,
        coord,
        element(storage, store, coord),
    ) by {
        let name = copy_key(storage, coord);
        let held = element(storage, store, coord);
        assert(is_listed(entries, order, n, name) <==> groups.listed(name).len() > 0);
        if !is_listed(entries, order, n, name) {
            let block = Seq::new(storage.spec_block_len() as nat, |i: int| held);
            block_positions_are_unique(
                coord,
                coord,
                storage.spec_shape(),
                storage.spec_block_shape(),
            );
            copied_batches_are_read_back(storage, coords, values, block, coord);
            assert(groups.listed(name) == copy_updates(storage, coords, values, name));
        }
    }
}

/// A batch of a copy, with the order in which its groups are written.
pub ghost struct CopyBatch<T> {
    pub coords: Seq<Seq<u64>>,
    pub values: Seq<T>,
    pub groups: Groups<Update<T>>,
    pub order: Seq<int>,
    pub ids: Seq<u64>,
}

/// The batch turns one state of storage into the next.
pub open spec fn batch_stored<T: TensorElement>(
    storage: TensorStorage,
    batch: CopyBatch<T>,
    before: Store<T>,
    after: Store<T>,
) -> bool {
    &&& batch.coords.len() == batch.values.len()
    &&& all_in_box(batch.coords, storage.spec_shape())
    &&& groups_batch(storage, batch.groups, batch.coords, batch.values)
    &&& lists_groups(batch.order, batch.groups.entries@.len() as int)
    &&& ids_are_fresh(storage, before, batch.groups.entries@, batch.order, batch.ids)
    &&& after == groups_copied(
        storage,
        before,
        batch.groups.entries@,
        batch.order,
        batch.ids,
        batch.order.len() as int,
    )
}

/// The coordinates of some batches, one batch after the other.
pub open spec fn all_coords<T>(batches: Seq<CopyBatch<T>>) -> Seq<Seq<u64>>
    decreases batches.len(),
{
    if batches.len() == 0 {
        Seq::empty()
    } else {
        all_coords(batches.drop_last()) + batches.last().coords
    }
}

/// The values of some batches, one batch after the other.
pub open spec fn all_values<T>(batches: Seq<CopyBatch<T>>) -> Seq<T>
    decreases batches.len(),
{
    if batches.len() == 0 {
        Seq::empty()
    } else {
        all_values(batches.drop_last()) + batches.last().values
    }
}

/// Each batch turns the state before it into the one after it.
pub open spec fn batches_stored<T: TensorElement>(
    storage: TensorStorage,
    batches: Seq<CopyBatch<T>>,
    states: Seq<Store<T>>,
) -> bool {
    &&& states.len() == batches.len() + 1
    &&& forall|b: int|
        0 <= b < batches.len() ==> batch_stored(
            storage,
            #[trigger] batches[b],
            states[b],
            states[b + 1],
        )
}

proof fn lemma_last_copied_concat<T: TensorElement>(
    storage: TensorStorage,
    coords: Seq<Seq<u64>>,
    values: Seq<T>,
    more: Seq<Seq<u64>>,
    more_values: Seq<T>,
    coord: Seq<u64>,
    otherwise: T,
)
    requires
        coords.len() == values.len(),
        more.len() == more_values.len(),
    ensures
        last_copied(storage, coords + more, values + more_values, coord, otherwise) == last_copied(
            storage,
            more,
            more_values,
            coord,
            last_copied(storage, coords, values, coord, otherwise),
        ),
    decreases more.len(),
{
    if more.len() == 0 {
        assert(coords + more =~= coords);
        assert(values + more_values =~= values);
    } else {
        assert((coords + more).drop_last() =~= coords + more.drop_last());
        assert((values + more_values).drop_last() =~= values + more_values.drop_last());
        lemma_last_copied_concat(
            storage,
            coords,
            values,
            more.drop_last(),
            more_values.drop_last(),
            coord,
            otherwise,
        );
    }
}

proof fn lemma_batches_stored<T: TensorElement>(
    storage: TensorStorage,
    batches: Seq<CopyBatch<T>>,
    states: Seq<Store<T>>,
    n: int,
)
    requires
        storage.wf(),
        storage.is_countable(),
        batches_stored(storage, batches, states),
        store_fits(storage, states[0]),
        blocks_exist(storage, states[0]),
        0 <= n <= batches.len(),
    ensures
        ({
            let coords = all_coords(batches.take(n));
            let values = all_values(batches.take(n));
            &&& coords.len() == values.len()
            &&& all_in_box(coords, storage.spec_shape())
            &&& store_fits(storage, states[n])
            &&& blocks_exist(storage, states[n])
            &&& !(storage.spec_layout() is Dense) ==> forall|key: Seq<u64>| #[trigger]
                states[n].index.dom().contains(key) <==> states[0].index.dom().contains(key)
                    || some_copied(storage, coords, values, key)
            &&& forall|coord: Seq<u64>| #[trigger]
                in_box(coord, storage.spec_shape()) ==> element(storage, states[n], coord)
                    == last_copied(
                    storage,
                    coords,
                    values,
                    coord,
                    element(storage, states[0], coord),
                )
        }),
    decreases n,
{
    if n > 0 {
        let m = n - 1;
        lemma_batches_stored(storage, batches, states, m);
        let batch = batches[m];
        assert(batch_stored(storage, batch, states[m], states[m + 1]));
        copied_batches_are_stored(
            storage,
            states[m],
            batch.groups,
            batch.order,
            batch.ids,
            batch.coords,
            batch.values,
        );
        assert(batches.take(n).drop_last() =~= batches.take(m));
        assert(batches.take(n).last() == batch);
        let coords = all_coords(batches.take(m));
        let values = all_values(batches.take(m));
        assert forall|i: int| 0 <= i < (coords + batch.coords).len() implies in_box(
            #[trigger] (coords + batch.coords)[i],
            storage.spec_shape(),
        ) by {
            if i < coords.len() {
                assert(in_box(coords[i], storage.spec_shape()));
            } else {
                assert(in_box(batch.coords[i - coords.len()], storage.spec_shape()));
            }
        }
        assert forall|coord: Seq<u64>| #[trigger]
            in_box(coord, storage.spec_shape()) implies element(storage, states[n], coord)
            == last_copied(
            storage,
            coords + batch.coords,
            values + batch.values,
            coord,
            element(storage, states[0], coord),
        ) by {
            lemma_last_copied_concat(
                storage,
                coords,
                values,
                batch.coords,
                batch.values,
                coord,
                element(storage, states[0], coord),
            );
            assert(element(storage, states[m], coord) == last_copied(
                storage,
                coords,
                values,
                coord,
                element(storage, states[0], coord),
            ));
        }
        assert forall|key: Seq<u64>| !(storage.spec_layout() is Dense) implies (
        #[trigger] states[n].index.dom().contains(key) <==> states[0].index.dom().contains(key)
            || some_copied(storage, coords + batch.coords, values + batch.values, key)) by {
            lemma_some_copied(storage, coords, values, batch.coords, batch.values, key);
            assert(states[m].index.dom().contains(key) <==> states[0].index.dom().contains(key)
                || some_copied(storage, coords, values, key));
        }
    }
}

/// Some element of the list is copied to a block of the key.
pub open spec fn some_copied<T: TensorElement>(
    storage: TensorStorage,
    coords: Seq<Seq<u64>>,
    values: Seq<T>,
    key: Seq<u64>,
) -> bool {
    exists|i: int| 0 <= i < coords.len() && #[trigger] copies_to(storage, coords[i], values[i], key)
}

proof fn lemma_some_copied<T: TensorElement>(
    storage: TensorStorage,
    coords: Seq<Seq<u64>>,
    values: Seq<T>,
    more: Seq<Seq<u64>>,
    more_values: Seq<T>,
    key: Seq<u64>,
)
    requires
        coords.len() == values.len(),
        more.len() == more_values.len(),
    ensures
        some_copied(storage, coords + more, values + more_values, key) <==> some_copied(
            storage,
            coords,
            values,
            key,
        ) || some_copied(storage, more, more_values, key),
{
    let n = coords.len() as int;
    let all = coords + more;
    let all_values = values + more_values;
    if some_copied(storage, coords, values, key) {
        let i = choose|i: int|
            0 <= i < coords.len() && #[trigger] copies_to(storage, coords[i], values[i], key);
        assert(copies_to(storage, all[i], all_values[i], key));
    }
    if some_copied(storage, more, more_values, key) {
        let i = choose|i: int|
            0 <= i < more.len() && #[trigger] copies_to(storage, more[i], more_values[i], key);
        assert(copies_to(storage, all[n + i], all_values[n + i], key));
    }
    if some_copied(storage, all, all_values, key) {
        let i = choose|i: int|
            0 <= i < all.len() && #[trigger] copies_to(storage, all[i], all_values[i], key);
        if i < n {
            assert(copies_to(storage, coords[i], values[i], key));
        } else {
            assert(copies_to(storage, more[i - n], more_values[i - n], key));
        }
    }
}

proof fn lemma_copied_once<T: TensorElement>(
    storage: TensorStorage,
    coords: Seq<Seq<u64>>,
    values: Seq<T>,
    i: int,
    otherwise: T,
)
    requires
        coords.len() == values.len(),
        coords.no_duplicates(),
        0 <= i < coords.len(),
    ensures
        last_copied(storage, coords, values, coords[i], otherwise) == if is_copied(
            storage,
            values[i],
        ) {
            values[i]
        } else {
            otherwise
        },
    decreases coords.len(),
{
    let n = coords.len() - 1;
    let init = coords.drop_last();
    let less = values.drop_last();
    assert(coords.last() == coords[n]);
    if i < n {
        assert(coords[i] != coords[n]);
        assert(init.no_duplicates()) by {
            assert forall|a: int, b: int| 0 <= a < init.len() && 0 <= b < init.len() && a
                != b implies init[a] != init[b] by {
                assert(coords[a] != coords[b]);
            }
        }
        lemma_copied_once(storage, init, less, i, otherwise);
    } else if !is_copied(storage, values[n]) {
        lemma_not_copied(storage, init, less, coords[n], otherwise);
    }
}

proof fn lemma_not_copied<T: TensorElement>(
    storage: TensorStorage,
    coords: Seq<Seq<u64>>,
    values: Seq<T>,
    coord: Seq<u64>,
    otherwise: T,
)
    requires
        coords.len() == values.len(),
        forall|i: int| 0 <= i < coords.len() ==> #[trigger] coords[i] != coord,
    ensures
        last_copied(storage, coords, values, coord, otherwise) == otherwise,
    decreases coords.len(),
{
    if coords.len() > 0 {
        let init = coords.drop_last();
        assert forall|i: int| 0 <= i < init.len() implies #[trigger] init[i] != coord by {
            assert(coords[i] != coord);
        }
        lemma_not_copied(storage, init, values.drop_last(), coord, otherwise);
        assert(coords[coords.len() - 1] != coord);
    }
}

/// A whole copy: into storage without elements, by batches that have each coordinate once. Then
/// every element is the value that the source had for it, and a sparse tensor has a row only where
/// some value is not zero. Zeros of a sparse tensor are not kept: where the type has several, the
/// copy has the one of an element that is not stored.
pub proof fn copies_hold_their_source<T: TensorElement>(
    storage: TensorStorage,
    batches: Seq<CopyBatch<T>>,
    states: Seq<Store<T>>,
    i: int,
)
    requires
        storage.wf(),
        storage.is_countable(),
        batches_stored(storage, batches, states),
        store_fits(storage, states[0]),
        blocks_exist(storage, states[0]),
        !(storage.spec_layout() is Dense) ==> states[0].index.dom() == Set::<Seq<u64>>::empty(),
        all_coords(batches).no_duplicates(),
        0 <= i < all_coords(batches).len(),
    ensures
        ({
            let after = states[batches.len() as int];
            let coords = all_coords(batches);
            let values = all_values(batches);
            let held = element(storage, after, coords[i]);
            &&& coords.len() == values.len()
            &&& same_value(held, values[i])
            &&& is_copied(storage, values[i]) || one_zero::<T>() ==> held == values[i]
            &&& store_fits(storage, after)
            &&& !(storage.spec_layout() is Dense) ==> forall|key: Seq<u64>| #[trigger]
                after.index.dom().contains(key) <==> some_copied(storage, coords, values, key)
        }),
{
    let n = batches.len() as int;
    let coords = all_coords(batches);
    let values = all_values(batches);
    T::lemma_zero();
    lemma_batches_stored(storage, batches, states, n);
    assert(batches.take(n) =~= batches);
    assert(in_box(coords[i], storage.spec_shape()));
    lemma_copied_once(storage, coords, values, i, element(storage, states[0], coords[i]));
    if !is_copied(storage, values[i]) {
        assert(!states[0].index.dom().contains(key_of(storage, coords[i])));
        assert(block_holding(storage, states[0], coords[i]) is None);
    }
}

/// The coordinates are those of a tensor of this shape, each once.
pub open spec fn has_each_once(coords: Seq<Seq<u64>>, shape: Seq<u64>) -> bool {
    &&& coords.no_duplicates()
    &&& all_in_box(coords, shape)
    &&& forall|coord: Seq<u64>| #[trigger] in_box(coord, shape) ==> coords.contains(coord)
}

/// A list of the coordinates of a tensor is as long as the tensor has elements.
proof fn lemma_each_once(coords: Seq<Seq<u64>>, shape: Seq<u64>)
    requires
        has_each_once(coords, shape),
        all_positive(shape),
    ensures
        coords.len() == volume(shape),
{
    lemma_volume_positive(shape);
    let walk = Seq::new(volume(shape) as nat, |k: int| coordinate_at(k, shape));
    assert forall|k: int| 0 <= k < walk.len() implies in_box(#[trigger] walk[k], shape)
        && position_of(walk[k], shape) == k by {
        lemma_coordinate_position(k, shape);
    }
    assert(walk.no_duplicates()) by {
        assert forall|i: int, j: int|
            0 <= i < walk.len() && 0 <= j < walk.len() && i != j implies walk[i] != walk[j] by {
            assert(position_of(walk[i], shape) == i);
            assert(position_of(walk[j], shape) == j);
        }
    }
    assert(walk.to_set() =~= coords.to_set()) by {
        assert forall|coord: Seq<u64>| walk.to_set().contains(coord) <==> coords.to_set().contains(
            coord,
        ) by {
            if walk.contains(coord) {
                let k = choose|k: int| 0 <= k < walk.len() && walk[k] == coord;
                assert(in_box(walk[k], shape));
            }
            if coords.contains(coord) {
                let i = choose|i: int| 0 <= i < coords.len() && coords[i] == coord;
                assert(in_box(coords[i], shape));
                lemma_position_bound(coord, shape);
                lemma_position_coordinate(coord, shape);
                assert(walk[position_of(coord, shape)] == coord);
            }
        }
    }
    walk.unique_seq_to_set();
    coords.unique_seq_to_set();
}

proof fn lemma_coords_so_far<T>(batches: Seq<CopyBatch<T>>, n: int)
    requires
        0 <= n <= batches.len(),
    ensures
        all_coords(batches.take(n)).len() <= all_coords(batches).len(),
    decreases batches.len(),
{
    if n < batches.len() {
        assert(batches.drop_last().take(n) =~= batches.take(n));
        lemma_coords_so_far(batches.drop_last(), n);
    } else {
        assert(batches.take(n) =~= batches);
    }
}

/// A copy of a source: what storage was created for it, and the batches that were written to it.
pub ghost struct WholeCopy<T> {
    pub layout: Layout,
    pub value: spec_fn(Seq<u64>) -> T,
    pub max_capacity: int,
    pub storage: TensorStorage,
    pub batches: Seq<CopyBatch<T>>,
    pub states: Seq<Store<T>>,
}

impl<T: TensorElement> WholeCopy<T> {
    /// The storage is new and has the layout that the source asks for, and the batches are those
    /// of a source that yields every coordinate once.
    pub open spec fn wf(&self) -> bool {
        let shape = self.storage.spec_shape();
        &&& self.storage.wf()
        &&& self.storage.is_countable()
        &&& self.storage.spec_layout() == derived_layout(self.layout)
        &&& 0 < self.max_capacity <= MAX_BLOCK_CAPACITY
        &&& self.storage.spec_block_shape() == greedy_blocks(shape, self.max_capacity)
        &&& batches_stored(self.storage, self.batches, self.states)
        &&& store_fits(self.storage, self.states[0])
        &&& blocks_exist(self.storage, self.states[0])
        &&& !(self.storage.spec_layout() is Dense) ==> self.states[0].index.dom() == Set::<
            Seq<u64>,
        >::empty()
        &&& has_each_once(all_coords(self.batches), shape)
        &&& forall|i: int|
            0 <= i < all_coords(self.batches).len() ==> all_values(self.batches)[i] == (self.value)(
                #[trigger] all_coords(self.batches)[i],
            )
    }

    /// Storage after the last batch.
    pub open spec fn after(&self) -> Store<T> {
        self.states[self.batches.len() as int]
    }

    /// The copy has this value where the source has that one: the same, but for a zero that a
    /// sparse tensor does not keep.
    pub open spec fn is_copy(&self, held: T, value: T) -> bool {
        &&& same_value(held, value)
        &&& is_copied(self.storage, value) || one_zero::<T>() ==> held == value
    }
}

/// A copied tensor is its source: it is sparse if the source is, without a hint of an axis, its
/// blocks hold at most as many elements as was asked for, and it has at every coordinate the value
/// of the source. A sparse copy has rows only where some value is not zero. The batches have as
/// many elements as the tensor, and never more on the way.
pub proof fn copied_tensors_are_their_source<T: TensorElement>(copy: WholeCopy<T>)
    requires
        copy.wf(),
    ensures
        ({
            let storage = copy.storage;
            let shape = storage.spec_shape();
            &&& copy.layout is Dense <==> storage.spec_layout() is Dense
            &&& !(copy.layout is Dense) ==> storage.spec_layout() == (Layout::Sparse { axis: None })
            &&& storage.spec_block_len() <= copy.max_capacity
            &&& store_fits(storage, copy.after())
            &&& forall|coord: Seq<u64>| #[trigger]
                in_box(coord, shape) ==> copy.is_copy(
                    element(storage, copy.after(), coord),
                    (copy.value)(coord),
                )
            &&& !(storage.spec_layout() is Dense) ==> forall|key: Seq<u64>| #[trigger]
                copy.after().index.dom().contains(key) <==> exists|coord: Seq<u64>| #[trigger]
                    in_box(coord, shape) && copies_to(storage, coord, (copy.value)(coord), key)
            &&& all_coords(copy.batches).len() == volume(shape)
            &&& forall|n: int|
                0 <= n <= copy.batches.len() ==> all_coords(#[trigger] copy.batches.take(n)).len()
                    <= volume(shape)
        }),
{
    let storage = copy.storage;
    let shape = storage.spec_shape();
    let coords = all_coords(copy.batches);
    let values = all_values(copy.batches);
    storage.lemma_wf();
    lemma_each_once(coords, shape);
    greedy_blocks_fill_the_capacity(shape, copy.max_capacity);
    lemma_volume_positive(shape);
    copies_hold_their_source(storage, copy.batches, copy.states, 0);
    assert forall|coord: Seq<u64>| #[trigger] in_box(coord, shape) implies copy.is_copy(
        element(storage, copy.after(), coord),
        (copy.value)(coord),
    ) by {
        assert(coords.contains(coord));
        let i = choose|i: int| 0 <= i < coords.len() && coords[i] == coord;
        copies_hold_their_source(storage, copy.batches, copy.states, i);
        assert(values[i] == (copy.value)(coords[i]));
    }
    assert forall|key: Seq<u64>| some_copied(storage, coords, values, key) implies exists|
        coord: Seq<u64>,
    | #[trigger]
        in_box(coord, shape) && copies_to(storage, coord, (copy.value)(coord), key) by {
        let i = choose|i: int|
            0 <= i < coords.len() && #[trigger] copies_to(storage, coords[i], values[i], key);
        assert(values[i] == (copy.value)(coords[i]));
        assert(in_box(coords[i], shape));
    }
    assert forall|key: Seq<u64>, coord: Seq<u64>|
        #[trigger] in_box(coord, shape) && #[trigger] copies_to(
            storage,
            coord,
            (copy.value)(coord),
            key,
        ) implies some_copied(storage, coords, values, key) by {
        assert(coords.contains(coord));
        let i = choose|i: int| 0 <= i < coords.len() && coords[i] == coord;
        assert(values[i] == (copy.value)(coords[i]));
        assert(copies_to(storage, coords[i], values[i], key));
    }
    assert forall|n: int| 0 <= n <= copy.batches.len() implies all_coords(
        #[trigger] copy.batches.take(n),
    ).len() <= volume(shape) by {
        lemma_coords_so_far(copy.batches, n);
    }
}

/// Reading a copied tensor gives the values of its source.
pub proof fn copied_tensors_are_read<T: TensorElement>(
    copy: WholeCopy<T>,
    shape: StorageShape<'_>,
    groups: Seq<Group>,
    offsets: Seq<int>,
    block_reads: BlockReads,
    o: int,
)
    requires
        copy.wf(),
        shape.wf(),
        shape.shape@ == copy.storage.spec_shape(),
        shape.block_shape@ == copy.storage.spec_block_shape(),
        shape.sparse_axis == match copy.storage.spec_layout() {
            Layout::Dense => None::<usize>,
            Layout::Sparse { .. } => Some(sparse_axis(copy.storage.spec_layout())),
        },
        reads(groups, shape.addresses_at(offsets)),
        forall|g: int|
            0 <= g < groups.len() ==> runs_fit(
                (#[trigger] groups[g]).runs@,
                copy.storage.spec_block_len(),
                offsets.len() as int,
            ),
        forall|i: int|
            0 <= i < offsets.len() ==> 0 <= #[trigger] offsets[i] < volume(
                copy.storage.spec_shape(),
            ),
        block_reads.wf(),
        forall|block: u64| #[trigger]
            block_reads.reads_from(block) == resolved_runs(
                groups,
                looked_up(
                    groups,
                    |key: Seq<u64>| block_under(copy.storage, copy.after(), key),
                ),
                block,
            ),
        blocks_there(block_reads, copy.after().blocks, copy.storage.spec_block_len()),
        0 <= o < offsets.len(),
    ensures
        copy.is_copy(
            blocks_scattered(
                block_reads.blocks.entries@,
                copy.after().blocks,
                zeros::<T>(offsets.len() as int),
            )[o],
            (copy.value)(coordinate_at(offsets[o], copy.storage.spec_shape())),
        ),
{
    copy.storage.lemma_wf();
    copied_tensors_are_their_source(copy);
    reads_give_the_elements(
        copy.storage,
        copy.after(),
        shape,
        groups,
        offsets,
        block_reads,
        o,
    );
    lemma_coordinate_position(offsets[o], copy.storage.spec_shape());
}

/// The updates of a key stand in the order of the batch, and each at its own place in it.
proof fn lemma_updates_increase<T: TensorElement>(
    storage: TensorStorage,
    coords: Seq<Seq<u64>>,
    values: Seq<T>,
    key: Seq<u64>,
)
    requires
        coords.len() == values.len(),
        coords.len() <= usize::MAX,
    ensures
        ({
            let updates = copy_updates(storage, coords, values, key);
            &&& forall|i: int| 0 <= i < updates.len() ==> (#[trigger] updates[i]).0 < coords.len()
            &&& forall|i: int, j: int|
                0 <= i < j < updates.len() ==> (#[trigger] updates[i]).0 < (
                #[trigger] updates[j]).0
        }),
    decreases coords.len(),
{
    if coords.len() > 0 {
        let before = copy_updates(storage, coords.drop_last(), values.drop_last(), key);
        let updates = copy_updates(storage, coords, values, key);
        lemma_updates_increase(storage, coords.drop_last(), values.drop_last(), key);
        assert forall|i: int| 0 <= i < updates.len() implies (#[trigger] updates[i]).0
            < coords.len() by {
            if i < before.len() {
                assert(before[i].0 < coords.len() - 1);
            }
        }
        assert forall|i: int, j: int| 0 <= i < j < updates.len() implies (#[trigger] updates[i]).0
            < (#[trigger] updates[j]).0 by {
            if j < before.len() {
                assert(before[i].0 < before[j].0);
            } else {
                assert(before[i].0 < coords.len() - 1);
            }
        }
    }
}

proof fn lemma_only_order<T>(updates: Seq<Update<T>>, ordered: Seq<Update<T>>)
    requires
        forall|i: int, j: int|
            0 <= i < j < updates.len() ==> (#[trigger] updates[i]).0 < (#[trigger] updates[j]).0,
        in_batch_order(ordered),
        ordered.to_multiset() == updates.to_multiset(),
    ensures
        ordered == updates,
    decreases updates.len(),
{
    updates.to_multiset_ensures();
    ordered.to_multiset_ensures();
    assert(updates.len() == ordered.len());
    if updates.len() == 0 {
        assert(ordered =~= updates);
    } else {
        let n = updates.len() - 1;
        let last = updates[n];
        let other = ordered[n];
        assert(updates.contains(last));
        assert(updates.to_multiset().count(last) > 0);
        assert(ordered.contains(last));
        let j = choose|j: int| 0 <= j < ordered.len() && ordered[j] == last;
        assert(ordered.contains(other));
        assert(ordered.to_multiset().count(other) > 0);
        assert(updates.contains(other));
        let i = choose|i: int| 0 <= i < updates.len() && updates[i] == other;
        if i < n {
            assert(updates[i].0 < updates[n].0);
            if j < n {
                assert(ordered[j].0 <= ordered[n].0);
            }
            assert(false);
        }
        assert(other == last);
        let init = updates.drop_last();
        let rest = ordered.drop_last();
        assert(updates =~= init.push(last));
        assert(ordered =~= rest.push(last));
        init.to_multiset_ensures();
        rest.to_multiset_ensures();
        assert(init.to_multiset() =~= updates.to_multiset().remove(last));
        assert(rest.to_multiset() =~= ordered.to_multiset().remove(last));
        assert forall|a: int, b: int| 0 <= a < b < init.len() implies (#[trigger] init[a]).0 < (
        #[trigger] init[b]).0 by {
            assert(updates[a].0 < updates[b].0);
        }
        assert forall|a: int, b: int| 0 <= a < b < rest.len() implies (#[trigger] rest[a]).0 <= (
        #[trigger] rest[b]).0 by {
            assert(ordered[a].0 <= ordered[b].0);
        }
        lemma_only_order(init, rest);
    }
}

/// Putting the updates of a key in the order of the batch leaves them as they are.
pub proof fn updates_stand_in_order<T: TensorElement>(
    storage: TensorStorage,
    coords: Seq<Seq<u64>>,
    values: Seq<T>,
    key: Seq<u64>,
    ordered: Seq<Update<T>>,
)
    requires
        coords.len() == values.len(),
        coords.len() <= usize::MAX,
        in_batch_order(ordered),
        ordered.to_multiset() == copy_updates(storage, coords, values, key).to_multiset(),
    ensures
        ordered == copy_updates(storage, coords, values, key),
{
    lemma_updates_increase(storage, coords, values, key);
    lemma_only_order(copy_updates(storage, coords, values, key), ordered);
}

} // verus!
