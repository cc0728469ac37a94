use std::collections::{BTreeMap, HashMap};

use fensor::copy::{order_updates, CopyProgress};
use fensor::error::{Error, Result};
use fensor::expression::MAX_BATCH_ELEMENTS;
use fensor::index_page::IndexPage;
use fensor::inline::{AxisRange, Range, Shape};
use fensor::mapping::{CoordinateMap, StorageSlice};
use fensor::metadata::TensorMetadata;
use fensor::occupied::{OccupiedRegions, RegionStep};
use fensor::read::{scatter_block, BlockReads};
use fensor::regions::{page_ranges, KeyRange};
use fensor::request::{Axis, BatchRequest, Cartesian};
use fensor::schema::Layout;
use fensor::slice::Slice;
use fensor::slice_plan::{plan_slice, SlicePlan};
use fensor::storage_read::Run;
use fensor::tensor::{apply_block_updates, is_empty_block, sparse_axis_for_layout, TensorStorage};
use fensor::write::{
    plan_fill, plan_sparse_write, plan_write_tensor, plan_write_values, sparse_action,
    SparseWriteAction, StorageStep,
};

fn dims(values: &[u64]) -> Shape {
    Shape::from_vec(values.to_vec())
}

// A tensor whose blocks and index are kept in memory.
struct Memory {
    storage: TensorStorage,
    index: BTreeMap<Vec<u64>, u64>,
    blocks: HashMap<u64, Vec<f32>>,
}

fn create(shape: &[u64], capacity: usize, layout: Layout) -> Memory {
    Memory {
        storage: TensorStorage::create(dims(shape), layout, capacity).expect("storage"),
        index: BTreeMap::new(),
        blocks: HashMap::new(),
    }
}

fn create_sparse(shape: &[u64], capacity: usize, axis: Option<usize>) -> Memory {
    create(shape, capacity, Layout::Sparse { axis })
}

impl Memory {
    fn key(&self, coord: &[u64]) -> Vec<u64> {
        let position = self.storage.block_position_from_base_coord(coord);
        self.storage.sparse_key(coord, position.block_id)
    }

    fn block_id_for_coord(&self, coord: &[u64]) -> Option<u64> {
        self.index.get(&self.key(coord)).copied()
    }

    fn write_value(&mut self, coord: &[u64], value: f32) -> Result<()> {
        let len = self.storage.block_len();
        let steps = match self.storage.layout() {
            Layout::Dense => self.storage.plan_dense_write(coord)?,
            Layout::Sparse { .. } => {
                let existing = self.block_id_for_coord(coord);
                let action = plan_sparse_write(existing, value == 0.0);
                self.storage.plan_sparse_steps(coord, action)?
            }
        };
        for step in steps {
            match step {
                StorageStep::EnsureBlock(id) => {
                    self.blocks.entry(id).or_insert_with(|| vec![0.0; len]);
                }
                StorageStep::CreateBlock(id) => {
                    self.blocks.insert(id, vec![0.0; len]);
                }
                StorageStep::UpdateBlock { block, offset } => {
                    let stored = self.blocks.get_mut(&block).expect("block");
                    apply_block_updates(stored, &[(0, offset, value)], len)?;
                }
                StorageStep::InsertRow { key, block } => {
                    self.index.insert(key, block);
                }
                StorageStep::DropRowIfEmpty { key, block } => {
                    if self.blocks[&block].iter().all(|v| *v == 0.0) {
                        self.index.remove(&key);
                        self.blocks.remove(&block);
                    }
                }
            }
        }
        Ok(())
    }

    fn read_groups(
        &self,
        request: &BatchRequest,
        mapping: Option<&CoordinateMap>,
    ) -> Result<Vec<(u64, Vec<Run>)>> {
        let plan = self.storage.storage_shape().plan(request, mapping)?;
        let reads = match self.storage.layout() {
            Layout::Dense => BlockReads::dense(&plan),
            Layout::Sparse { .. } => {
                let found: Vec<Option<u64>> = plan
                    .groups
                    .iter()
                    .map(|group| self.index.get(group.key.as_slice()).copied())
                    .collect();
                BlockReads::resolved(&plan, &found)
            }
        };
        Ok(reads.blocks.entries.into_iter().map(|(key, runs)| (key[0], runs)).collect())
    }

    fn read_batch(
        &self,
        request: &BatchRequest,
        mapping: Option<&CoordinateMap>,
    ) -> Result<Vec<f32>> {
        let mut values = vec![0.0; request.len()];
        for (id, runs) in self.read_groups(request, mapping)? {
            scatter_block(&self.blocks[&id], &runs, self.storage.block_len(), &mut values)?;
        }
        Ok(values)
    }

    fn read_value(&self, coord: &[u64]) -> Result<f32> {
        Ok(self.read_batch(&BatchRequest::point(coord), None)?[0])
    }

    fn page(&self, last: Option<[u64; 2]>, lo: u64, hi: u64) -> Result<Vec<[u64; 2]>> {
        let mut page = IndexPage::new(&self.storage, last, lo, hi);
        while let Some((range, most)) = page.wanted() {
            let inside = |row: &&Vec<u64>| match range {
                KeyRange::Within { coord, after } => row[0] == coord && row[1] > after,
                KeyRange::Between { lower, excluded, upper } => {
                    (row[0] > lower || (row[0] == lower && !excluded)) && row[0] <= upper
                }
            };
            let rows: Vec<Vec<u64>> =
                self.index.keys().filter(inside).take(most).cloned().collect();
            page.supply(&rows)?;
        }
        Ok(page.into_keys())
    }

    fn slice_coords(&self, slice: Slice, mapping: Option<&CoordinateMap>) -> Result<Vec<Vec<u64>>> {
        let shape = match mapping {
            Some(map) => map.shape.as_slice().to_vec(),
            None => self.storage.shape().to_vec(),
        };
        let mut coords = Vec::new();
        match plan_slice(&self.storage, slice, mapping)? {
            SlicePlan::Boxes(mut requests) => {
                while let Some(request) = requests.next() {
                    coords.extend(request.coordinates(&shape)?);
                }
            }
            SlicePlan::Occupied { mut regions, lo, hi } => loop {
                match regions.step()? {
                    RegionStep::Page => {
                        let keys = self.page(regions.last(), lo, hi)?;
                        regions.supply(keys);
                    }
                    RegionStep::Request(request) => {
                        assert!(request.len() <= MAX_BATCH_ELEMENTS);
                        coords.extend(request.coordinates(&shape)?);
                    }
                    RegionStep::Done => break,
                }
            },
        }
        Ok(coords)
    }

    fn copy_batch(&mut self, coords: &[Vec<u64>], values: &[u8]) -> Result<usize> {
        let len = self.storage.block_len();
        let plan = self.storage.plan_copy(coords, values)?;
        let mut groups: BTreeMap<u64, Vec<(usize, usize, u8)>> = BTreeMap::new();
        let mut touched = 0;
        for (key, updates) in plan.entries {
            match self.storage.plan_group(&key, self.index.get(&key).copied()) {
                SparseWriteAction::Write(id) => {
                    self.blocks.entry(id).or_insert_with(|| vec![0.0; len]);
                    groups.entry(id).or_default().extend(updates);
                }
                SparseWriteAction::CreateBlockAndWrite(id) => {
                    self.blocks.insert(id, vec![0.0; len]);
                    self.index.insert(key, id);
                    groups.entry(id).or_default().extend(updates);
                }
                action => panic!("{action:?}"),
            }
        }
        for (id, updates) in groups {
            let updates: Vec<_> = order_updates(updates)
                .into_iter()
                .map(|(order, offset, value)| (order, offset, value as f32))
                .collect();
            apply_block_updates(self.blocks.get_mut(&id).unwrap(), &updates, len)?;
            touched += 1;
        }
        Ok(touched)
    }
}

#[test]
fn validated_layout_selects_its_axis() {
    for (layout, expected) in [
        (Layout::Dense, 0),
        (Layout::Sparse { axis: None }, 0),
        (Layout::Sparse { axis: Some(0) }, 0),
        (Layout::Sparse { axis: Some(1) }, 1),
        (Layout::Sparse { axis: Some(2) }, 2),
    ] {
        assert_eq!(sparse_axis_for_layout(layout), expected);
    }
}

#[test]
fn sparse_zero_to_nonzero_creates_row_and_block() {
    let mut tensor = create_sparse(&[2, 3, 4], 4, Some(1));
    assert!(tensor.block_id_for_coord(&[0, 1, 2]).is_none(), "no row before write");
    tensor.write_value(&[0, 1, 2], 1.0).expect("write");
    let block_id = tensor.block_id_for_coord(&[0, 1, 2]).expect("row must exist");
    assert!(
        tensor.blocks.contains_key(&block_id),
        "block must be materialized after first nonzero write"
    );
    assert_eq!(tensor.read_value(&[0, 1, 2]).expect("read"), 1.0);
}

#[test]
fn sparse_nonzero_to_zero_remove_row_policy() {
    let mut tensor = create_sparse(&[2, 3, 4], 4, Some(1));
    tensor.write_value(&[0, 1, 2], 5.0).expect("write nz");
    assert!(tensor.block_id_for_coord(&[0, 1, 2]).is_some());
    tensor.write_value(&[0, 1, 2], 0.0).expect("write z");
    assert!(
        tensor.block_id_for_coord(&[0, 1, 2]).is_none(),
        "RemoveRow policy must drop the row when value becomes default"
    );
    assert_eq!(tensor.read_value(&[0, 1, 2]).expect("read"), 0.0);
}

#[test]
fn sparse_overwrite_nonzero_preserves_row_id() {
    let mut tensor = create_sparse(&[2, 3, 4], 4, Some(1));
    tensor.write_value(&[0, 1, 2], 1.0).expect("write 1");
    let id_a = tensor.block_id_for_coord(&[0, 1, 2]).expect("must exist");
    tensor.write_value(&[0, 1, 2], 2.0).expect("write 2");
    let id_b = tensor.block_id_for_coord(&[0, 1, 2]).expect("must exist");
    assert_eq!(id_a, id_b, "block_id must be stable across nonzero updates");
    assert_eq!(tensor.read_value(&[0, 1, 2]).expect("read"), 2.0);
}

#[test]
fn sparse_write_zero_to_new_coord_is_noop() {
    let mut tensor = create_sparse(&[2, 3, 4], 4, Some(1));
    tensor.write_value(&[0, 1, 2], 0.0).expect("write zero");
    assert!(
        tensor.block_id_for_coord(&[0, 1, 2]).is_none(),
        "zero write to new coord must not create a row"
    );
    assert!(tensor.blocks.is_empty());
}

#[test]
fn a_zero_changes_its_element_only() {
    let mut tensor = create_sparse(&[2, 4], 8, Some(0));
    tensor.write_value(&[0, 1], 3.0).unwrap();
    tensor.write_value(&[0, 2], 4.0).unwrap();
    tensor.write_value(&[1, 2], 5.0).unwrap();
    tensor.write_value(&[0, 1], 0.0).unwrap();
    assert_eq!(tensor.read_value(&[0, 1]).unwrap(), 0.0);
    assert_eq!(tensor.read_value(&[0, 2]).unwrap(), 4.0);
    assert_eq!(tensor.read_value(&[1, 2]).unwrap(), 5.0);
    assert!(tensor.block_id_for_coord(&[0, 1]).is_some());
    // The last element of a row takes the row and its block with it.
    tensor.write_value(&[0, 2], 0.0).unwrap();
    assert_eq!(tensor.read_value(&[0, 2]).unwrap(), 0.0);
    assert_eq!(tensor.read_value(&[1, 2]).unwrap(), 5.0);
    assert!(tensor.block_id_for_coord(&[0, 2]).is_none());
    assert_eq!(tensor.blocks.len(), 1);
}

#[test]
fn storage_batches_group_blocks_and_preserve_order() {
    for layout in [Layout::Dense, Layout::Sparse { axis: Some(0) }] {
        let mut tensor = create(&[2, 4], 4, layout);
        tensor.write_value(&[0, 0], 2.).unwrap();
        tensor.write_value(&[0, 3], 3.).unwrap();
        tensor.write_value(&[1, 1], 4.).unwrap();

        let coords = vec![vec![1, 1], vec![0, 3], vec![0, 0], vec![0, 3]];
        let request = BatchRequest::explicit(coords.clone()).unwrap();
        let groups: BTreeMap<_, _> =
            tensor.read_groups(&request, None).unwrap().into_iter().collect();
        assert_eq!(groups.len(), 2);
        assert_eq!(
            groups.values().flatten().map(|run| run.len).sum::<usize>(),
            coords.len()
        );
        assert!(groups.values().any(|positions| {
            positions
                .iter()
                .flat_map(|run| {
                    (0..run.len).map(move |i| {
                        (
                            run.output + i,
                            (run.offset as i128 + i as i128 * run.stride as i128) as usize,
                        )
                    })
                })
                .collect::<Vec<_>>()
                == vec![(1, 3), (2, 0), (3, 3)]
        }));
        assert_eq!(tensor.read_batch(&request, None).unwrap(), vec![4., 3., 2., 3.]);
        assert!(tensor.read_batch(&BatchRequest::point(&[2, 0]), None).is_err());
        assert!(BatchRequest::explicit(vec![vec![0, 0]; 4097]).is_err());

        // Validate the entire borrowed block, even for one selected value.
        let id = *groups.keys().next().unwrap();
        tensor.blocks.get_mut(&id).unwrap().pop();
        assert!(matches!(
            tensor.read_batch(&request, None),
            Err(Error::InvalidLayout(_))
        ));
    }
}

#[test]
fn invalid_affine_requests_fail_before_storage_io() {
    let tensor = create_sparse(&[2, 4], 4, None);
    let mut map = CoordinateMap::identity(dims(&[2, 4]), tensor.storage.strides());
    map.base_offset = -1;
    assert!(matches!(
        tensor.read_batch(&BatchRequest::linear(0, 8).unwrap(), Some(&map)),
        Err(Error::InvalidCoord(_))
    ));
}

#[test]
fn storage_batch_uses_sparse_keys_not_grid_block_ids() {
    let mut tensor = create_sparse(&[3, 2], 6, Some(0));
    tensor.write_value(&[0, 0], 2.).unwrap();
    tensor.write_value(&[2, 1], 3.).unwrap();

    let coords = vec![vec![0, 0], vec![1, 0], vec![2, 1], vec![0, 0]];
    assert!(coords
        .iter()
        .all(|coord| tensor.storage.block_position_from_base_coord(coord).block_id == 0));
    let request = BatchRequest::explicit(coords).unwrap();
    let groups = tensor.read_groups(&request, None).unwrap();
    assert_eq!(groups.len(), 2);
    assert_eq!(
        groups.iter().flat_map(|(_, runs)| runs).map(|run| run.len).sum::<usize>(),
        3
    );
    assert_eq!(tensor.read_batch(&request, None).unwrap(), vec![2., 0., 3., 2.]);
    // Two logical keys may name the same physical block. Lookup each key
    // once, merge aliases, and retain duplicate request outputs.
    let id = tensor.index[&vec![0, 0]];
    tensor.blocks.get_mut(&id).unwrap()[5] = 3.;
    tensor.index.insert(vec![2, 0], id);
    assert_eq!(tensor.read_batch(&request, None).unwrap(), vec![2., 0., 3., 2.]);
    assert_eq!(tensor.read_groups(&request, None).unwrap().len(), 1);
}

#[test]
fn slice_index_pages_resume_within_and_between_coordinates() {
    let entries = MAX_BATCH_ELEMENTS + 1;

    for axis in [None, Some(1)] {
        let mut tensor = create_sparse(&[1, entries as u64], 1, axis);
        for col in 0..entries as u64 {
            tensor.write_value(&[0, col], 1.).unwrap();
        }
        let hi = if axis.is_none() { 0 } else { entries as u64 - 1 };
        let first = tensor.page(None, 0, hi).unwrap();
        assert_eq!(first.len(), MAX_BATCH_ELEMENTS);
        let second = tensor.page(first.last().copied(), 0, hi).unwrap();
        assert_eq!(second.len(), 1);
        assert!(first.last().unwrap() < second.first().unwrap());
        assert!(tensor.page(second.last().copied(), 0, hi).unwrap().is_empty());
        let coords = tensor
            .slice_coords(Slice::full(&[1, entries as u64]).unwrap(), None)
            .unwrap();
        assert_eq!(coords.len(), entries);
    }
}

#[test]
fn occupied_slices_visit_stored_rows_only() {
    let shape = [2, 1_000_000_000];
    let mut tensor = create_sparse(&shape, 4096, None);
    tensor.write_value(&[0, 999_999_998], 0.2).unwrap();
    tensor.write_value(&[1, 3], 2.).unwrap();
    let coords = tensor.slice_coords(Slice::full(&shape).unwrap(), None).unwrap();
    assert!(coords.len() <= 2 * 4096);
    assert!(coords.contains(&vec![0, 999_999_998]));
    assert!(coords.contains(&vec![1, 3]));

    let map = CoordinateMap::identity(dims(&shape), tensor.storage.strides())
        .slice(Range::from_vec(vec![
            AxisRange::At(0),
            AxisRange::In(2, 1_000_000_000, 2),
        ]))
        .unwrap();
    let slice = Slice::full(map.shape.as_slice()).unwrap();
    let coords = tensor.slice_coords(slice, Some(&map)).unwrap();
    assert!(coords.contains(&vec![(999_999_998 - 2) / 2]));
    assert!(coords.len() <= 4096);
}

#[test]
fn sparse_regions_filter_corruption_and_validate_grid_keys() {
    let mut tensor = create_sparse(&[2, 10_000], 7, None);
    tensor.write_value(&[0, 0], 1.).unwrap();
    tensor.write_value(&[0, 9_999], 2.).unwrap();
    let map = CoordinateMap::identity(dims(&[2, 10_000]), tensor.storage.strides())
        .slice(Range::from_vec(vec![AxisRange::At(0), AxisRange::In(5000, 10000, 1)]))
        .unwrap();
    let coords = tensor
        .slice_coords(Slice::full(map.shape.as_slice()).unwrap(), Some(&map))
        .unwrap();
    assert!(coords.contains(&vec![4999]));
    assert!(coords.iter().all(|c| c[0] >= 4990));
    // A row whose block lies in the other row of the grid.
    tensor.index.insert(vec![1, 0], 5);
    assert!(matches!(
        tensor.slice_coords(Slice::full(&[2, 10_000]).unwrap(), None),
        Err(Error::InvalidLayout(_))
    ));
    tensor.index.insert(vec![9, 0], 5);
    assert!(matches!(tensor.page(None, 0, 9), Err(Error::InvalidLayout(_))));
}

#[test]
fn regions_are_cut_at_the_edges_of_the_tensor() {
    let tensor = create_sparse(&[3, 10], 4, Some(1));
    assert_eq!(tensor.storage.block_shape(), &[1, 4]);
    assert_eq!(tensor.storage.num_blocks(), 9);
    assert_eq!(tensor.storage.key_bounds([9, 5]).unwrap(), vec![(1, 2), (9, 10)]);
    assert_eq!(tensor.storage.key_bounds([6, 4]).unwrap(), vec![(1, 2), (6, 7)]);
    assert!(matches!(tensor.storage.key_bounds([3, 4]), Err(Error::InvalidLayout(_))));
}

#[test]
fn adjacent_regions_share_a_request() {
    let mut tensor = create_sparse(&[3, 2000], 4096, None);
    tensor.write_value(&[0, 7], 1.).unwrap();
    tensor.write_value(&[1, 9], 2.).unwrap();
    assert_eq!(tensor.index.keys().collect::<Vec<_>>(), [&vec![0, 0], &vec![1, 0]]);
    let slice = Slice::full(&[3, 2000]).unwrap();
    let SlicePlan::Occupied { mut regions, lo, hi } =
        plan_slice(&tensor.storage, slice, None).unwrap()
    else {
        panic!("expected regions")
    };
    let mut lens = Vec::new();
    loop {
        match regions.step().unwrap() {
            RegionStep::Page => {
                let keys = tensor.page(regions.last(), lo, hi).unwrap();
                regions.supply(keys);
            }
            RegionStep::Request(request) => lens.push(request.len()),
            RegionStep::Done => break,
        }
    }
    assert_eq!(lens, [4000]);
}

#[test]
fn pages_are_cut_at_one_batch() {
    let storage =
        TensorStorage::create(dims(&[9000, 1]), Layout::Sparse { axis: None }, 1).unwrap();
    let rows = |from: u64, count: u64| -> Vec<Vec<u64>> {
        (from..from + count).map(|n| vec![n, n]).collect()
    };
    let most = MAX_BATCH_ELEMENTS as u64;
    let mut page = IndexPage::new(&storage, None, 0, 8999);
    assert!(matches!(page.wanted(), Some((_, MAX_BATCH_ELEMENTS))));
    page.supply(&rows(0, most + 5)).unwrap();
    assert!(page.wanted().is_none());
    let keys = page.into_keys();
    assert_eq!(keys.len(), MAX_BATCH_ELEMENTS);
    assert_eq!(keys[MAX_BATCH_ELEMENTS - 1], [most - 1, most - 1]);

    let mut page = IndexPage::new(&storage, Some([3, 3]), 0, 8999);
    page.supply(&[]).unwrap();
    page.supply(&rows(4, 2)).unwrap();
    assert!(page.wanted().is_none());
    assert_eq!(page.into_keys(), [[4, 4], [5, 5]]);

    let mut page = IndexPage::new(&storage, None, 0, 8999);
    assert!(matches!(page.supply(&[vec![9000, 0]]), Err(Error::InvalidLayout(_))));
    let mut page = IndexPage::new(&storage, None, 0, 8999);
    assert!(matches!(page.supply(&[vec![1]]), Err(Error::InvalidLayout(_))));
}

#[test]
fn pages_go_on_behind_the_last_row() {
    let [range] = &page_ranges(None, 2, 5)[..] else { panic!("expected one range") };
    assert!(matches!(range, KeyRange::Between { lower: 2, excluded: false, upper: 5 }));
    let [within, between] = &page_ranges(Some([3, 8]), 2, 5)[..] else {
        panic!("expected two ranges")
    };
    assert!(matches!(within, KeyRange::Within { coord: 3, after: 8 }));
    assert!(matches!(between, KeyRange::Between { lower: 3, excluded: true, upper: 5 }));
    let [last] = &page_ranges(Some([5, 1]), 2, 5)[..] else { panic!("expected one range") };
    assert!(matches!(last, KeyRange::Within { coord: 5, after: 1 }));
}

#[test]
fn requests_of_regions_pack_rows() {
    let storage =
        TensorStorage::create(dims(&[6000, 3]), Layout::Sparse { axis: None }, 3).unwrap();
    let slice = Slice::new(&[6000, 3], vec![Axis::range(0, 6000), Axis::range(1, 2)]).unwrap();
    let mut regions = OccupiedRegions::new(&storage, slice, StorageSlice::identity(&[6000, 3]));
    assert!(matches!(regions.step(), Ok(RegionStep::Page)));
    assert!(regions.last().is_none());
    regions.supply(vec![[4, 4], [7, 7]]);
    let Ok(RegionStep::Request(request)) = regions.step() else {
        panic!("expected a request")
    };
    assert_eq!(
        request.coordinates(&[6000, 3]).unwrap(),
        vec![vec![4, 1], vec![4, 2], vec![7, 1], vec![7, 2]]
    );
    assert!(matches!(regions.step(), Ok(RegionStep::Done)));
    assert_eq!(regions.last(), Some([7, 7]));
}

#[test]
fn copy_batches_group_blocks_and_omit_sparse_zeros() {
    let coords = vec![vec![0, 0], vec![1, 3], vec![0, 1], vec![0, 0], vec![1, 0]];
    let values = [1u8, 2, 0, 9, 4];
    for layout in [Layout::Dense, Layout::Sparse { axis: Some(0) }] {
        let mut tensor = create(&[2, 4], 4, layout);
        assert_eq!(tensor.copy_batch(&coords, &values).unwrap(), 2);
        assert_eq!(tensor.read_value(&[0, 0]).unwrap(), 9.);
        assert_eq!(tensor.read_value(&[0, 1]).unwrap(), 0.);
        assert_eq!(tensor.read_value(&[1, 3]).unwrap(), 2.);
        assert_eq!(tensor.read_value(&[1, 0]).unwrap(), 4.);
    }
    let mut empty = create_sparse(&[2, 4], 4, None);
    assert_eq!(empty.copy_batch(&[vec![0, 0]], &[0]).unwrap(), 0);
    assert!(empty.index.is_empty() && empty.blocks.is_empty());
}

#[test]
fn whole_copies_hold_their_source() {
    let source = |coord: &[u64]| if coord[0] == 1 { 0 } else { ((coord[1] * 5) % 4) as u8 };
    let all: Vec<Vec<u64>> = (0..12).map(|n| vec![n / 4, n % 4]).collect();
    for layout in [Layout::Dense, Layout::Sparse { axis: Some(1) }] {
        let mut tensor = create(&[3, 4], 2, layout);
        let mut progress = CopyProgress::new(&[3, 4]).unwrap();
        for batch in [&all[7..], &all[..2], &all[2..7]] {
            let values: Vec<u8> = batch.iter().map(|coord| source(coord)).collect();
            progress.accept(batch.len(), values.len()).unwrap();
            tensor.copy_batch(batch, &values).unwrap();
        }
        progress.finish().unwrap();
        for coord in &all {
            assert_eq!(tensor.read_value(coord).unwrap(), source(coord) as f32, "{coord:?}");
            if matches!(layout, Layout::Sparse { .. }) {
                assert_eq!(tensor.block_id_for_coord(coord).is_some(), source(coord) != 0);
            }
        }
    }
}

#[test]
fn groups_of_a_copy_go_to_the_block_that_is_there() {
    let dense = create(&[2, 4], 4, Layout::Dense);
    assert_eq!(dense.storage.plan_group(&[1], None), SparseWriteAction::Write(1));
    let sparse = create_sparse(&[2, 4], 4, None);
    assert_eq!(sparse.storage.plan_group(&[1, 1], Some(9)), SparseWriteAction::Write(9));
    assert!(matches!(
        sparse.storage.plan_group(&[1, 1], None),
        SparseWriteAction::CreateBlockAndWrite(_)
    ));
}

#[test]
fn copy_batch_rejects_invalid_input() {
    let tensor = create(&[2, 4], 4, Layout::Dense);
    assert!(matches!(
        tensor.storage.plan_copy(&[vec![0, 0]], &[1u8, 2]),
        Err(Error::InvalidLayout(_))
    ));
    assert!(matches!(
        tensor.storage.plan_copy(&[vec![0, 4]], &[1u8]),
        Err(Error::InvalidCoord(_))
    ));
    let many = vec![vec![0, 0]; MAX_BATCH_ELEMENTS + 1];
    assert!(matches!(
        tensor.storage.plan_copy(&many, &vec![1u8; MAX_BATCH_ELEMENTS + 1]),
        Err(Error::InvalidLayout(_))
    ));
}

#[test]
fn copies_count_what_they_receive() {
    let mut progress = CopyProgress::new(&[2, 3]).unwrap();
    assert!(progress.accept(4, 4).is_ok());
    assert!(matches!(progress.finish(), Err(Error::InvalidLayout(_))));
    assert!(matches!(progress.accept(2, 1), Err(Error::InvalidLayout(_))));
    assert!(matches!(progress.accept(3, 3), Err(Error::InvalidLayout(_))));
    assert!(progress.accept(2, 2).is_ok());
    assert!(progress.finish().is_ok());
    assert!(matches!(CopyProgress::new(&[u64::MAX, 2]), Err(Error::InvalidSchema(_))));
}

#[test]
fn updates_keep_the_order_of_the_batch() {
    let ordered = order_updates(vec![(3, 0, 'c'), (0, 1, 'a'), (2, 0, 'b')]);
    assert_eq!(ordered, vec![(0, 1, 'a'), (2, 0, 'b'), (3, 0, 'c')]);
    let mut block = vec![0, 0, 0];
    assert!(apply_block_updates(&mut block, &[(0, 1, 5), (1, 3, 6)], 3).is_err());
    assert_eq!(block, vec![0, 0, 0]);
    assert!(apply_block_updates(&mut block, &[(0, 1, 5), (1, 1, 7)], 3).is_ok());
    assert_eq!(block, vec![0, 7, 0]);
    assert!(apply_block_updates(&mut block, &[], 4).is_err());
    assert!(is_empty_block(&[0u8, 0]));
    assert!(!is_empty_block(&[0u8, 1]));
}

#[test]
fn sparse_writes_follow_the_index() {
    assert_eq!(sparse_action(Some(4), false, 9), SparseWriteAction::Write(4));
    assert_eq!(sparse_action(Some(4), true, 9), SparseWriteAction::DeleteRow(4));
    assert_eq!(sparse_action(None, true, 9), SparseWriteAction::NoOp);
    assert_eq!(sparse_action(None, false, 9), SparseWriteAction::CreateBlockAndWrite(9));
    assert_eq!(plan_sparse_write(None, true), SparseWriteAction::NoOp);
    assert!(matches!(
        plan_sparse_write(None, false),
        SparseWriteAction::CreateBlockAndWrite(_)
    ));
    // Numbers for new blocks are drawn at random.
    let ids: Vec<_> = (0..4).map(|_| plan_sparse_write(None, false)).collect();
    assert!(ids.iter().any(|id| *id != ids[0]));
}

#[test]
fn bulk_writes_check_their_shapes() {
    let range = Range::from_vec(vec![AxisRange::In(0, 2, 1), AxisRange::At(1)]);
    assert_eq!(plan_write_values(&[2, 3], &range, 2).unwrap().remaining(), 2);
    let error = plan_write_values(&[2, 3], &range, 3).err().unwrap();
    assert!(matches!(error, Error::DataMismatch(_)));
    assert_eq!(error.message(), "expected 2 values for range but got 3");
    let error = plan_write_tensor(&[2, 3], &[3, 2]).err().unwrap();
    assert!(matches!(error, Error::InvalidLayout(_)));
    assert_eq!(
        error.message(),
        "cannot write tensor of shape [3, 2] into tensor of shape [2, 3]"
    );
    assert_eq!(plan_write_tensor(&[2, 3], &[2, 3]).unwrap().remaining(), 6);
    assert_eq!(plan_fill(&[2, 3]).unwrap().remaining(), 6);
}

#[test]
fn storage_refuses_bad_capacities_and_layouts() {
    for capacity in [0, 4097] {
        let error = TensorStorage::create(dims(&[2]), Layout::Dense, capacity).err().unwrap();
        assert!(matches!(error, Error::InvalidSchema(_)));
        assert!(error.message().contains("at most 4096"));
    }
    assert!(TensorStorage::create(dims(&[2]), Layout::Sparse { axis: Some(1) }, 4).is_err());
    assert!(TensorStorage::create(dims(&[0]), Layout::Dense, 4).is_err());
    // A sparse tensor may have more elements than a machine counts.
    assert!(TensorStorage::create(dims(&[1 << 40, 1 << 40]), Layout::Sparse { axis: None }, 4096)
        .is_ok());
}

#[test]
fn metadata_is_kept_and_taken_back() {
    let metadata =
        TensorMetadata::<u8>::new(dims(&[10, 6]), Layout::Sparse { axis: Some(1) }, dims(&[2, 6]))
            .unwrap();
    let encoded = metadata.encode();
    assert_eq!(encoded, (vec![10, 6], true, Some(1), vec![2, 6]));
    let back = TensorMetadata::<u8>::decode(encoded).unwrap();
    assert_eq!(back.shape().as_slice(), &[10, 6]);
    assert_eq!(back.layout(), Layout::Sparse { axis: Some(1) });
    assert_eq!(back.block_shape().as_slice(), &[2, 6]);
    let storage = back.storage().unwrap();
    assert_eq!(storage.num_blocks(), 5);
    assert_eq!(storage.block_len(), 12);
    assert_eq!(storage.default_block::<u8>(), vec![0; 12]);
    for bad in [
        (vec![10, 6], false, Some(1), vec![2, 6]),
        (vec![10, 6], true, Some(2), vec![2, 6]),
        (vec![10, 6], false, None, vec![2]),
        (vec![10, 6], false, None, vec![2, 0]),
        (vec![10, 6], false, None, vec![64, 65]),
        (vec![10, 6], false, None, vec![u64::MAX, 2]),
        (vec![], false, None, vec![]),
    ] {
        assert!(matches!(TensorMetadata::<u8>::decode(bad), Err(Error::InvalidSchema(_))));
    }
    assert_eq!(
        TensorMetadata::<u8>::decode((vec![3], false, None, vec![3])).unwrap().layout(),
        Layout::Dense
    );
}

#[test]
fn sparse_tensors_may_have_more_elements_than_a_machine_counts() {
    let mut tensor = create_sparse(&[1 << 40, 1 << 30], 4096, None);
    assert_eq!(tensor.storage.num_blocks(), 1 << 58);
    let far = [(1 << 39) + 7, 12345];
    tensor.write_value(&far, 3.0).unwrap();
    tensor.write_value(&[0, 1], 2.0).unwrap();
    assert_eq!(tensor.read_value(&far).unwrap(), 3.0);
    assert_eq!(tensor.read_value(&[0, 1]).unwrap(), 2.0);
    assert_eq!(tensor.read_value(&[0, 12345]).unwrap(), 0.0);
    // Boxes are read by their offsets, which are machine numbers.
    let row = |at: u64| {
        let axes = vec![Axis::range(at, 1), Axis::range(0, 3)];
        BatchRequest::rectangles(vec![Cartesian::new(axes).unwrap()]).unwrap()
    };
    assert_eq!(tensor.read_batch(&row(0), None).unwrap(), vec![0.0, 2.0, 0.0]);
    assert!(matches!(tensor.read_batch(&row(1 << 39), None), Err(Error::InvalidLayout(_))));
}
