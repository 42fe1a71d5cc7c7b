use cocoonfs::alloc_bitmap::{AllocBitmap, SparseAllocBitmap, SparseAllocBitmapEntry};
use cocoonfs::block_state::{
    AllocationBlockUpdateNvSyncState, AllocationBlockUpdateNvSyncStateAllocated,
    AllocationBlockUpdateNvSyncStateUnallocatedTargetState, AllocationBlockUpdateStagedUpdate,
};
use cocoonfs::fs::NvFsError;
use cocoonfs::layout::{PhysicalAllocBlockIndex, PhysicalAllocBlockRange};
use cocoonfs::offsets::{
    AuthTreeDataBlocksUpdateStatesFillAlignmentGapsRangeOffsets,
    AuthTreeDataBlocksUpdateStatesFillAlignmentGapsRangeOffsetsTransformToAfter,
    AuthTreeDataBlocksUpdateStatesFillAlignmentGapsRangeOffsetsTransformToContaining,
};
use cocoonfs::states::AuthTreeDataBlocksUpdateStates;
use cocoonfs::states_index::{
    AuthTreeDataBlocksUpdateStatesAllocationBlockIndex, AuthTreeDataBlocksUpdateStatesAllocationBlocksIndexRange,
    AuthTreeDataBlocksUpdateStatesIndex, AuthTreeDataBlocksUpdateStatesIndexRange,
};

// Authentication Tree Data Blocks of two, IO blocks of four Allocation Blocks.
fn new_states() -> AuthTreeDataBlocksUpdateStates {
    AuthTreeDataBlocksUpdateStates::new(2, 1, 0)
}

fn loc(index: u64) -> PhysicalAllocBlockIndex {
    PhysicalAllocBlockIndex { index }
}

fn extent(begin: u64, end: u64) -> PhysicalAllocBlockRange {
    PhysicalAllocBlockRange::new(loc(begin), loc(end))
}

fn index(index: usize) -> AuthTreeDataBlocksUpdateStatesIndex {
    AuthTreeDataBlocksUpdateStatesIndex { index }
}

fn range(begin: usize, end: usize) -> AuthTreeDataBlocksUpdateStatesIndexRange {
    AuthTreeDataBlocksUpdateStatesIndexRange::new(index(begin), index(end))
}

fn block_index(block: usize, offset: usize) -> AuthTreeDataBlocksUpdateStatesAllocationBlockIndex {
    AuthTreeDataBlocksUpdateStatesAllocationBlockIndex::new(index(block), offset)
}

fn blocks_range(
    begin: (usize, usize),
    end: (usize, usize),
) -> AuthTreeDataBlocksUpdateStatesAllocationBlocksIndexRange {
    AuthTreeDataBlocksUpdateStatesAllocationBlocksIndexRange::new(
        &block_index(begin.0, begin.1),
        &block_index(end.0, end.1),
    )
}

fn targets(states: &AuthTreeDataBlocksUpdateStates) -> Vec<u64> {
    states.states.iter().map(|s| s.target_allocation_blocks_begin.index).collect()
}

// Insert entries covering the given extents.
fn states_at(extents: &[(u64, u64)]) -> AuthTreeDataBlocksUpdateStates {
    let mut states = new_states();
    let bitmap = AllocBitmap::new(vec![!0u64]);
    for (begin, end) in extents {
        states
            .insert_missing_in_range(extent(*begin, *end), &bitmap, &SparseAllocBitmap::new(), None)
            .unwrap();
    }
    states
}

#[test]
fn missing_entries_are_inserted() {
    let mut states = states_at(&[(5, 7)]);
    assert_eq!(targets(&states), vec![4, 6]);
    let bitmap = AllocBitmap::new(vec![!0u64]);
    let (found, inserted) = states
        .insert_missing_in_range(extent(1, 11), &bitmap, &SparseAllocBitmap::new(), None)
        .unwrap();
    assert_eq!(targets(&states), vec![0, 2, 4, 6, 8, 10]);
    assert_eq!(found, blocks_range((0, 1), (5, 1)));
    assert_eq!(inserted, 4);
}

#[test]
fn nothing_is_inserted_if_all_present() {
    let mut states = states_at(&[(0, 8)]);
    let bitmap = AllocBitmap::new(vec![!0u64]);
    let (found, inserted) = states
        .insert_missing_in_range(extent(3, 5), &bitmap, &SparseAllocBitmap::new(), None)
        .unwrap();
    assert_eq!(inserted, 0);
    assert_eq!(found, blocks_range((1, 1), (2, 1)));
    assert_eq!(targets(&states), vec![0, 2, 4, 6]);
}

#[test]
fn insertion_hint_is_accepted() {
    let mut states = states_at(&[(0, 4), (16, 20)]);
    let bitmap = AllocBitmap::new(vec![!0u64]);
    let (found, inserted) = states
        .insert_missing_in_range(extent(8, 10), &bitmap, &SparseAllocBitmap::new(), Some(index(2)))
        .unwrap();
    assert_eq!(targets(&states), vec![0, 2, 8, 16, 18]);
    assert_eq!(inserted, 1);
    assert_eq!(found, blocks_range((2, 0), (3, 0)));
}

#[test]
fn insertion_fails_if_exceeding_the_address_space() {
    let mut states = new_states();
    let bitmap = AllocBitmap::new(vec![]);
    let r = states.insert_missing_in_range(
        extent(u64::MAX - 1, u64::MAX),
        &bitmap,
        &SparseAllocBitmap::new(),
        None,
    );
    assert_eq!(r, Err((NvFsError::Internal, 0)));
    assert_eq!(states.len(), 0);
}

#[test]
fn inserted_entries_reflect_allocation_status() {
    let mut states = new_states();
    // Only blocks zero and one are allocated, with the latter about to get freed.
    let bitmap = AllocBitmap::new(vec![3u64]);
    let mut pending_frees = SparseAllocBitmap::new();
    pending_frees.entries.push(SparseAllocBitmapEntry {
        begin: loc(0),
        bits: 2,
    });
    states.insert_missing_in_range(extent(0, 4), &bitmap, &pending_frees, None).unwrap();
    let block = |i: usize, k: usize| &states.states[i].allocation_blocks_states[k].nv_sync_state;
    assert!(matches!(
        block(0, 0),
        AllocationBlockUpdateNvSyncState::Allocated(AllocationBlockUpdateNvSyncStateAllocated::Unmodified(u))
            if u.cached_encrypted_data.is_none() && !u.copied_to_journal
    ));
    assert!(matches!(
        states.states[0].allocation_blocks_states[0].staged_update,
        AllocationBlockUpdateStagedUpdate::NoUpdate
    ));
    assert!(matches!(block(0, 1), AllocationBlockUpdateNvSyncState::Allocated(_)));
    assert!(matches!(
        states.states[0].allocation_blocks_states[1].staged_update,
        AllocationBlockUpdateStagedUpdate::Deallocate
    ));
    // Anything unallocated is considered initialized if there's something allocated in the IO
    // block.
    for k in 0..2 {
        assert!(matches!(
            block(1, k),
            AllocationBlockUpdateNvSyncState::Unallocated(u)
                if u.target_state
                    == AllocationBlockUpdateNvSyncStateUnallocatedTargetState::Unallocated { is_initialized: true }
        ));
    }
    states.insert_missing_in_range(extent(4, 6), &bitmap, &pending_frees, None).unwrap();
    assert!(matches!(
        &states.states[2].allocation_blocks_states[0].nv_sync_state,
        AllocationBlockUpdateNvSyncState::Unallocated(u)
            if u.target_state
                == AllocationBlockUpdateNvSyncStateUnallocatedTargetState::Unallocated { is_initialized: false }
    ));
}

#[test]
fn entries_are_looked_up() {
    let states = states_at(&[(0, 4), (8, 12)]);
    assert_eq!(states.lookup_auth_tree_data_block_update_state_index(loc(2)), Ok(index(1)));
    assert_eq!(states.lookup_auth_tree_data_block_update_state_index(loc(8)), Ok(index(2)));
    assert_eq!(states.lookup_auth_tree_data_block_update_state_index(loc(4)), Err(index(2)));
    assert_eq!(states.lookup_auth_tree_data_block_update_state_index(loc(20)), Err(index(4)));
    assert_eq!(
        states.lookup_allocation_blocks_update_states_index_range(&extent(3, 9)),
        Ok(blocks_range((1, 1), (2, 1)))
    );
    assert_eq!(states.lookup_allocation_blocks_update_states_index_range(&extent(4, 8)), Err(index(2)));
}

#[test]
fn contiguity_is_determined() {
    let states = states_at(&[(0, 4), (8, 16)]);
    assert_eq!(targets(&states), vec![0, 2, 8, 10, 12, 14]);
    assert!(states.is_contiguous_region(&range(0, 2)));
    assert!(!states.is_contiguous_region(&range(0, 3)));
    assert!(states.is_contiguous_region(&range(2, 6)));
    assert!(states.is_contiguous_aligned_region(&range(2, 4), 2));
    assert!(!states.is_contiguous_aligned_region(&range(3, 4), 2));
    assert!(states.is_contiguous_allocation_blocks_region(&blocks_range((0, 1), (2, 0))));
    assert!(!states.is_contiguous_allocation_blocks_region(&blocks_range((0, 1), (2, 1))));
    assert!(states.is_contiguous_aligned_allocation_blocks_region(&blocks_range((2, 0), (4, 0)), 2));
    assert!(!states.is_contiguous_aligned_allocation_blocks_region(&blocks_range((2, 1), (4, 0)), 2));
    assert_eq!(states.find_gap_after(index(0)), index(2));
    assert_eq!(states.find_gap_after(index(2)), index(6));
    assert_eq!(states.find_aligned_gap_after(index(0), 3), index(6));
    assert_eq!(states.find_aligned_gap_after(index(0), 2), index(2));
    assert_eq!(
        states.allocation_blocks_range_contiguous_head_subrange(&blocks_range((0, 1), (4, 1))),
        blocks_range((0, 1), (2, 0))
    );
    assert_eq!(
        states.allocation_blocks_range_contiguous_head_subrange(&blocks_range((2, 1), (4, 1))),
        blocks_range((2, 1), (4, 1))
    );
}

#[test]
fn contiguous_region_length_matches_target_range() {
    let states = states_at(&[(8, 16)]);
    let region = blocks_range((0, 1), (3, 1));
    assert!(states.is_contiguous_allocation_blocks_region(&region));
    let target = states.get_contiguous_region_target_range(&region);
    assert_eq!(target, extent(9, 15));
    assert_eq!(target.block_count().count, 6);
    assert_eq!(states.get_allocation_block_target(&block_index(1, 1)), loc(11));
}

#[test]
fn ranges_are_extended_within_alignment() {
    let states = states_at(&[(0, 16)]);
    assert_eq!(states.extend_states_index_range_within_alignment(range(1, 3), 2), range(0, 4));
    assert_eq!(states.extend_states_index_range_within_alignment(range(4, 5), 3), range(4, 8));
    assert_eq!(
        states.extend_states_allocation_blocks_index_range_within_alignment(&blocks_range((1, 1), (2, 1)), 2),
        blocks_range((0, 0), (4, 0))
    );
}

// All present entries within a four block reach, but some missing.
fn sparse_states() -> AuthTreeDataBlocksUpdateStates {
    let mut states = AuthTreeDataBlocksUpdateStates::new(1, 1, 0);
    let bitmap = AllocBitmap::new(vec![!0u64]);
    for begin in [2u64, 8, 12] {
        states
            .insert_missing_in_range(extent(begin, begin + 2), &bitmap, &SparseAllocBitmap::new(), None)
            .unwrap();
    }
    states
}

#[test]
fn alignment_gaps_are_filled() {
    let mut states = sparse_states();
    assert_eq!(targets(&states), vec![2, 8, 12]);
    let bitmap = AllocBitmap::new(vec![!0u64]);
    let (r, offsets) = states.fill_states_index_range_regions_alignment_gaps(
        &range(0, 2),
        2,
        &bitmap,
        &SparseAllocBitmap::new(),
    );
    assert_eq!(targets(&states), vec![0, 2, 8, 10, 12]);
    assert_eq!(r, Ok(range(0, 4)));
    let offsets = offsets.unwrap();
    assert_eq!(
        offsets,
        AuthTreeDataBlocksUpdateStatesFillAlignmentGapsRangeOffsets {
            inserted_states_before_range_count: 1,
            inserted_states_within_range_count: 0,
            inserted_states_after_range_count: 1,
            max_target_allocations_blocks_alignment_log2: 2,
        }
    );
    assert_eq!(offsets.total_inserted_states_count(), 2);
    // The corrected range refers to the same entries as before.
    let corrected = range(0, 2).apply_states_insertions_offsets(
        offsets.inserted_states_before_range_count,
        offsets.inserted_states_within_range_count,
    );
    assert_eq!(corrected, range(1, 3));
    assert_eq!(targets(&states)[1..3], [2, 8]);
}

#[test]
fn filling_complete_blocks_inserts_nothing() {
    let mut states = states_at(&[(0, 8)]);
    let bitmap = AllocBitmap::new(vec![!0u64]);
    let (r, offsets) = states.fill_states_allocation_blocks_index_range_regions_alignment_gaps(
        &blocks_range((0, 1), (1, 1)),
        2,
        &bitmap,
        &SparseAllocBitmap::new(),
    );
    assert_eq!(r, Ok(blocks_range((0, 0), (2, 0))));
    assert_eq!(offsets, None);
    assert_eq!(states.len(), 4);
}

#[test]
fn offsets_accumulate() {
    let a = AuthTreeDataBlocksUpdateStatesFillAlignmentGapsRangeOffsets {
        inserted_states_before_range_count: 1,
        inserted_states_within_range_count: 2,
        inserted_states_after_range_count: 3,
        max_target_allocations_blocks_alignment_log2: 2,
    };
    let b = AuthTreeDataBlocksUpdateStatesFillAlignmentGapsRangeOffsets {
        inserted_states_before_range_count: 10,
        inserted_states_within_range_count: 20,
        inserted_states_after_range_count: 30,
        max_target_allocations_blocks_alignment_log2: 4,
    };
    let c = a.accumulate(&b);
    assert_eq!(
        c,
        AuthTreeDataBlocksUpdateStatesFillAlignmentGapsRangeOffsets {
            inserted_states_before_range_count: 11,
            inserted_states_within_range_count: 22,
            inserted_states_after_range_count: 33,
            max_target_allocations_blocks_alignment_log2: 4,
        }
    );
    assert_eq!(c.total_inserted_states_count(), 66);
}

#[test]
fn offsets_transform_to_subsequent_range() {
    let mut states = sparse_states();
    let (from, to) = (range(0, 2), range(2, 3));
    let transform =
        AuthTreeDataBlocksUpdateStatesFillAlignmentGapsRangeOffsetsTransformToAfter::new(&from, &to, &states);
    let bitmap = AllocBitmap::new(vec![!0u64]);
    let (_, offsets) =
        states.fill_states_index_range_regions_alignment_gaps(&from, 2, &bitmap, &SparseAllocBitmap::new());
    let transformed = transform.apply(&offsets.unwrap());
    let corrected = to.apply_states_insertions_offsets(
        transformed.inserted_states_before_range_count,
        transformed.inserted_states_within_range_count,
    );
    assert_eq!(corrected, range(4, 5));
    assert_eq!(targets(&states)[4], 12);
}

#[test]
fn offsets_transform_to_containing_range() {
    let mut states = sparse_states();
    let (from, to) = (range(1, 2), range(0, 3));
    let transform =
        AuthTreeDataBlocksUpdateStatesFillAlignmentGapsRangeOffsetsTransformToContaining::new(&from, &to, &states);
    let bitmap = AllocBitmap::new(vec![!0u64]);
    let (r, offsets) =
        states.fill_states_index_range_regions_alignment_gaps(&from, 3, &bitmap, &SparseAllocBitmap::new());
    assert_eq!(targets(&states), vec![2, 8, 10, 12, 14]);
    assert_eq!(r, Ok(range(1, 5)));
    let transformed = transform.apply(&offsets.unwrap(), None);
    let corrected = to.apply_states_insertions_offsets(
        transformed.inserted_states_before_range_count,
        transformed.inserted_states_within_range_count,
    );
    assert_eq!(corrected, range(0, 4));
    assert_eq!(transformed.inserted_states_after_range_count, 1);
}

#[test]
fn journal_blocks_are_assigned_per_io_block() {
    let mut states = states_at(&[(0, 8)]);
    assert_eq!(states.assign_journal_staging_copy_block(index(1), loc(32)), Ok(()));
    let journal: Vec<Option<u64>> = states
        .states
        .iter()
        .map(|s| s.journal_staging_copy_allocation_blocks_begin.map(|l| l.index))
        .collect();
    assert_eq!(journal, vec![Some(32), Some(34), None, None]);
    assert_eq!(
        states.get_allocation_block_journal_staging_copy(&block_index(1, 1)),
        Some(loc(35))
    );
    assert_eq!(states.get_allocation_block_journal_staging_copy(&block_index(2, 0)), None);
    assert_eq!(
        states.get_contiguous_region_journal_staging_copy_range(&blocks_range((0, 1), (2, 0))),
        Some(extent(33, 36))
    );
    assert_eq!(
        states.get_contiguous_region_journal_staging_copy_range(&blocks_range((0, 1), (2, 1))),
        None
    );
    assert_eq!(
        states.assign_journal_staging_copy_block(index(0), loc(40)),
        Err(NvFsError::Internal)
    );
}

#[test]
fn inserted_entries_inherit_journal_assignment() {
    let bitmap = AllocBitmap::new(vec![!0u64]);
    let mut states = AuthTreeDataBlocksUpdateStates::new(2, 1, 0);
    states
        .insert_missing_in_range(extent(0, 4), &bitmap, &SparseAllocBitmap::new(), None)
        .unwrap();
    states.states.remove(1);
    assert_eq!(states.assign_journal_staging_copy_block(index(0), loc(32)), Ok(()));
    states
        .insert_missing_in_range(extent(0, 4), &bitmap, &SparseAllocBitmap::new(), None)
        .unwrap();
    assert_eq!(
        states.states[1].get_journal_staging_copy_allocation_blocks_begin(),
        Some(loc(34))
    );
}
