use cocoonfs::alloc_bitmap::{AllocBitmap, SparseAllocBitmap};
use cocoonfs::block_state::{
    AllocationBlockUpdateNvSyncState, AllocationBlockUpdateNvSyncStateAllocated,
    AllocationBlockUpdateNvSyncStateAllocatedModified, AllocationBlockUpdateNvSyncStateUnallocatedTargetState,
    AllocationBlockUpdateStagedUpdate, AllocationBlockUpdateState, CachedEncryptedAllocationBlockData,
};
use cocoonfs::fs::{CryptoError, NvFsError};
use cocoonfs::layout::{PhysicalAllocBlockIndex, PhysicalAllocBlockRange};
use cocoonfs::states::AuthTreeDataBlocksUpdateStates;
use cocoonfs::states_index::{
    AuthTreeDataBlocksUpdateStatesAllocationBlockIndex, AuthTreeDataBlocksUpdateStatesAllocationBlocksIndexRange,
    AuthTreeDataBlocksUpdateStatesIndex, AuthTreeDataBlocksUpdateStatesIndexRange,
};

fn loc(index: u64) -> PhysicalAllocBlockIndex {
    PhysicalAllocBlockIndex { index }
}

fn extent(begin: u64, end: u64) -> PhysicalAllocBlockRange {
    PhysicalAllocBlockRange::new(loc(begin), loc(end))
}

fn index(index: usize) -> AuthTreeDataBlocksUpdateStatesIndex {
    AuthTreeDataBlocksUpdateStatesIndex { index }
}

fn block_index(block: usize, offset: usize) -> AuthTreeDataBlocksUpdateStatesAllocationBlockIndex {
    AuthTreeDataBlocksUpdateStatesAllocationBlockIndex::new(index(block), offset)
}

fn blocks_range(
    begin: (usize, usize),
    end: (usize, usize),
) -> AuthTreeDataBlocksUpdateStatesAllocationBlocksIndexRange {
    AuthTreeDataBlocksUpdateStatesAllocationBlocksIndexRange::new(
        &block_index(begin.0, begin.1),
        &block_index(end.0, end.1),
    )
}

fn bitmap() -> AllocBitmap {
    AllocBitmap::new(vec![!0u64])
}

// Authentication Tree Data Blocks of two, IO blocks of four Allocation Blocks, all allocated.
fn new_states(blocks: u64) -> AuthTreeDataBlocksUpdateStates {
    let mut states = AuthTreeDataBlocksUpdateStates::new(2, 1, 0);
    states
        .insert_missing_in_range(extent(0, blocks), &bitmap(), &SparseAllocBitmap::new(), None)
        .unwrap();
    states
}

fn block(states: &AuthTreeDataBlocksUpdateStates, location: usize) -> &AllocationBlockUpdateState {
    states.allocation_block(&block_index(location / 2, location % 2))
}

fn stage(states: &mut AuthTreeDataBlocksUpdateStates, location: usize, data: u8) {
    states
        .allocation_block_mut(&block_index(location / 2, location % 2))
        .staged_update = AllocationBlockUpdateStagedUpdate::Update {
        encrypted_data: vec![data; 128],
    };
}

fn cache(states: &mut AuthTreeDataBlocksUpdateStates, location: usize, data: u8, authenticated: bool) {
    let state = states.allocation_block_mut(&block_index(location / 2, location % 2));
    match &mut state.nv_sync_state {
        AllocationBlockUpdateNvSyncState::Allocated(AllocationBlockUpdateNvSyncStateAllocated::Unmodified(u)) => {
            let mut cached = CachedEncryptedAllocationBlockData::new(vec![data; 128]);
            if authenticated {
                cached.set_authenticated();
            }
            u.cached_encrypted_data = Some(cached);
        }
        _ => unreachable!(),
    }
}

fn staged_kinds(states: &AuthTreeDataBlocksUpdateStates) -> String {
    states
        .states
        .iter()
        .flat_map(|s| s.allocation_blocks_states.iter())
        .map(|s| match s.staged_update {
            AllocationBlockUpdateStagedUpdate::NoUpdate => '-',
            AllocationBlockUpdateStagedUpdate::Deallocate => 'D',
            AllocationBlockUpdateStagedUpdate::Update { .. } => 'U',
            AllocationBlockUpdateStagedUpdate::FailedUpdate => 'F',
        })
        .collect()
}

#[test]
fn deallocations_are_staged() {
    let mut states = new_states(8);
    states.stage_extent_deallocation_updates(&extent(1, 4));
    assert_eq!(staged_kinds(&states), "-DDD----");
    states.stage_block_deallocation_updates(loc(6), 1);
    assert_eq!(staged_kinds(&states), "-DDD--DD");
    let mut states = new_states(8);
    states.stage_extents_deallocation_updates(&vec![extent(0, 1), extent(7, 20)]);
    assert_eq!(staged_kinds(&states), "D------D");
    let mut states = new_states(8);
    states.stage_blocks_deallocation_updates(&vec![loc(0), loc(4)], 1);
    assert_eq!(staged_kinds(&states), "DD--DD--");
}

#[test]
fn deallocations_are_staged_for_unallocated_blocks_as_well() {
    let unallocated = AllocBitmap::new(vec![0u64]);
    let mut states = AuthTreeDataBlocksUpdateStates::new(2, 1, 0);
    states
        .insert_missing_in_range(extent(0, 4), &unallocated, &SparseAllocBitmap::new(), None)
        .unwrap();
    stage(&mut states, 1, 1);
    states.stage_extent_deallocation_updates(&extent(1, 3));
    assert_eq!(staged_kinds(&states), "-DD-");
    // There's nothing to deallocate upon application.
    states.apply_allocation_blocks_staged_updates(None, &unallocated);
    assert_eq!(staged_kinds(&states), "----");
    assert!(matches!(
        &block(&states, 1).nv_sync_state,
        AllocationBlockUpdateNvSyncState::Unallocated(u) if u.random_fillup.is_none()
    ));
}

#[test]
fn staged_updates_are_reset() {
    let mut states = new_states(8);
    for i in 0..8 {
        stage(&mut states, i, i as u8);
    }
    states.reset_staged_extent_updates(&extent(1, 3));
    assert_eq!(staged_kinds(&states), "U--UUUUU");
    states.reset_staged_block_updates(loc(4), 1);
    assert_eq!(staged_kinds(&states), "U--U--UU");
    states.reset_allocation_blocks_staged_updates(&blocks_range((3, 1), (4, 0)));
    assert_eq!(staged_kinds(&states), "U--U--U-");
    states.reset_staged_extents_updates(&vec![extent(0, 1), extent(3, 4)]);
    assert_eq!(staged_kinds(&states), "------U-");
    states.reset_staged_blocks_updates(&vec![loc(6)], 1);
    assert_eq!(staged_kinds(&states), "--------");
}

#[test]
fn staged_updates_are_reset_to_failed() {
    let mut states = new_states(8);
    states.reset_staged_extent_updates_to_failed(&extent(1, 3));
    assert_eq!(staged_kinds(&states), "-FF-----");
    states.reset_staged_extents_updates_to_failed(&vec![extent(5, 6), extent(7, 8)]);
    assert_eq!(staged_kinds(&states), "-FF--F-F");
    states.reset_allocation_blocks_staged_updates_to_failed(&blocks_range((0, 0), (0, 1)));
    assert_eq!(staged_kinds(&states), "FFF--F-F");
}

#[test]
fn application_retains_staged_data() {
    let mut states = new_states(4);
    stage(&mut states, 1, 7);
    states.states[0].set_auth_digest(vec![1, 2, 3]);
    states.states[1].set_auth_digest(vec![4, 5, 6]);
    states.apply_allocation_blocks_staged_updates(None, &bitmap());
    assert_eq!(staged_kinds(&states), "----");
    assert!(matches!(
        &block(&states, 1).nv_sync_state,
        AllocationBlockUpdateNvSyncState::Allocated(AllocationBlockUpdateNvSyncStateAllocated::Modified(
            AllocationBlockUpdateNvSyncStateAllocatedModified::JournalDirty { authenticated_encrypted_data }
        )) if *authenticated_encrypted_data == vec![7u8; 128]
    ));
    assert_eq!(block(&states, 1).get_authenticated_encrypted_data(), Ok(&[7u8; 128][..]));
    // The digest of what's been updated is outdated.
    assert_eq!(states.states[0].get_auth_digest(), None);
    assert_eq!(states.states[1].get_auth_digest(), Some(&[4u8, 5, 6][..]));
    assert_eq!(states.states[1].steal_auth_digest(), Some(vec![4u8, 5, 6]));
    assert_eq!(states.states[1].get_auth_digest(), None);
}

#[test]
fn application_is_idempotent() {
    let mut states = new_states(4);
    stage(&mut states, 1, 7);
    states.stage_extent_deallocation_updates(&extent(2, 3));
    states.apply_allocation_blocks_staged_updates(None, &bitmap());
    states.states[0].set_auth_digest(vec![1]);
    states.apply_allocation_blocks_staged_updates(None, &bitmap());
    assert_eq!(states.states[0].get_auth_digest(), Some(&[1u8][..]));
    assert_eq!(block(&states, 1).get_authenticated_encrypted_data(), Ok(&[7u8; 128][..]));
    assert!(matches!(block(&states, 2).nv_sync_state, AllocationBlockUpdateNvSyncState::Unallocated(_)));
}

#[test]
fn application_is_restricted_to_range() {
    let mut states = new_states(4);
    stage(&mut states, 0, 1);
    stage(&mut states, 3, 2);
    states.apply_allocation_blocks_staged_updates(Some(&blocks_range((1, 0), (2, 0))), &bitmap());
    assert_eq!(staged_kinds(&states), "U---");
}

#[test]
fn deallocated_blocks_have_no_data() {
    let mut states = new_states(4);
    stage(&mut states, 2, 1);
    states.apply_allocation_blocks_staged_updates(None, &bitmap());
    states.stage_extent_deallocation_updates(&extent(2, 3));
    states.apply_allocation_blocks_staged_updates(None, &bitmap());
    assert!(matches!(
        &block(&states, 2).nv_sync_state,
        AllocationBlockUpdateNvSyncState::Unallocated(u)
            if u.target_state == AllocationBlockUpdateNvSyncStateUnallocatedTargetState::Allocated
    ));
    assert_eq!(
        block(&states, 2).get_authenticated_encrypted_data(),
        Err(NvFsError::Internal)
    );
}

#[test]
fn cleaning_retains_data() {
    let mut states = new_states(4);
    stage(&mut states, 1, 7);
    states.apply_allocation_blocks_staged_updates(None, &bitmap());
    states.mark_states_clean(&blocks_range((0, 0), (2, 0)));
    assert!(matches!(
        &block(&states, 1).nv_sync_state,
        AllocationBlockUpdateNvSyncState::Allocated(AllocationBlockUpdateNvSyncStateAllocated::Modified(
            AllocationBlockUpdateNvSyncStateAllocatedModified::JournalClean { cached_encrypted_data: Some(_) }
        ))
    ));
    assert_eq!(block(&states, 1).get_authenticated_encrypted_data(), Ok(&[7u8; 128][..]));
    assert!(matches!(
        &block(&states, 0).nv_sync_state,
        AllocationBlockUpdateNvSyncState::Allocated(AllocationBlockUpdateNvSyncStateAllocated::Unmodified(u))
            if u.copied_to_journal
    ));
}

#[test]
fn staging_buffers_are_allocated() {
    let mut states = new_states(4);
    stage(&mut states, 1, 7);
    assert_eq!(
        states.allocate_allocation_blocks_update_staging_bufs(&blocks_range((0, 1), (1, 1)), 0),
        Ok(())
    );
    assert_eq!(staged_kinds(&states), "-UU-");
    // An existing one is retained.
    assert!(matches!(
        &block(&states, 1).staged_update,
        AllocationBlockUpdateStagedUpdate::Update { encrypted_data } if *encrypted_data == vec![7u8; 128]
    ));
    assert!(matches!(
        &block(&states, 2).staged_update,
        AllocationBlockUpdateStagedUpdate::Update { encrypted_data } if *encrypted_data == vec![0u8; 128]
    ));
}

#[test]
fn unmodified_entries_are_pruned() {
    let mut states = new_states(12);
    assert_eq!(states.assign_journal_staging_copy_block(index(0), loc(32)), Ok(()));
    assert_eq!(states.assign_journal_staging_copy_block(index(2), loc(40)), Ok(()));
    stage(&mut states, 5, 1);
    let mut abandoned = vec![loc(100)];
    assert_eq!(states.prune_unmodified(&mut abandoned, loc(0)), Ok(()));
    // All entries from an IO block with something modified are being kept.
    let targets: Vec<u64> = states
        .states
        .iter()
        .map(|s| s.get_target_allocation_blocks_begin().index)
        .collect();
    assert_eq!(targets, vec![4, 6]);
    assert_eq!(abandoned, vec![loc(100), loc(32)]);
}

#[test]
fn image_header_entries_are_not_pruned() {
    let mut states = new_states(8);
    let mut abandoned = vec![];
    assert_eq!(states.prune_unmodified(&mut abandoned, loc(1)), Ok(()));
    assert_eq!(states.len(), 2);
    assert_eq!(abandoned, vec![]);
    states.clear();
    assert_eq!(states.len(), 0);
}

#[test]
fn digests_are_updated_where_missing() {
    let mut states = new_states(4);
    for i in 0..4 {
        cache(&mut states, i, i as u8 + 1, true);
    }
    stage(&mut states, 1, 7);
    states.states[1].set_auth_digest(vec![0xff]);
    let digest = |target: PhysicalAllocBlockIndex, data: Vec<Option<&[u8]>>| -> Result<Vec<u8>, NvFsError> {
        let mut digest = vec![target.index as u8];
        for d in data {
            digest.push(match d {
                Some(d) => d[0],
                None => 0xee,
            });
        }
        Ok(digest)
    };
    states.apply_allocation_blocks_staged_updates(None, &bitmap());
    assert_eq!(states.update_auth_digests(None, &digest, loc(0)), Ok(()));
    assert_eq!(states.states[0].get_auth_digest(), Some(&[0u8, 1, 7][..]));
    assert_eq!(states.states[1].get_auth_digest(), Some(&[0xffu8][..]));
    // The image header doesn't contribute.
    states.states[0].steal_auth_digest();
    assert_eq!(
        states.update_auth_digests(
            Some(&AuthTreeDataBlocksUpdateStatesIndexRange::new(index(0), index(1))),
            &digest,
            loc(1)
        ),
        Ok(())
    );
    assert_eq!(states.states[0].get_auth_digest(), Some(&[0u8, 0xee, 7][..]));
}

#[test]
fn digest_computation_requires_data() {
    let mut states = new_states(2);
    cache(&mut states, 0, 1, true);
    stage(&mut states, 0, 2);
    states.apply_allocation_blocks_staged_updates(None, &bitmap());
    let digest = |_: PhysicalAllocBlockIndex, _: Vec<Option<&[u8]>>| -> Result<Vec<u8>, NvFsError> { Ok(vec![]) };
    assert_eq!(states.update_auth_digests(None, &digest, loc(0)), Err(NvFsError::Internal));
    // Unauthenticated data won't do either.
    cache(&mut states, 1, 1, false);
    assert_eq!(states.update_auth_digests(None, &digest, loc(0)), Err(NvFsError::Internal));
    let failing = |_: PhysicalAllocBlockIndex, _: Vec<Option<&[u8]>>| -> Result<Vec<u8>, NvFsError> {
        Err(NvFsError::CryptoError(CryptoError::Internal))
    };
    cache(&mut states, 1, 1, true);
    assert_eq!(
        states.update_auth_digests(None, &failing, loc(0)),
        Err(NvFsError::CryptoError(CryptoError::Internal))
    );
}

#[test]
fn entries_are_iterated_in_storage_order() {
    let states = new_states(4);
    let mut iter = states.iter_allocation_blocks(Some(&blocks_range((0, 1), (1, 1))));
    assert_eq!(iter.next().map(|(l, _)| l), Some(loc(1)));
    assert_eq!(iter.next().map(|(l, _)| l), Some(loc(2)));
    assert!(iter.next().is_none());
    let mut iter = states.iter_allocation_blocks(None);
    let mut n = 0;
    while let Some((l, _)) = iter.next() {
        assert_eq!(l, loc(n));
        n += 1;
    }
    assert_eq!(n, 4);
}

#[test]
fn entries_are_modified_through_iteration() {
    let mut states = new_states(4);
    let mut iter = states.iter_allocation_blocks_mut(Some(&blocks_range((0, 1), (2, 0))));
    while let Some((location, state)) = iter.next(&mut states) {
        if location != loc(2) {
            state.staged_update = AllocationBlockUpdateStagedUpdate::FailedUpdate;
        }
    }
    assert_eq!(staged_kinds(&states), "-F-F");
}

#[test]
fn staging_buffer_slices_concatenate() {
    let mut states = new_states(4);
    for i in 1..4 {
        stage(&mut states, i, i as u8);
    }
    let mut iter = states
        .iter_allocation_blocks_update_staging_bufs_mut(&blocks_range((0, 1), (2, 0)))
        .unwrap();
    let borrowed = iter.decoupled_borrow(&states);
    assert_eq!(borrowed.all_aligned_to(128), Ok(true));
    assert_eq!(borrowed.all_aligned_to(256), Ok(false));
    let mut collected: Vec<u8> = Vec::new();
    let mut read = borrowed.decoupled_borrow();
    assert_eq!(read.next_slice_len(), 128);
    collected.extend_from_slice(read.next_slice(Some(100)).unwrap().unwrap());
    assert_eq!(read.next_slice_len(), 28);
    assert_eq!(read.all_aligned_to(28), Ok(false));
    while let Some(slice) = read.next_slice(None).unwrap() {
        collected.extend_from_slice(slice);
    }
    let expected: Vec<u8> = (1..4u8).flat_map(|i| vec![i; 128]).collect();
    assert_eq!(collected, expected);
    // Overwrite everything.
    let mut n = 0;
    while let Some(slice) = iter.next_slice_mut(&mut states, Some(50)).unwrap() {
        for b in slice.iter_mut() {
            *b = 0xaa;
        }
        n += slice.len();
    }
    assert_eq!(n, 3 * 128);
    assert!(matches!(
        &block(&states, 3).staged_update,
        AllocationBlockUpdateStagedUpdate::Update { encrypted_data } if *encrypted_data == vec![0xaau8; 128]
    ));
}

#[test]
fn staging_buffers_are_written_one_after_another() {
    let mut states = new_states(4);
    let range = blocks_range((0, 1), (2, 0));
    assert_eq!(states.allocate_allocation_blocks_update_staging_bufs(&range, 0), Ok(()));
    let mut iter = states.iter_allocation_blocks_update_staging_bufs_mut(&range).unwrap();
    let mut n = 0;
    while let Some(slice) = iter.next_slice_mut(&mut states, Some(100)).unwrap() {
        n += 1;
        for b in slice.iter_mut() {
            *b = n;
        }
        // Whatever is ahead has not been written to yet.
        let mut ahead = iter.decoupled_borrow(&states);
        while let Some(slice) = ahead.next_slice(None).unwrap() {
            assert!(slice.iter().all(|b| *b == 0));
        }
    }
    assert_eq!(n, 6);
    for i in 0..3 {
        let mut expected = vec![2 * i + 1; 100];
        expected.extend_from_slice(&[2 * i + 2; 28]);
        assert!(matches!(
            &block(&states, i as usize + 1).staged_update,
            AllocationBlockUpdateStagedUpdate::Update { encrypted_data } if *encrypted_data == expected
        ));
    }
}

#[test]
fn missing_staging_buffers_are_reported_after_those_present() {
    let mut states = new_states(4);
    for i in [0, 1, 3] {
        stage(&mut states, i, i as u8);
    }
    let mut iter = states
        .iter_allocation_blocks_update_staging_bufs_mut(&blocks_range((0, 0), (2, 0)))
        .unwrap();
    assert_eq!(iter.next_slice_mut(&mut states, None).unwrap().unwrap()[0], 0);
    // Only a part of the last one present.
    assert_eq!(iter.next_slice_mut(&mut states, Some(127)).unwrap().unwrap().len(), 127);
    assert_eq!(iter.next_slice_mut(&mut states, None), Err(CryptoError::Internal));
    assert_eq!(iter.next_slice_mut(&mut states, None), Ok(None));
}

#[test]
fn staging_buffer_slices_are_walked_until_stopped() {
    let mut states = new_states(4);
    for i in 0..4 {
        stage(&mut states, i, i as u8);
    }
    let iter = states
        .iter_allocation_blocks_update_staging_bufs_mut(&blocks_range((0, 0), (2, 0)))
        .unwrap();
    let visited = std::cell::RefCell::new(Vec::new());
    let cb = |slice: &[u8]| -> bool {
        visited.borrow_mut().push(slice[0]);
        slice[0] < 2
    };
    assert_eq!(iter.for_each(&states, &cb), Ok(()));
    assert_eq!(*visited.borrow(), vec![0u8, 1, 2]);
}

#[test]
fn missing_staging_buffers_are_reported() {
    let mut states = new_states(4);
    stage(&mut states, 0, 1);
    let mut iter = states
        .iter_allocation_blocks_update_staging_bufs_mut(&blocks_range((0, 0), (1, 0)))
        .unwrap();
    assert_eq!(iter.next_slice_mut(&mut states, None), Err(CryptoError::Internal));
    states.reset_staged_extent_updates_to_failed(&extent(1, 2));
    let mut iter = states
        .iter_allocation_blocks_update_staging_bufs_mut(&blocks_range((0, 0), (1, 0)))
        .unwrap();
    assert_eq!(
        iter.next_slice_mut(&mut states, None),
        Err(CryptoError::BufferStateIndeterminate)
    );
    assert!(
        states
            .iter_allocation_blocks_update_staging_bufs_mut(&blocks_range((1, 0), (2, 0)))
            .is_err()
    );
}

#[test]
fn walking_reports_missing_staging_buffers() {
    let mut states = new_states(6);
    for i in 1..4 {
        stage(&mut states, i, i as u8);
    }
    let visited = std::cell::RefCell::new(Vec::new());
    let cb = |slice: &[u8]| -> bool {
        assert_eq!(slice.len(), 128);
        visited.borrow_mut().push(slice[0]);
        slice[0] != 3
    };
    // What's not in range doesn't matter.
    let iter = states
        .iter_allocation_blocks_update_staging_bufs_mut(&blocks_range((0, 1), (2, 0)))
        .unwrap();
    assert_eq!(iter.for_each(&states, &|_: &[u8]| -> bool { true }), Ok(()));
    // The last one is missing, the one preceding it is not handed out.
    let iter = states
        .iter_allocation_blocks_update_staging_bufs_mut(&blocks_range((0, 1), (2, 1)))
        .unwrap();
    assert_eq!(iter.for_each(&states, &cb), Err(CryptoError::Internal));
    assert_eq!(*visited.borrow(), vec![1u8, 2]);
    visited.borrow_mut().clear();
    states.reset_staged_extent_updates_to_failed(&extent(4, 5));
    assert_eq!(iter.for_each(&states, &cb), Err(CryptoError::BufferStateIndeterminate));
    assert_eq!(*visited.borrow(), vec![1u8, 2]);
    // Nothing is missing before it's been requested to stop.
    visited.borrow_mut().clear();
    stage(&mut states, 4, 4);
    let iter = states
        .iter_allocation_blocks_update_staging_bufs_mut(&blocks_range((0, 1), (3, 0)))
        .unwrap();
    assert_eq!(iter.for_each(&states, &cb), Ok(()));
    assert_eq!(*visited.borrow(), vec![1u8, 2, 3]);
}

#[test]
fn entries_are_accessed_by_index() {
    let mut states = new_states(8);
    let all = states.iter_auth_tree_data_blocks(None);
    assert_eq!(all.len(), 4);
    let some =
        states.iter_auth_tree_data_blocks(Some(&AuthTreeDataBlocksUpdateStatesIndexRange::new(index(1), index(3))));
    assert_eq!(some.len(), 2);
    assert_eq!(some[0].get_target_allocation_blocks_begin(), loc(2));
    assert_eq!(states.index(index(3)).get_target_allocation_blocks_begin(), loc(6));
    states.index_mut(index(3)).set_auth_digest(vec![1]);
    assert_eq!(states.index(index(3)).get_auth_digest(), Some(&[1u8][..]));
    assert_eq!(states.index(index(2)).get_auth_digest(), None);
}

#[test]
fn iterators_are_spawned_off() {
    let mut states = new_states(4);
    for i in 0..4 {
        stage(&mut states, i, i as u8);
    }
    let mut iter = states.iter_allocation_blocks_mut(None);
    assert_eq!(iter.next(&mut states).map(|(l, _)| l), Some(loc(0)));
    let mut spawned = iter.peek_mut();
    assert_eq!(spawned.next(&mut states).map(|(l, _)| l), Some(loc(1)));
    assert_eq!(iter.peek(&states).next().map(|(l, _)| l), Some(loc(1)));
    let mut bufs = states
        .iter_allocation_blocks_update_staging_bufs_mut(&blocks_range((0, 0), (2, 0)))
        .unwrap();
    bufs.next_slice_mut(&mut states, None).unwrap();
    let mut spawned = bufs.decoupled_borrow_mut();
    assert_eq!(spawned.next_slice_mut(&mut states, None).unwrap().unwrap()[0], 1);
    assert_eq!(bufs.next_slice_mut(&mut states, None).unwrap().unwrap()[0], 1);
}
