use cocoonfs::alloc_bitmap::{AllocBitmap, SparseAllocBitmap};
use cocoonfs::block_state::{
    AllocationBlockUpdateNvSyncState, AllocationBlockUpdateNvSyncStateAllocated,
    AllocationBlockUpdateNvSyncStateUnallocated, AllocationBlockUpdateNvSyncStateUnallocatedTargetState,
    AllocationBlockUpdateStagedUpdate,
};
use cocoonfs::fs::{NvBlkDevIoError, NvFsError, NvFsIoError};
use cocoonfs::layout::{PhysicalAllocBlockIndex, PhysicalAllocBlockRange};
use cocoonfs::offsets::AuthTreeDataBlocksUpdateStatesFillAlignmentGapsRangeOffsets;
use cocoonfs::read_missing_data::TransactionReadMissingDataFuture;
use cocoonfs::read_poll::TransactionReadMissingDataFuturePoll;
use cocoonfs::read_request::TransactionReadMissingDataFutureNvChipReadRequest;
use cocoonfs::states::AuthTreeDataBlocksUpdateStates;
use cocoonfs::states_index::{
    AuthTreeDataBlocksUpdateStatesAllocationBlockIndex, AuthTreeDataBlocksUpdateStatesAllocationBlocksIndexRange,
    AuthTreeDataBlocksUpdateStatesIndex,
};
use cocoonfs::transaction::Transaction;

fn loc(index: u64) -> PhysicalAllocBlockIndex {
    PhysicalAllocBlockIndex { index }
}

fn blocks_range(
    begin: (usize, usize),
    end: (usize, usize),
) -> AuthTreeDataBlocksUpdateStatesAllocationBlocksIndexRange {
    let index = |(block, offset): (usize, usize)| {
        AuthTreeDataBlocksUpdateStatesAllocationBlockIndex::new(
            AuthTreeDataBlocksUpdateStatesIndex { index: block },
            offset,
        )
    };
    AuthTreeDataBlocksUpdateStatesAllocationBlocksIndexRange::new(&index(begin), &index(end))
}

fn bitmap() -> AllocBitmap {
    AllocBitmap::new(vec![!0u64])
}

// Authentication Tree Data Blocks of two, IO blocks of four Allocation Blocks, all allocated.
fn new_transaction(extents: &[(u64, u64)]) -> Transaction {
    let mut states = AuthTreeDataBlocksUpdateStates::new(2, 1, 0);
    for (begin, end) in extents {
        states
            .insert_missing_in_range(
                PhysicalAllocBlockRange::new(loc(*begin), loc(*end)),
                &bitmap(),
                &SparseAllocBitmap::new(),
                None,
            )
            .unwrap();
    }
    Transaction {
        auth_tree_data_blocks_update_states: states,
        pending_frees: SparseAllocBitmap::new(),
        chip_io_block_size_128b_log2: 2,
        preferred_chip_io_blocks_bulk_log2: 0,
        journal_staging_copy_disguise_enabled: true,
    }
}

// Fill a request's destination buffers with the respective locations.
fn complete(request: &mut TransactionReadMissingDataFutureNvChipReadRequest) -> (u64, u64) {
    let region = *request.region();
    assert_eq!(region.chunk_size_128b_log2, 0);
    for i in 0..(region.physical_end_128b - region.physical_begin_128b) as usize {
        let location = (region.physical_begin_128b + i as u64) as u8;
        if let Some(buf) = request.get_destination_buffer(i, 0, 100) {
            buf.fill(location);
        }
        if let Some(buf) = request.get_destination_buffer(i, 100, 128) {
            buf.fill(location);
        }
    }
    (region.physical_begin_128b, region.physical_end_128b)
}

fn undisguise(
    journal: PhysicalAllocBlockIndex,
    target: PhysicalAllocBlockIndex,
    mut data: Vec<u8>,
) -> Result<Vec<u8>, NvFsError> {
    assert_ne!(journal, target);
    for b in data.iter_mut() {
        *b |= 0x80;
    }
    Ok(data)
}

// Run to completion, return the regions read alongside the result.
fn run(
    transaction: &mut Transaction,
    range: &AuthTreeDataBlocksUpdateStatesAllocationBlocksIndexRange,
) -> (
    Vec<(u64, u64)>,
    Option<AuthTreeDataBlocksUpdateStatesFillAlignmentGapsRangeOffsets>,
    Result<(), NvFsError>,
) {
    assert!(transaction.test_request_consistent(range));
    let mut fut = TransactionReadMissingDataFuture::new(transaction, range);
    let mut regions = Vec::new();
    let mut completed = None;
    loop {
        match fut.poll(transaction, &bitmap(), completed.take(), &undisguise) {
            TransactionReadMissingDataFuturePoll::Read(mut request) => {
                regions.push(complete(&mut request));
                completed = Some(Ok(request));
            }
            TransactionReadMissingDataFuturePoll::Ready { offsets, result } => {
                return (regions, offsets, result);
            }
        }
    }
}

fn loaded(transaction: &Transaction, block: usize, offset: usize) -> Option<u8> {
    match &transaction.auth_tree_data_blocks_update_states.states[block].allocation_blocks_states[offset].nv_sync_state
    {
        AllocationBlockUpdateNvSyncState::Allocated(AllocationBlockUpdateNvSyncStateAllocated::Unmodified(u)) => {
            u.cached_encrypted_data.as_ref().map(|d| {
                assert!(!d.is_authenticated());
                assert_eq!(d.get_encrypted_data().len(), 128);
                d.get_encrypted_data()[0]
            })
        }
        _ => None,
    }
}

#[test]
fn missing_data_is_loaded() {
    let mut transaction = new_transaction(&[(0, 8)]);
    let (regions, offsets, result) = run(&mut transaction, &blocks_range((0, 0), (4, 0)));
    assert_eq!(result, Ok(()));
    assert_eq!(offsets, None);
    assert_eq!(regions.iter().map(|(b, e)| e - b).sum::<u64>(), 8);
    for location in 0..8usize {
        assert_eq!(loaded(&transaction, location / 2, location % 2), Some(location as u8));
    }
}

#[test]
fn loaded_data_is_not_read_again() {
    let mut transaction = new_transaction(&[(0, 8)]);
    run(&mut transaction, &blocks_range((0, 0), (4, 0)));
    let (regions, _, result) = run(&mut transaction, &blocks_range((0, 0), (4, 0)));
    assert_eq!(result, Ok(()));
    assert_eq!(regions, vec![]);
}

#[test]
fn only_requested_blocks_are_read() {
    let mut transaction = new_transaction(&[(0, 16)]);
    let (regions, _, result) = run(&mut transaction, &blocks_range((2, 0), (3, 0)));
    assert_eq!(result, Ok(()));
    assert_eq!(regions, vec![(4, 8)]);
    assert_eq!(loaded(&transaction, 2, 1), Some(5));
    assert_eq!(loaded(&transaction, 0, 0), None);
    assert_eq!(loaded(&transaction, 4, 0), None);
}

#[test]
fn entries_are_inserted_for_alignment() {
    // The second half of the second IO block is missing.
    let mut transaction = new_transaction(&[(4, 6), (16, 18)]);
    let (regions, offsets, result) = run(&mut transaction, &blocks_range((0, 0), (1, 0)));
    assert_eq!(result, Ok(()));
    assert_eq!(regions, vec![(4, 8)]);
    let targets: Vec<u64> = transaction
        .auth_tree_data_blocks_update_states
        .states
        .iter()
        .map(|s| s.get_target_allocation_blocks_begin().index)
        .collect();
    assert_eq!(targets, vec![4, 6, 16]);
    let offsets = offsets.unwrap();
    assert_eq!(
        (
            offsets.inserted_states_before_range_count,
            offsets.inserted_states_within_range_count,
            offsets.inserted_states_after_range_count
        ),
        (0, 0, 1)
    );
    assert_eq!(loaded(&transaction, 0, 0), Some(4));
    assert_eq!(loaded(&transaction, 1, 1), Some(7));
}

#[test]
fn staged_updates_are_loaded_from_storage_nonetheless() {
    let mut transaction = new_transaction(&[(0, 4)]);
    transaction.auth_tree_data_blocks_update_states.states[0].allocation_blocks_states[0].staged_update =
        AllocationBlockUpdateStagedUpdate::Update {
            encrypted_data: vec![0xff; 128],
        };
    let (_, _, result) = run(&mut transaction, &blocks_range((0, 0), (2, 0)));
    assert_eq!(result, Ok(()));
    assert_eq!(loaded(&transaction, 1, 0), Some(2));
}

#[test]
fn remaining_data_is_loaded_after_applying_updates() {
    let mut transaction = new_transaction(&[(0, 4)]);
    let states = &mut transaction.auth_tree_data_blocks_update_states;
    states.states[0].allocation_blocks_states[1].staged_update = AllocationBlockUpdateStagedUpdate::Update {
        encrypted_data: vec![0xff; 128],
    };
    states.apply_allocation_blocks_staged_updates(None, &bitmap());
    let (regions, offsets, result) = run(&mut transaction, &blocks_range((0, 0), (2, 0)));
    assert_eq!(result, Ok(()));
    assert_eq!(offsets, None);
    assert_eq!(regions, vec![(0, 4)]);
    assert_eq!(loaded(&transaction, 0, 0), Some(0));
    assert_eq!(loaded(&transaction, 1, 0), Some(2));
    assert_eq!(loaded(&transaction, 1, 1), Some(3));
    assert_eq!(
        transaction.auth_tree_data_blocks_update_states.states[0].allocation_blocks_states[1]
            .get_authenticated_encrypted_data(),
        Ok(&[0xffu8; 128][..])
    );
}

#[test]
fn unmodified_data_copied_to_the_journal_is_loaded() {
    let mut transaction = new_transaction(&[(0, 4)]);
    let states = &mut transaction.auth_tree_data_blocks_update_states;
    assert_eq!(
        states.assign_journal_staging_copy_block(AuthTreeDataBlocksUpdateStatesIndex { index: 0 }, loc(32)),
        Ok(())
    );
    // Modify and write out to the journal, then drop the cached data.
    states.states[0].allocation_blocks_states[0].staged_update = AllocationBlockUpdateStagedUpdate::Update {
        encrypted_data: vec![0xff; 128],
    };
    states.apply_allocation_blocks_staged_updates(None, &bitmap());
    states.mark_states_clean(&blocks_range((0, 0), (2, 0)));
    let state = &mut states.states[0].allocation_blocks_states[0].nv_sync_state;
    match state {
        AllocationBlockUpdateNvSyncState::Allocated(AllocationBlockUpdateNvSyncStateAllocated::Modified(
            cocoonfs::block_state::AllocationBlockUpdateNvSyncStateAllocatedModified::JournalClean {
                cached_encrypted_data,
            },
        )) => *cached_encrypted_data = None,
        _ => unreachable!(),
    }
    let (regions, _, result) = run(&mut transaction, &blocks_range((0, 0), (1, 0)));
    assert_eq!(result, Ok(()));
    assert_eq!(regions, vec![(32, 36)]);
    // The Journal Staging Copy had been disguised.
    match &transaction.auth_tree_data_blocks_update_states.states[0].allocation_blocks_states[0].nv_sync_state {
        AllocationBlockUpdateNvSyncState::Allocated(AllocationBlockUpdateNvSyncStateAllocated::Modified(
            cocoonfs::block_state::AllocationBlockUpdateNvSyncStateAllocatedModified::JournalClean {
                cached_encrypted_data: Some(data),
            },
        )) => assert_eq!(data.get_encrypted_data(), &[32u8 | 0x80; 128][..]),
        _ => panic!("data not loaded"),
    }
}

#[test]
fn inconsistent_states_are_recognized() {
    let mut transaction = new_transaction(&[(0, 8)]);
    // Something uninitialized next to something missing.
    transaction.auth_tree_data_blocks_update_states.states[1].allocation_blocks_states[1].nv_sync_state =
        AllocationBlockUpdateNvSyncState::Unallocated(AllocationBlockUpdateNvSyncStateUnallocated {
            random_fillup: None,
            copied_to_journal: false,
            target_state: AllocationBlockUpdateNvSyncStateUnallocatedTargetState::Unallocated {
                is_initialized: false,
            },
        });
    // The request extends to the whole IO block.
    assert!(!transaction.test_request_consistent(&blocks_range((0, 0), (0, 1))));
    assert!(!transaction.test_request_consistent(&blocks_range((0, 0), (4, 0))));
    assert!(transaction.test_request_consistent(&blocks_range((2, 0), (4, 0))));
    assert!(transaction.test_request_consistent(&blocks_range((0, 0), (0, 0))));
}

#[test]
fn read_failures_are_reported() {
    let mut transaction = new_transaction(&[(0, 4)]);
    let mut fut = TransactionReadMissingDataFuture::new(&transaction, &blocks_range((0, 0), (2, 0)));
    let request = fut.poll(&mut transaction, &bitmap(), None, &undisguise);
    assert!(matches!(request, TransactionReadMissingDataFuturePoll::Read(_)));
    match fut.poll(&mut transaction, &bitmap(), Some(Err(NvBlkDevIoError::IoFailure)), &undisguise) {
        TransactionReadMissingDataFuturePoll::Ready { offsets, result } => {
            assert_eq!(offsets, None);
            assert_eq!(result, Err(NvFsError::IoError(NvFsIoError::IoFailure)));
        }
        _ => panic!("not complete"),
    }
    assert_eq!(loaded(&transaction, 0, 0), None);
}

#[test]
fn empty_request_completes_immediately() {
    let mut transaction = new_transaction(&[(0, 4)]);
    let (regions, offsets, result) = run(&mut transaction, &blocks_range((1, 0), (1, 0)));
    assert_eq!((regions, offsets, result), (vec![], None, Ok(())));
}
