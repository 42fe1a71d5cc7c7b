use cocoonfs::block_state::{
    AllocationBlockUpdateNvSyncState, AllocationBlockUpdateNvSyncStateAllocated,
    AllocationBlockUpdateNvSyncStateAllocatedModified, AllocationBlockUpdateNvSyncStateAllocatedUnmodified,
    AllocationBlockUpdateNvSyncStateUnallocated, AllocationBlockUpdateNvSyncStateUnallocatedTargetState,
    AllocationBlockUpdateStagedUpdate, AllocationBlockUpdateState, CachedEncryptedAllocationBlockData,
};
use cocoonfs::fs::NvFsError;

fn cached(data: u8, authenticated: bool) -> CachedEncryptedAllocationBlockData {
    let mut cached = CachedEncryptedAllocationBlockData::new(vec![data; 4]);
    if authenticated {
        cached.set_authenticated();
    }
    cached
}

fn unmodified(cached_encrypted_data: Option<CachedEncryptedAllocationBlockData>) -> AllocationBlockUpdateNvSyncState {
    AllocationBlockUpdateNvSyncState::Allocated(AllocationBlockUpdateNvSyncStateAllocated::Unmodified(
        AllocationBlockUpdateNvSyncStateAllocatedUnmodified {
            cached_encrypted_data,
            copied_to_journal: false,
        },
    ))
}

fn dirty(data: u8) -> AllocationBlockUpdateNvSyncState {
    AllocationBlockUpdateNvSyncState::Allocated(AllocationBlockUpdateNvSyncStateAllocated::Modified(
        AllocationBlockUpdateNvSyncStateAllocatedModified::JournalDirty {
            authenticated_encrypted_data: vec![data; 4],
        },
    ))
}

fn unallocated() -> AllocationBlockUpdateNvSyncState {
    AllocationBlockUpdateNvSyncState::Unallocated(AllocationBlockUpdateNvSyncStateUnallocated {
        random_fillup: None,
        copied_to_journal: false,
        target_state: AllocationBlockUpdateNvSyncStateUnallocatedTargetState::Unallocated { is_initialized: false },
    })
}

fn state(
    nv_sync_state: AllocationBlockUpdateNvSyncState,
    staged_update: AllocationBlockUpdateStagedUpdate,
) -> AllocationBlockUpdateState {
    AllocationBlockUpdateState {
        nv_sync_state,
        staged_update,
    }
}

#[test]
fn cached_data_is_unauthenticated_initially() {
    let mut c = cached(1, false);
    assert!(!c.is_authenticated());
    assert_eq!(c.get_encrypted_data(), &[1u8; 4][..]);
    c.set_authenticated();
    assert!(c.is_authenticated());
    assert_eq!(c.into_encrypted_data(), vec![1u8; 4]);
}

#[test]
fn unallocated_target_initialization() {
    assert!(
        !AllocationBlockUpdateNvSyncStateUnallocatedTargetState::Unallocated { is_initialized: false }.is_initialized()
    );
    assert!(
        AllocationBlockUpdateNvSyncStateUnallocatedTargetState::Unallocated { is_initialized: true }.is_initialized()
    );
    assert!(AllocationBlockUpdateNvSyncStateUnallocatedTargetState::Allocated.is_initialized());
}

#[test]
fn modifications_are_detected() {
    let none = AllocationBlockUpdateStagedUpdate::NoUpdate;
    assert!(!state(unmodified(None), none).has_modified_data());
    assert!(state(dirty(1), AllocationBlockUpdateStagedUpdate::NoUpdate).has_modified_data());
    assert!(state(unmodified(None), AllocationBlockUpdateStagedUpdate::FailedUpdate).has_modified_data());
    assert!(
        state(
            unmodified(None),
            AllocationBlockUpdateStagedUpdate::Update {
                encrypted_data: vec![3; 4]
            }
        )
        .has_modified_data()
    );
    assert!(!state(unallocated(), AllocationBlockUpdateStagedUpdate::NoUpdate).has_modified_data());
}

#[test]
fn loaded_data_is_determined() {
    assert_eq!(
        state(unmodified(None), AllocationBlockUpdateStagedUpdate::NoUpdate).has_encrypted_data_loaded(),
        None
    );
    assert_eq!(
        state(unmodified(Some(cached(1, false))), AllocationBlockUpdateStagedUpdate::NoUpdate)
            .has_encrypted_data_loaded(),
        Some(false)
    );
    assert_eq!(
        state(unmodified(Some(cached(1, true))), AllocationBlockUpdateStagedUpdate::NoUpdate)
            .has_encrypted_data_loaded(),
        Some(true)
    );
    assert_eq!(
        state(dirty(1), AllocationBlockUpdateStagedUpdate::NoUpdate).has_encrypted_data_loaded(),
        Some(true)
    );
}

#[test]
fn staged_update_supersedes_loaded_data() {
    let s = state(
        unmodified(Some(cached(1, true))),
        AllocationBlockUpdateStagedUpdate::Update {
            encrypted_data: vec![9; 4],
        },
    );
    assert_eq!(s.get_authenticated_encrypted_data(), Ok(&[9u8; 4][..]));
}

#[test]
fn authenticated_data_is_accessible() {
    let s = state(unmodified(Some(cached(1, true))), AllocationBlockUpdateStagedUpdate::NoUpdate);
    assert_eq!(s.get_authenticated_encrypted_data(), Ok(&[1u8; 4][..]));
    let s = state(dirty(5), AllocationBlockUpdateStagedUpdate::NoUpdate);
    assert_eq!(s.get_authenticated_encrypted_data(), Ok(&[5u8; 4][..]));
}

#[test]
fn unauthenticated_or_missing_data_is_not_accessible() {
    let s = state(unallocated(), AllocationBlockUpdateStagedUpdate::NoUpdate);
    assert_eq!(s.has_encrypted_data_loaded(), None);
    assert_eq!(s.get_authenticated_encrypted_data(), Err(NvFsError::Internal));
    let s = state(dirty(1), AllocationBlockUpdateStagedUpdate::Deallocate);
    assert_eq!(s.has_encrypted_data_loaded(), None);
    assert_eq!(s.get_authenticated_encrypted_data(), Err(NvFsError::Internal));
    let s = state(unmodified(None), AllocationBlockUpdateStagedUpdate::NoUpdate);
    assert_eq!(s.get_authenticated_encrypted_data(), Err(NvFsError::Internal));
    let s = state(unmodified(Some(cached(1, false))), AllocationBlockUpdateStagedUpdate::NoUpdate);
    assert_eq!(s.get_authenticated_encrypted_data(), Err(NvFsError::Internal));
}

#[test]
fn failed_update_is_reported_as_loaded() {
    let s = state(unmodified(None), AllocationBlockUpdateStagedUpdate::FailedUpdate);
    assert_eq!(s.has_encrypted_data_loaded(), Some(true));
    assert_eq!(s.get_authenticated_encrypted_data(), Err(NvFsError::FailedDataUpdateRead));
}

#[test]
fn nothing_is_read_back_after_a_failed_update() {
    let s = state(unmodified(Some(cached(1, true))), AllocationBlockUpdateStagedUpdate::FailedUpdate);
    assert_eq!(s.get_authenticated_encrypted_data(), Err(NvFsError::FailedDataUpdateRead));
    let s = state(dirty(1), AllocationBlockUpdateStagedUpdate::FailedUpdate);
    assert_eq!(s.get_authenticated_encrypted_data(), Err(NvFsError::FailedDataUpdateRead));
}
