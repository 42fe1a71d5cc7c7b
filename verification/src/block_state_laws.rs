//! Relations between the operations on individual Allocation Blocks' update
//! tracking states.
use crate::apply;
use crate::block_state::{
    AllocationBlockUpdateNvSyncState, AllocationBlockUpdateNvSyncStateAllocated,
    AllocationBlockUpdateNvSyncStateAllocatedModified, AllocationBlockUpdateNvSyncStateAllocatedUnmodified,
    AllocationBlockUpdateNvSyncStateUnallocated, AllocationBlockUpdateNvSyncStateUnallocatedTargetState,
    AllocationBlockUpdateStagedUpdate, AllocationBlockUpdateState, CachedEncryptedAllocationBlockData,
};
use crate::digest;
use crate::fs::{CryptoError, NvFsError};
use crate::iter;
use crate::read_region::AllocationBlockNvSyncStateInfo;
use vstd::prelude::*;

verus! {

/// An allocated Allocation Block not modified by the transaction.
pub open spec fn unmodified(
    cached_encrypted_data: Option<CachedEncryptedAllocationBlockData>,
    copied_to_journal: bool,
) -> AllocationBlockUpdateNvSyncState {
    AllocationBlockUpdateNvSyncState::Allocated(
        AllocationBlockUpdateNvSyncStateAllocated::Unmodified(
            AllocationBlockUpdateNvSyncStateAllocatedUnmodified { cached_encrypted_data, copied_to_journal },
        ),
    )
}

/// An allocated Allocation Block with modifications not written to the Journal
/// Staging Copy yet.
pub open spec fn dirty(authenticated_encrypted_data: Vec<u8>) -> AllocationBlockUpdateNvSyncState {
    AllocationBlockUpdateNvSyncState::Allocated(
        AllocationBlockUpdateNvSyncStateAllocated::Modified(
            AllocationBlockUpdateNvSyncStateAllocatedModified::JournalDirty { authenticated_encrypted_data },
        ),
    )
}

/// An allocated Allocation Block with its modifications written to the Journal
/// Staging Copy.
pub open spec fn clean(
    cached_encrypted_data: Option<CachedEncryptedAllocationBlockData>,
) -> AllocationBlockUpdateNvSyncState {
    AllocationBlockUpdateNvSyncState::Allocated(
        AllocationBlockUpdateNvSyncStateAllocated::Modified(
            AllocationBlockUpdateNvSyncStateAllocatedModified::JournalClean { cached_encrypted_data },
        ),
    )
}

/// An unallocated Allocation Block.
pub open spec fn unallocated(
    random_fillup: Option<Vec<u8>>,
    copied_to_journal: bool,
    target_state: AllocationBlockUpdateNvSyncStateUnallocatedTargetState,
) -> AllocationBlockUpdateNvSyncState {
    AllocationBlockUpdateNvSyncState::Unallocated(
        AllocationBlockUpdateNvSyncStateUnallocated { random_fillup, copied_to_journal, target_state },
    )
}

/// There's something initialized at the target location.
pub open spec fn target_initialized(
    target_state: AllocationBlockUpdateNvSyncStateUnallocatedTargetState,
) -> bool {
    target_state != (AllocationBlockUpdateNvSyncStateUnallocatedTargetState::Unallocated { is_initialized: false })
}

/// A state with nothing staged.
pub open spec fn idle(nv_sync_state: AllocationBlockUpdateNvSyncState) -> AllocationBlockUpdateState {
    AllocationBlockUpdateState { nv_sync_state, staged_update: AllocationBlockUpdateStagedUpdate::NoUpdate }
}

/// A staged update is what's read back, regardless of what had been there before.
pub proof fn law_staged_data_is_read_back(state: AllocationBlockUpdateState, data: Vec<u8>)
    requires
        state.staged_update == (AllocationBlockUpdateStagedUpdate::Update { encrypted_data: data }),
    ensures
        state.authenticated_data() == Some(data@),
        state.data_loaded() == Some(true),
        state.modified(),
        iter::staging_buf(state) == data@,
        iter::staging_buf_error(state) is None <==> data@.len() > 0,
        apply::has_staging_buf(state) <==> data@.len() > 0,
{
}

/// Nothing is read back after a deallocation has been staged or an update failed,
/// regardless of what had been there before, and there is no staging buffer.
pub proof fn law_nothing_is_read_back_without_data(state: AllocationBlockUpdateState)
    ensures
        state.staged_update is Deallocate || state.staged_update is FailedUpdate ==> state.authenticated_data() is None,
        state.staged_update is Deallocate ==> state.data_loaded() is None && (state.modified()
            <==> state.nv_sync_state.modified()),
        // A failed update is not attempted to get read from storage.
        state.staged_update is FailedUpdate ==> state.data_loaded() == Some(true) && state.modified()
            && iter::staging_buf_error(state) == Some(CryptoError::BufferStateIndeterminate),
        !(state.staged_update is Update) ==> iter::staging_buf_error(state) is Some && !apply::has_staging_buf(state),
{
}

/// Cached data is read back and contributes to the authentication digest once it's
/// been authenticated, and not any earlier. Whether or not the Allocation Block has
/// been modified or written to the Journal Staging Copy doesn't matter.
pub proof fn law_cached_data_is_read_back_once_authenticated(
    cached: CachedEncryptedAllocationBlockData,
    copied_to_journal: bool,
    nv_sync_state: AllocationBlockUpdateNvSyncState,
)
    requires
        nv_sync_state == unmodified(Some(cached), copied_to_journal) || nv_sync_state == clean(Some(cached)),
    ensures
        idle(nv_sync_state).data_loaded() == Some(cached.authenticated),
        idle(nv_sync_state).authenticated_data() == if cached.authenticated {
            Some(cached.encrypted_data@)
        } else {
            None
        },
        digest::digest_contribution(idle(nv_sync_state), true) == if cached.authenticated {
            Ok::<Option<Seq<u8>>, NvFsError>(Some(cached.encrypted_data@))
        } else {
            Err(NvFsError::Internal)
        },
        digest::digest_contribution(idle(nv_sync_state), false) == Ok::<Option<Seq<u8>>, NvFsError>(
            Some(cached.encrypted_data@),
        ),
        nv_sync_state.info() is HasDataLoaded,
        !nv_sync_state.lacks_data(),
{
}

/// Applied updates are read back and contribute to the authentication digest.
pub proof fn law_applied_data_is_read_back(data: Vec<u8>)
    ensures
        idle(dirty(data)).data_loaded() == Some(true),
        idle(dirty(data)).authenticated_data() == Some(data@),
        digest::digest_contribution(idle(dirty(data)), true) == Ok::<Option<Seq<u8>>, NvFsError>(Some(data@)),
        digest::digest_contribution(idle(dirty(data)), false) == Ok::<Option<Seq<u8>>, NvFsError>(Some(data@)),
        dirty(data).info() is HasDataLoaded,
        !dirty(data).lacks_data(),
{
}

/// Nothing is read back for an allocated Allocation Block with its data missing. It
/// must get read first, from wherever its current contents are found.
pub proof fn law_missing_data_is_not_read_back(
    copied_to_journal: bool,
    nv_sync_state: AllocationBlockUpdateNvSyncState,
    expect_authenticated_data: bool,
)
    requires
        nv_sync_state == unmodified(None, copied_to_journal) || nv_sync_state == clean(None),
    ensures
        idle(nv_sync_state).data_loaded() is None,
        idle(nv_sync_state).authenticated_data() is None,
        digest::digest_contribution(idle(nv_sync_state), expect_authenticated_data) == Err::<Option<Seq<u8>>, NvFsError>(
            NvFsError::Internal,
        ),
        nv_sync_state.lacks_data(),
        // The target location does not have the modifications, the Journal Staging Copy has
        // only if written to.
        nv_sync_state == unmodified(None, copied_to_journal) ==> nv_sync_state.info() == (
        AllocationBlockNvSyncStateInfo::NeedsDataRead {
            can_read_from_target: true,
            can_read_from_journal: copied_to_journal,
        }),
        nv_sync_state == clean(None) ==> nv_sync_state.info() == (AllocationBlockNvSyncStateInfo::NeedsDataRead {
            can_read_from_target: false,
            can_read_from_journal: true,
        }),
{
}

/// Unallocated Allocation Blocks have no data and don't contribute to the
/// authentication digest. Their contents are of interest only for being written back,
/// if there's anything initialized on storage.
pub proof fn law_unallocated_blocks_have_no_data(
    random_fillup: Option<Vec<u8>>,
    copied_to_journal: bool,
    target_state: AllocationBlockUpdateNvSyncStateUnallocatedTargetState,
    expect_authenticated_data: bool,
)
    ensures
        ({
            let nv_sync_state = unallocated(random_fillup, copied_to_journal, target_state);
            &&& idle(nv_sync_state).data_loaded() is None
            &&& idle(nv_sync_state).authenticated_data() is None
            &&& !idle(nv_sync_state).modified()
            &&& digest::digest_contribution(idle(nv_sync_state), expect_authenticated_data) == Ok::<
                Option<Seq<u8>>,
                NvFsError,
            >(None)
            &&& nv_sync_state.lacks_data() <==> random_fillup is None
            &&& nv_sync_state.info() is Uninitialized <==> !copied_to_journal && !target_initialized(target_state)
            &&& copied_to_journal || target_initialized(target_state) ==> if random_fillup is Some {
                nv_sync_state.info() is HasDataLoaded
            } else {
                nv_sync_state.info() == (AllocationBlockNvSyncStateInfo::NeedsDataRead {
                    can_read_from_target: target_initialized(target_state),
                    can_read_from_journal: copied_to_journal,
                })
            }
        }),
{
}

/// What an Allocation Block contributes to the authentication digest is what's read
/// back from it if there's nothing staged on top.
///
/// Something is contributed exactly if it can be read back, nothing exactly if
/// unallocated, and it's an error otherwise.
pub proof fn law_contribution_is_what_is_read_back(state: AllocationBlockUpdateState)
    ensures
        ({
            let contribution = digest::digest_contribution(state, true);
            let read_back = idle(state.nv_sync_state).authenticated_data();
            &&& forall|data: Seq<u8>| contribution == Ok::<Option<Seq<u8>>, NvFsError>(Some(data)) <==> read_back == Some(
                data,
            )
            &&& contribution == Ok::<Option<Seq<u8>>, NvFsError>(None) <==> state.nv_sync_state is Unallocated
            &&& contribution is Err <==> state.nv_sync_state is Allocated && read_back is None
            &&& contribution matches Err(e) ==> e == NvFsError::Internal
        }),
        // Nothing staged contributes.
        digest::digest_contribution(state, true) == digest::digest_contribution(idle(state.nv_sync_state), true),
        digest::digest_contribution(state, false) == digest::digest_contribution(idle(state.nv_sync_state), false),
{
}

/// Writing a state to the Journal Staging Copy does not change what's read back from
/// it or what it contributes to the authentication digest.
pub proof fn law_writing_out_retains_contribution(
    state: AllocationBlockUpdateState,
    expect_authenticated_data: bool,
)
    ensures
        ({
            let written = AllocationBlockUpdateState {
                nv_sync_state: state.nv_sync_state.cleaned(),
                staged_update: state.staged_update,
            };
            &&& digest::digest_contribution(written, expect_authenticated_data) == digest::digest_contribution(
                state,
                expect_authenticated_data,
            )
            &&& written.authenticated_data() == state.authenticated_data()
            &&& written.data_loaded() == state.data_loaded()
            &&& written.modified() == state.modified()
        }),
{
}

/// The state with whatever is loaded for it dropped.
pub open spec fn dropped(nv_sync_state: AllocationBlockUpdateNvSyncState) -> AllocationBlockUpdateNvSyncState {
    match nv_sync_state {
        AllocationBlockUpdateNvSyncState::Unallocated(u) => unallocated(None, u.copied_to_journal, u.target_state),
        AllocationBlockUpdateNvSyncState::Allocated(
            AllocationBlockUpdateNvSyncStateAllocated::Unmodified(u),
        ) => unmodified(None, u.copied_to_journal),
        AllocationBlockUpdateNvSyncState::Allocated(
            AllocationBlockUpdateNvSyncStateAllocated::Modified(
                AllocationBlockUpdateNvSyncStateAllocatedModified::JournalClean { .. },
            ),
        ) => clean(None),
        // There'd be no other copy.
        AllocationBlockUpdateNvSyncState::Allocated(
            AllocationBlockUpdateNvSyncStateAllocated::Modified(
                AllocationBlockUpdateNvSyncStateAllocatedModified::JournalDirty { .. },
            ),
        ) => nv_sync_state,
    }
}

/// A state written to the Journal Staging Copy is recorded as present in there,
/// whatever is loaded for it: were that dropped, it could be read from the journal.
pub proof fn law_written_out_blocks_are_found_in_the_journal(nv_sync_state: AllocationBlockUpdateNvSyncState)
    ensures
        dropped(nv_sync_state.cleaned()).info() matches AllocationBlockNvSyncStateInfo::NeedsDataRead {
            can_read_from_journal,
            can_read_from_target,
        } && can_read_from_journal && (can_read_from_target <==> (dropped(nv_sync_state).info() matches
            AllocationBlockNvSyncStateInfo::NeedsDataRead { can_read_from_target, .. } && can_read_from_target)),
        match nv_sync_state.cleaned() {
            AllocationBlockUpdateNvSyncState::Unallocated(u) => {
                &&& u.copied_to_journal
                &&& nv_sync_state matches AllocationBlockUpdateNvSyncState::Unallocated(o) && u.random_fillup
                    == o.random_fillup && u.target_state == o.target_state
            },
            AllocationBlockUpdateNvSyncState::Allocated(
                AllocationBlockUpdateNvSyncStateAllocated::Unmodified(u),
            ) => u.copied_to_journal && exists|copied_to_journal: bool| nv_sync_state == #[trigger] unmodified(
                u.cached_encrypted_data,
                copied_to_journal,
            ),
            AllocationBlockUpdateNvSyncState::Allocated(
                AllocationBlockUpdateNvSyncStateAllocated::Modified(modified),
            ) => modified matches AllocationBlockUpdateNvSyncStateAllocatedModified::JournalClean {
                cached_encrypted_data,
            } && (nv_sync_state == clean(cached_encrypted_data) || (cached_encrypted_data matches Some(cached)
                && cached.authenticated && nv_sync_state == dirty(cached.encrypted_data))),
        },
{
    match nv_sync_state {
        AllocationBlockUpdateNvSyncState::Allocated(
            AllocationBlockUpdateNvSyncStateAllocated::Unmodified(u),
        ) => {
            assert(nv_sync_state == unmodified(u.cached_encrypted_data, u.copied_to_journal));
        },
        _ => {},
    }
}

/// Loading data read from storage makes it available, without changing anything else.
/// It's not considered authentic.
pub proof fn law_data_read_is_loaded(nv_sync_state: AllocationBlockUpdateNvSyncState, data: Vec<u8>)
    requires
        nv_sync_state.lacks_data(),
    ensures
        ({
            let loaded = nv_sync_state.with_data_read(data);
            &&& !loaded.lacks_data()
            &&& dropped(loaded) == nv_sync_state
            &&& nv_sync_state is Unallocated ==> (loaded matches AllocationBlockUpdateNvSyncState::Unallocated(u)
                && u.random_fillup == Some(data))
            &&& nv_sync_state is Allocated ==> {
                &&& idle(loaded).data_loaded() == Some(false)
                &&& idle(loaded).authenticated_data() is None
                &&& digest::digest_contribution(idle(loaded), true) is Err
                &&& digest::digest_contribution(idle(loaded), false) == Ok::<Option<Seq<u8>>, NvFsError>(Some(data@))
            }
            &&& nv_sync_state.info() is NeedsDataRead ==> loaded.info() is HasDataLoaded
            &&& nv_sync_state.info() is Uninitialized ==> loaded.info() is Uninitialized
        }),
{
}

/// Applying a staged update replaces the contents, a staged deallocation removes them,
/// and nothing else changes the storage tracking state.
///
/// Whenever there is a change, it's reported as such.
pub proof fn law_application_changes_are_reported(
    state: AllocationBlockUpdateState,
    was_allocated: bool,
    was_initialized: bool,
)
    ensures
        ({
            let applied = state.with_staged_applied(was_allocated, was_initialized);
            &&& applied.nv_sync_state != state.nv_sync_state ==> state.application_updates()
            &&& state.nv_sync_state is Allocated && applied.nv_sync_state is Unallocated ==> state.application_updates()
            &&& digest::digest_contribution(applied, false) != digest::digest_contribution(state, false)
                ==> state.application_updates()
            &&& digest::digest_contribution(applied, true) != digest::digest_contribution(state, true)
                ==> state.application_updates()
            &&& match state.staged_update {
                AllocationBlockUpdateStagedUpdate::Update { encrypted_data } => {
                    &&& applied == idle(dirty(encrypted_data))
                    &&& state.application_updates()
                },
                AllocationBlockUpdateStagedUpdate::Deallocate => {
                    &&& applied.staged_update is NoUpdate
                    &&& applied.nv_sync_state is Unallocated
                    &&& state.application_updates() <==> state.nv_sync_state is Allocated
                    &&& state.nv_sync_state is Unallocated ==> applied.nv_sync_state == state.nv_sync_state
                },
                AllocationBlockUpdateStagedUpdate::NoUpdate => applied == state && !state.application_updates(),
                AllocationBlockUpdateStagedUpdate::FailedUpdate => applied == state && !state.application_updates(),
            }
        }),
{
}

/// Deallocating an Allocation Block does not affect what's on storage: whatever is
/// initialized at its target location or in its Journal Staging Copy remains to be
/// found there, and any data loaded is retained for being written back.
pub proof fn law_deallocation_keeps_track_of_storage(
    state: AllocationBlockUpdateState,
    was_allocated: bool,
    was_initialized: bool,
)
    requires
        state.staged_update is Deallocate,
    ensures
        ({
            let old_state = state.nv_sync_state;
            let applied = state.with_staged_applied(was_allocated, was_initialized).nv_sync_state;
            &&& old_state is Unallocated ==> applied == old_state
            &&& forall|cached: Option<CachedEncryptedAllocationBlockData>, copied_to_journal: bool|
                old_state == #[trigger] unmodified(cached, copied_to_journal) ==> {
                    &&& applied matches AllocationBlockUpdateNvSyncState::Unallocated(u)
                    &&& applied == unallocated(
                        u.random_fillup,
                        copied_to_journal,
                        AllocationBlockUpdateNvSyncStateUnallocatedTargetState::Allocated,
                    )
                    &&& match cached {
                        Some(cached) => u.random_fillup == Some(cached.encrypted_data),
                        None => u.random_fillup is None,
                    }
                    // It's found where it had been found before.
                    &&& applied.info() == old_state.info()
                    &&& dropped(applied).info() == dropped(old_state).info()
                }
            &&& forall|cached: Option<CachedEncryptedAllocationBlockData>|
                old_state == #[trigger] clean(cached) ==> {
                    &&& applied matches AllocationBlockUpdateNvSyncState::Unallocated(u)
                    &&& u.copied_to_journal
                    &&& match cached {
                        Some(cached) => u.random_fillup == Some(cached.encrypted_data),
                        None => u.random_fillup is None,
                    }
                    &&& dropped(applied).info() == (AllocationBlockNvSyncStateInfo::NeedsDataRead {
                        can_read_from_target: was_allocated || was_initialized,
                        can_read_from_journal: true,
                    })
                }
            &&& forall|data: Vec<u8>|
                old_state == #[trigger] dirty(data) ==> {
                    &&& applied matches AllocationBlockUpdateNvSyncState::Unallocated(u) && u.random_fillup == Some(data)
                        && !u.copied_to_journal
                    &&& dropped(applied).info() == if was_allocated || was_initialized {
                        AllocationBlockNvSyncStateInfo::NeedsDataRead {
                            can_read_from_target: true,
                            can_read_from_journal: false,
                        }
                    } else {
                        AllocationBlockNvSyncStateInfo::Uninitialized
                    }
                }
            &&& was_allocated && old_state.modified() ==> (applied matches
                AllocationBlockUpdateNvSyncState::Unallocated(u) && u.target_state
                == AllocationBlockUpdateNvSyncStateUnallocatedTargetState::Allocated)
            &&& !was_allocated && old_state.modified() ==> (applied matches
                AllocationBlockUpdateNvSyncState::Unallocated(u) && u.target_state == (
            AllocationBlockUpdateNvSyncStateUnallocatedTargetState::Unallocated { is_initialized: was_initialized }))
        }),
{
}

/// Modifications are recorded as such for as long as the Allocation Block remains
/// allocated.
pub proof fn law_modifications_are_recorded(
    nv_sync_state: AllocationBlockUpdateNvSyncState,
    data: Vec<u8>,
)
    ensures
        nv_sync_state.modified() <==> idle(nv_sync_state).modified(),
        idle(dirty(data)).modified(),
        nv_sync_state.cleaned().modified() == nv_sync_state.modified(),
        nv_sync_state.with_data_read(data).modified() == nv_sync_state.modified(),
        nv_sync_state.modified() <==> {
            ||| exists|d: Vec<u8>| nv_sync_state == #[trigger] dirty(d)
            ||| exists|c: Option<CachedEncryptedAllocationBlockData>| nv_sync_state == #[trigger] clean(c)
        },
{
    match nv_sync_state {
        AllocationBlockUpdateNvSyncState::Allocated(
            AllocationBlockUpdateNvSyncStateAllocated::Modified(
                AllocationBlockUpdateNvSyncStateAllocatedModified::JournalClean { cached_encrypted_data },
            ),
        ) => {
            assert(nv_sync_state == clean(cached_encrypted_data));
        },
        AllocationBlockUpdateNvSyncState::Allocated(
            AllocationBlockUpdateNvSyncStateAllocated::Modified(
                AllocationBlockUpdateNvSyncStateAllocatedModified::JournalDirty { authenticated_encrypted_data },
            ),
        ) => {
            assert(nv_sync_state == dirty(authenticated_encrypted_data));
        },
        _ => {},
    }
}

/// An Allocation Block is tracked initially as it is found on storage: with nothing
/// loaded, modified or written to the journal.
pub proof fn law_fresh_states_reflect_storage(allocated: bool, io_block_initialized: bool)
    ensures
        ({
            let fresh = AllocationBlockUpdateNvSyncState::fresh(allocated, io_block_initialized);
            &&& fresh is Allocated <==> allocated
            &&& !fresh.modified()
            &&& fresh.lacks_data()
            &&& dropped(fresh) == fresh
            &&& fresh.info() is Uninitialized <==> !allocated && !io_block_initialized
            &&& allocated || io_block_initialized ==> fresh.info() == (AllocationBlockNvSyncStateInfo::NeedsDataRead {
                can_read_from_target: true,
                can_read_from_journal: false,
            })
            &&& !allocated ==> fresh == unallocated(
                None,
                false,
                AllocationBlockUpdateNvSyncStateUnallocatedTargetState::Unallocated {
                    is_initialized: io_block_initialized,
                },
            )
        }),
{
}

/// Allocating a staging buffer makes an update of the Allocation Block's size
/// accessible, without giving up one staged before.
pub proof fn law_allocated_staging_buffers_are_accessible(
    old_state: AllocationBlockUpdateState,
    new_state: AllocationBlockUpdateState,
    size: int,
)
    requires
        apply::staging_buf_allocated(old_state, new_state, size),
        size > 0,
    ensures
        new_state.nv_sync_state == old_state.nv_sync_state,
        iter::staging_buf_error(new_state) is None,
        new_state.authenticated_data() == Some(iter::staging_buf(new_state)),
        match old_state.staged_update {
            AllocationBlockUpdateStagedUpdate::Update { encrypted_data } => if encrypted_data@.len() > 0 {
                new_state == old_state
            } else {
                iter::staging_buf(new_state).len() == size
            },
            _ => iter::staging_buf(new_state).len() == size,
        },
        iter::staging_buf_error(old_state) is Some ==> forall|i: int|
            0 <= i < size ==> iter::staging_buf(new_state)[i] == 0u8,
{
}

/// Data lacking is either to be read from storage or there is none, and anything not
/// lacking data has it loaded already.
pub proof fn law_lacking_data_is_read_or_uninitialized(nv_sync_state: AllocationBlockUpdateNvSyncState)
    ensures
        nv_sync_state.info() is NeedsDataRead ==> nv_sync_state.lacks_data(),
        nv_sync_state.info() is HasDataLoaded ==> !nv_sync_state.lacks_data(),
        nv_sync_state is Allocated ==> (nv_sync_state.lacks_data() <==> nv_sync_state.data() is None),
        nv_sync_state is Allocated ==> (nv_sync_state.lacks_data() <==> nv_sync_state.info() is NeedsDataRead),
        nv_sync_state matches AllocationBlockUpdateNvSyncState::Unallocated(unallocated) ==> (
        nv_sync_state.lacks_data() <==> unallocated.random_fillup is None),
        nv_sync_state.info() is Uninitialized ==> nv_sync_state is Unallocated,
{
}

} // verus!
