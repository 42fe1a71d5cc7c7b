//! Update tracking state of individual Allocation Blocks.
use crate::fs::NvFsError;
use vstd::prelude::*;

verus! {

/// Cached Allocation Block data.
///
/// The cached data itself is amended by a flag whether or not it's
/// authenticated.
pub struct CachedEncryptedAllocationBlockData {
    /// The Allocation Block's encrypted data.
    pub encrypted_data: Vec<u8>,
    /// Whether or not `encrypted_data` is authenticated.
    pub authenticated: bool,
}

impl CachedEncryptedAllocationBlockData {
    /// Instantiate a [`CachedEncryptedAllocationBlockData`].
    ///
    /// The `encrypted_data` is initially tracked as unauthenticated.
    pub fn new(encrypted_data: Vec<u8>) -> (r: Self)
        requires
            encrypted_data@.len() > 0,
        ensures
            r.encrypted_data == encrypted_data,
            !r.authenticated,
    {
        CachedEncryptedAllocationBlockData { encrypted_data, authenticated: false }
    }

    /// Get the cached data.
    pub fn get_encrypted_data(&self) -> (r: &[u8])
        ensures
            r@ == self.encrypted_data@,
    {
        self.encrypted_data.as_slice()
    }

    /// Whether or not the cached data is authenticated.
    pub fn is_authenticated(&self) -> (r: bool)
        ensures
            r == self.authenticated,
    {
        self.authenticated
    }

    /// Mark the cached data as authenticated.
    pub fn set_authenticated(&mut self)
        ensures
            final(self).authenticated,
            final(self).encrypted_data == old(self).encrypted_data,
    {
        self.authenticated = true;
    }

    /// Obtain the cached data back.
    pub fn into_encrypted_data(self) -> (r: Vec<u8>)
        ensures
            r == self.encrypted_data,
    {
        self.encrypted_data
    }
}

/// Details specific to the
/// [`AllocationBlockUpdateNvSyncStateAllocated::Unmodified`] state.
pub struct AllocationBlockUpdateNvSyncStateAllocatedUnmodified {
    /// Cached Allocation Block data, if any.
    pub cached_encrypted_data: Option<CachedEncryptedAllocationBlockData>,
    /// Whether or not the unmodified data has been copied over to the Journal
    /// Staging Copy already.
    pub copied_to_journal: bool,
}

/// Details specific to the
/// [`AllocationBlockUpdateNvSyncStateAllocated::Modified`] state.
pub enum AllocationBlockUpdateNvSyncStateAllocatedModified {
    /// The most recently applied staged update has not been written out to the
    /// Journal Staging Copy yet.
    JournalDirty {
        /// The encrypted data as applied from a staged update.
        ///
        /// As the data is not coming from external storage, it's always
        /// considered genuine.
        authenticated_encrypted_data: Vec<u8>,
    },
    /// The most recently applied staged update has been written out to the
    /// Journal Staging Copy.
    JournalClean {
        /// Cached Allocation Block data, if any.
        cached_encrypted_data: Option<CachedEncryptedAllocationBlockData>,
    },
}

/// Details specific to the [`AllocationBlockUpdateNvSyncState::Allocated`]
/// state.
pub enum AllocationBlockUpdateNvSyncStateAllocated {
    /// No staged update has been applied to the Allocation Block's storage
    /// tracking state yet.
    Unmodified(AllocationBlockUpdateNvSyncStateAllocatedUnmodified),
    /// Some staged update has been applied to the Allocation Block's storage
    /// tracking state.
    Modified(AllocationBlockUpdateNvSyncStateAllocatedModified),
}

/// Representation of
/// [`AllocationBlockUpdateNvSyncStateUnallocated::target_state`].
#[derive(Clone, Copy, Debug, PartialEq, Eq, Structural)]
pub enum AllocationBlockUpdateNvSyncStateUnallocatedTargetState {
    /// The target Allocation Block had been unallocated before the
    /// transaction, and remains so.
    ///
    /// `is_initialized` is set to true if the target Allocation Block can be
    /// considered to have been filled with essentially random data.
    Unallocated { is_initialized: bool },
    /// The target Allocation Block had been allocated before the transaction,
    /// but got deallocated in the course.
    Allocated,
}

impl AllocationBlockUpdateNvSyncStateUnallocatedTargetState {
    /// Determine whether the target Allocation Block can be considered to have
    /// been filled with essentially random data.
    pub fn is_initialized(&self) -> (r: bool)
        ensures
            r == (match *self {
                AllocationBlockUpdateNvSyncStateUnallocatedTargetState::Unallocated { is_initialized } => {
                    is_initialized
                },
                AllocationBlockUpdateNvSyncStateUnallocatedTargetState::Allocated => true,
            }),
    {
        match self {
            AllocationBlockUpdateNvSyncStateUnallocatedTargetState::Unallocated { is_initialized } => {
                *is_initialized
            },
            AllocationBlockUpdateNvSyncStateUnallocatedTargetState::Allocated => true,
        }
    }
}

/// Details specific to the [`AllocationBlockUpdateNvSyncState::Unallocated`]
/// state.
pub struct AllocationBlockUpdateNvSyncStateUnallocated {
    /// (Essentially) random data to write to the unallocated Allocation Block.
    pub random_fillup: Option<Vec<u8>>,
    /// Whether or not some essentially random data has been writen to the
    /// Journal Staging Copy already.
    pub copied_to_journal: bool,
    /// Details about the target Allocation Block's state from before the
    /// transaction.
    pub target_state: AllocationBlockUpdateNvSyncStateUnallocatedTargetState,
}

/// Representation of the [`AllocationBlockUpdateState::nv_sync_state`] field.
pub enum AllocationBlockUpdateNvSyncState {
    /// The Allocation Block is allocated.
    Allocated(AllocationBlockUpdateNvSyncStateAllocated),
    /// The Allocation Block is unallocated.
    Unallocated(AllocationBlockUpdateNvSyncStateUnallocated),
}

impl AllocationBlockUpdateNvSyncState {
    /// An allocated Allocation Block's data together with its authentication
    /// status, if available.
    pub open spec fn data(&self) -> Option<(Seq<u8>, bool)> {
        match *self {
            AllocationBlockUpdateNvSyncState::Unallocated(_) => None,
            AllocationBlockUpdateNvSyncState::Allocated(
                AllocationBlockUpdateNvSyncStateAllocated::Unmodified(unmodified),
            ) => match unmodified.cached_encrypted_data {
                Some(cached) => Some((cached.encrypted_data@, cached.authenticated)),
                None => None,
            },
            AllocationBlockUpdateNvSyncState::Allocated(
                AllocationBlockUpdateNvSyncStateAllocated::Modified(modified),
            ) => match modified {
                AllocationBlockUpdateNvSyncStateAllocatedModified::JournalDirty { authenticated_encrypted_data } => {
                    Some((authenticated_encrypted_data@, true))
                },
                AllocationBlockUpdateNvSyncStateAllocatedModified::JournalClean { cached_encrypted_data } => {
                    match cached_encrypted_data {
                        Some(cached) => Some((cached.encrypted_data@, cached.authenticated)),
                        None => None,
                    }
                },
            },
        }
    }

    /// Whether some staged update has been applied.
    pub open spec fn modified(&self) -> bool {
        *self matches AllocationBlockUpdateNvSyncState::Allocated(
            AllocationBlockUpdateNvSyncStateAllocated::Modified(_),
        )
    }

    /// The state an Allocation Block is tracked in initially.
    pub open spec fn fresh(allocated: bool, io_block_initialized: bool) -> Self {
        if allocated {
            AllocationBlockUpdateNvSyncState::Allocated(
                AllocationBlockUpdateNvSyncStateAllocated::Unmodified(
                    AllocationBlockUpdateNvSyncStateAllocatedUnmodified {
                        cached_encrypted_data: None,
                        copied_to_journal: false,
                    },
                ),
            )
        } else {
            AllocationBlockUpdateNvSyncState::Unallocated(
                AllocationBlockUpdateNvSyncStateUnallocated {
                    random_fillup: None,
                    copied_to_journal: false,
                    target_state: AllocationBlockUpdateNvSyncStateUnallocatedTargetState::Unallocated {
                        is_initialized: io_block_initialized,
                    },
                },
            )
        }
    }
}

/// Representation of the [`AllocationBlockUpdateState::staged_update`] field.
pub enum AllocationBlockUpdateStagedUpdate {
    /// No update staged.
    NoUpdate,
    /// The Allocation Block is to get deallocated.
    Deallocate,
    /// The Allocation Block's contents are to get overwritten with
    /// `encrypted_data`.
    Update { encrypted_data: Vec<u8> },
    /// A previous update to either the Allocation Block itself or some other
    /// in a logical sequence it's a member of failed and the contents are to
    /// be considered indeterminate.
    ///
    /// A subsequent update staging operation may move the state out of
    /// `FailedUpdate` again.
    FailedUpdate,
}

/// Update status of a single Allocation Block.
pub struct AllocationBlockUpdateState {
    /// The Allocation Block's update status on storage.
    pub nv_sync_state: AllocationBlockUpdateNvSyncState,
    /// The update staged for application to the Allocation Block's storage
    /// tracking state, if any.
    pub staged_update: AllocationBlockUpdateStagedUpdate,
}

impl AllocationBlockUpdateState {
    /// Whether the Allocation Block has its data updated by the transaction.
    ///
    /// A failed update is considered to be a modification.
    pub open spec fn modified(&self) -> bool {
        ||| self.staged_update is Update
        ||| self.staged_update is FailedUpdate
        ||| self.nv_sync_state.modified()
    }

    /// Whether the Allocation Block's data is available, and if so, whether it
    /// is authenticated.
    pub open spec fn data_loaded(&self) -> Option<bool> {
        match self.staged_update {
            AllocationBlockUpdateStagedUpdate::Update { .. } => Some(true),
            AllocationBlockUpdateStagedUpdate::Deallocate => None,
            AllocationBlockUpdateStagedUpdate::FailedUpdate => Some(true),
            AllocationBlockUpdateStagedUpdate::NoUpdate => match self.nv_sync_state.data() {
                Some((_, authenticated)) => Some(authenticated),
                None => None,
            },
        }
    }

    /// The Allocation Block's authenticated data, if available.
    ///
    /// There's none after a failed update, the contents are indeterminate then.
    pub open spec fn authenticated_data(&self) -> Option<Seq<u8>> {
        match self.staged_update {
            AllocationBlockUpdateStagedUpdate::Update { encrypted_data } => Some(encrypted_data@),
            AllocationBlockUpdateStagedUpdate::Deallocate => None,
            AllocationBlockUpdateStagedUpdate::FailedUpdate => None,
            AllocationBlockUpdateStagedUpdate::NoUpdate => match self.nv_sync_state.data() {
                Some((data, true)) => Some(data),
                _ => None,
            },
        }
    }

    /// Determine whether the Allocation Block is allocated and has its data
    /// updated by the transaction.
    pub fn has_modified_data(&self) -> (r: bool)
        ensures
            r == self.modified(),
    {
        // Consider a failed update as a modification so that any attempt to
        // subsequently read it will report an error as appropriate.
        matches!(
            self.staged_update,
            AllocationBlockUpdateStagedUpdate::Update { .. } | AllocationBlockUpdateStagedUpdate::FailedUpdate
        ) || matches!(
            self.nv_sync_state,
            AllocationBlockUpdateNvSyncState::Allocated(AllocationBlockUpdateNvSyncStateAllocated::Modified(..))
        )
    }

    /// Determine whether the [`AllocationBlockUpdateState`] has the Allocation
    /// Block's data loaded and authenticated.
    pub fn has_encrypted_data_loaded(&self) -> (r: Option<bool>)
        ensures
            r == self.data_loaded(),
    {
        match &self.staged_update {
            AllocationBlockUpdateStagedUpdate::NoUpdate => (),
            AllocationBlockUpdateStagedUpdate::Update { .. } => {
                return Some(true);
            },
            AllocationBlockUpdateStagedUpdate::Deallocate => {
                return None;
            },
            AllocationBlockUpdateStagedUpdate::FailedUpdate => {
                // The Allocation Block's contents are indeterminate. Return a
                // fake indication that the data is loaded, so that it will not
                // be attempted to get read from storage and an error will get
                // reported upon subsequently accessing it.
                return Some(true);
            },
        }
        match &self.nv_sync_state {
            AllocationBlockUpdateNvSyncState::Unallocated(_) => None,
            AllocationBlockUpdateNvSyncState::Allocated(allocated_state) => match allocated_state {
                AllocationBlockUpdateNvSyncStateAllocated::Unmodified(unmodified_state) => {
                    match &unmodified_state.cached_encrypted_data {
                        Some(cached_encrypted_data) => Some(cached_encrypted_data.is_authenticated()),
                        None => None,
                    }
                },
                AllocationBlockUpdateNvSyncStateAllocated::Modified(modified_state) => match modified_state {
                    AllocationBlockUpdateNvSyncStateAllocatedModified::JournalClean { cached_encrypted_data } => {
                        match cached_encrypted_data {
                            Some(cached_encrypted_data) => Some(cached_encrypted_data.is_authenticated()),
                            None => None,
                        }
                    },
                    AllocationBlockUpdateNvSyncStateAllocatedModified::JournalDirty { .. } => Some(true),
                },
            },
        }
    }

    /// Access the Allocation Block's authenticated encrypted data.
    ///
    /// Must get called only if
    /// [`has_encrypted_data_loaded()`](Self::has_encrypted_data_loaded) returns
    /// true.
    ///
    /// If a previous update has failed, an error of
    /// [`FailedDataUpdateRead`](NvFsError::FailedDataUpdateRead) is returned.
    pub fn get_authenticated_encrypted_data(&self) -> (r: Result<&[u8], NvFsError>)
        ensures
            match self.authenticated_data() {
                Some(data) => r matches Ok(d) && d@ == data,
                None => r == Err::<&[u8], NvFsError>(
                    if self.staged_update is FailedUpdate {
                        NvFsError::FailedDataUpdateRead
                    } else {
                        NvFsError::Internal
                    },
                ),
            },
    {
        match &self.staged_update {
            AllocationBlockUpdateStagedUpdate::NoUpdate => (),
            AllocationBlockUpdateStagedUpdate::Update { encrypted_data } => {
                return Ok(encrypted_data.as_slice());
            },
            AllocationBlockUpdateStagedUpdate::Deallocate => {
                return Err(NvFsError::Internal);
            },
            AllocationBlockUpdateStagedUpdate::FailedUpdate => {
                return Err(NvFsError::FailedDataUpdateRead);
            },
        }
        match &self.nv_sync_state {
            AllocationBlockUpdateNvSyncState::Unallocated(_) => Err(NvFsError::Internal),
            AllocationBlockUpdateNvSyncState::Allocated(allocated_state) => match allocated_state {
                AllocationBlockUpdateNvSyncStateAllocated::Unmodified(unmodified_state) => {
                    match &unmodified_state.cached_encrypted_data {
                        Some(cached_encrypted_data) => {
                            if cached_encrypted_data.is_authenticated() {
                                Ok(cached_encrypted_data.get_encrypted_data())
                            } else {
                                Err(NvFsError::Internal)
                            }
                        },
                        None => Err(NvFsError::Internal),
                    }
                },
                AllocationBlockUpdateNvSyncStateAllocated::Modified(modified_state) => match modified_state {
                    AllocationBlockUpdateNvSyncStateAllocatedModified::JournalClean { cached_encrypted_data } => {
                        match cached_encrypted_data {
                            Some(cached_encrypted_data) => {
                                if cached_encrypted_data.is_authenticated() {
                                    Ok(cached_encrypted_data.get_encrypted_data())
                                } else {
                                    Err(NvFsError::Internal)
                                }
                            },
                            None => Err(NvFsError::Internal),
                        }
                    },
                    AllocationBlockUpdateNvSyncStateAllocatedModified::JournalDirty {
                        authenticated_encrypted_data,
                    } => Ok(authenticated_encrypted_data.as_slice()),
                },
            },
        }
    }
}

/// Whenever an Allocation Block's data is reported as loaded and authenticated,
/// then either reading it back succeeds, or a previous update has failed. Nothing
/// is ever read back in the latter case.
pub proof fn law_loaded_data_is_accessible(state: AllocationBlockUpdateState)
    ensures
        state.data_loaded() == Some(true) <==> state.authenticated_data() is Some || state.staged_update is FailedUpdate,
        state.staged_update is FailedUpdate ==> state.authenticated_data() is None,
{
}

} // verus!
