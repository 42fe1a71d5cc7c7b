//! Application of staged updates, staging buffer allocation and marking states
//! as written out.
use crate::align;
use crate::alloc_bitmap::AllocBitmap;
use crate::block_state::{
    AllocationBlockUpdateNvSyncState, AllocationBlockUpdateNvSyncStateAllocated,
    AllocationBlockUpdateNvSyncStateAllocatedModified, AllocationBlockUpdateNvSyncStateAllocatedUnmodified,
    AllocationBlockUpdateNvSyncStateUnallocated, AllocationBlockUpdateNvSyncStateUnallocatedTargetState,
    AllocationBlockUpdateStagedUpdate, AllocationBlockUpdateState, CachedEncryptedAllocationBlockData,
};
use crate::fs::NvFsError;
use crate::staged;
use crate::states::AuthTreeDataBlocksUpdateStates;
use crate::states_index;
use crate::states_index::{
    AuthTreeDataBlocksUpdateStatesAllocationBlockIndex, AuthTreeDataBlocksUpdateStatesAllocationBlocksIndexRange,
    AuthTreeDataBlocksUpdateStatesIndex,
};
use vstd::prelude::*;

verus! {

/// Whether an Allocation Block level entry is in an optional range.
pub open spec fn selected(
    range: Option<&AuthTreeDataBlocksUpdateStatesAllocationBlocksIndexRange>,
    b: int,
    k: int,
) -> bool {
    match range {
        Some(range) => range.has(b, k),
        None => true,
    }
}

impl AllocationBlockUpdateNvSyncState {
    /// The storage tracking state upon having been written to the Journal
    /// Staging Copy.
    pub open spec fn cleaned(self) -> Self {
        match self {
            AllocationBlockUpdateNvSyncState::Unallocated(unallocated) => {
                AllocationBlockUpdateNvSyncState::Unallocated(
                    AllocationBlockUpdateNvSyncStateUnallocated { copied_to_journal: true, ..unallocated },
                )
            },
            AllocationBlockUpdateNvSyncState::Allocated(
                AllocationBlockUpdateNvSyncStateAllocated::Unmodified(unmodified),
            ) => {
                AllocationBlockUpdateNvSyncState::Allocated(
                    AllocationBlockUpdateNvSyncStateAllocated::Unmodified(
                        AllocationBlockUpdateNvSyncStateAllocatedUnmodified { copied_to_journal: true, ..unmodified },
                    ),
                )
            },
            AllocationBlockUpdateNvSyncState::Allocated(
                AllocationBlockUpdateNvSyncStateAllocated::Modified(modified),
            ) => match modified {
                AllocationBlockUpdateNvSyncStateAllocatedModified::JournalClean { .. } => self,
                AllocationBlockUpdateNvSyncStateAllocatedModified::JournalDirty { authenticated_encrypted_data } => {
                    AllocationBlockUpdateNvSyncState::Allocated(
                        AllocationBlockUpdateNvSyncStateAllocated::Modified(
                            AllocationBlockUpdateNvSyncStateAllocatedModified::JournalClean {
                                cached_encrypted_data: Some(
                                    CachedEncryptedAllocationBlockData {
                                        encrypted_data: authenticated_encrypted_data,
                                        authenticated: true,
                                    },
                                ),
                            },
                        ),
                    )
                },
            },
        }
    }
}

/// Mark an Allocation Block's storage tracking state as having been written to
/// the Journal Staging Copy.
fn mark_clean(state: &mut AllocationBlockUpdateState)
    ensures
        final(state).nv_sync_state == old(state).nv_sync_state.cleaned(),
        final(state).staged_update == old(state).staged_update,
{
    let mut nv_sync_state = AllocationBlockUpdateNvSyncState::Unallocated(
        AllocationBlockUpdateNvSyncStateUnallocated {
            random_fillup: None,
            copied_to_journal: false,
            target_state: AllocationBlockUpdateNvSyncStateUnallocatedTargetState::Allocated,
        },
    );
    core::mem::swap(&mut nv_sync_state, &mut state.nv_sync_state);
    state.nv_sync_state =
    match nv_sync_state {
        AllocationBlockUpdateNvSyncState::Unallocated(unallocated_state) => {
            AllocationBlockUpdateNvSyncState::Unallocated(
                AllocationBlockUpdateNvSyncStateUnallocated {
                    random_fillup: unallocated_state.random_fillup,
                    copied_to_journal: true,
                    target_state: unallocated_state.target_state,
                },
            )
        },
        AllocationBlockUpdateNvSyncState::Allocated(
            AllocationBlockUpdateNvSyncStateAllocated::Unmodified(unmodified_state),
        ) => {
            AllocationBlockUpdateNvSyncState::Allocated(
                AllocationBlockUpdateNvSyncStateAllocated::Unmodified(
                    AllocationBlockUpdateNvSyncStateAllocatedUnmodified {
                        cached_encrypted_data: unmodified_state.cached_encrypted_data,
                        copied_to_journal: true,
                    },
                ),
            )
        },
        AllocationBlockUpdateNvSyncState::Allocated(
            AllocationBlockUpdateNvSyncStateAllocated::Modified(modified_state),
        ) => {
            let cached_encrypted_data = match modified_state {
                AllocationBlockUpdateNvSyncStateAllocatedModified::JournalClean { cached_encrypted_data } => {
                    cached_encrypted_data
                },
                AllocationBlockUpdateNvSyncStateAllocatedModified::JournalDirty { authenticated_encrypted_data } => {
                    Some(
                        CachedEncryptedAllocationBlockData {
                            encrypted_data: authenticated_encrypted_data,
                            authenticated: true,
                        },
                    )
                },
            };
            AllocationBlockUpdateNvSyncState::Allocated(
                AllocationBlockUpdateNvSyncStateAllocated::Modified(
                    AllocationBlockUpdateNvSyncStateAllocatedModified::JournalClean { cached_encrypted_data },
                ),
            )
        },
    };
}

/// Whether an update staging buffer has been allocated.
pub open spec fn has_staging_buf(state: AllocationBlockUpdateState) -> bool {
    state.staged_update matches AllocationBlockUpdateStagedUpdate::Update { encrypted_data } && encrypted_data@.len()
        > 0
}

/// An update staging buffer of given size has been allocated unless there had
/// been one before.
pub open spec fn staging_buf_allocated(
    old_state: AllocationBlockUpdateState,
    new_state: AllocationBlockUpdateState,
    size: int,
) -> bool {
    if has_staging_buf(old_state) {
        new_state == old_state
    } else {
        &&& new_state.nv_sync_state == old_state.nv_sync_state
        &&& new_state.staged_update matches AllocationBlockUpdateStagedUpdate::Update { encrypted_data }
            && encrypted_data@ == Seq::new(size as nat, |i: int| 0u8)
    }
}

/// Allocate a zeroed buffer.
pub(crate) fn try_new_zeroed(len: usize) -> (r: Result<Vec<u8>, NvFsError>)
    ensures
        match r {
            Ok(v) => v@ == Seq::new(len as nat, |i: int| 0u8),
            Err(e) => e == NvFsError::MemoryAllocationFailure,
        },
{
    let mut v: Vec<u8> = Vec::new();
    match v.try_reserve(len) {
        Ok(()) => (),
        Err(e) => {
            return Err(NvFsError::from(e));
        },
    }
    let mut i: usize = 0;
    while i < len
        invariant
            i <= len,
            v@ == Seq::new(i as nat, |i: int| 0u8),
        decreases len - i,
    {
        v.push(0);
        i = i + 1;
        assert(v@ =~= Seq::new(i as nat, |i: int| 0u8));
    }
    Ok(v)
}

impl AuthTreeDataBlocksUpdateStates {
    /// The range of all Allocation Block level entries.
    fn full_range(&self) -> (r: AuthTreeDataBlocksUpdateStatesAllocationBlocksIndexRange)
        requires
            self.wf(),
        ensures
            self.valid_blocks_range(&r),
            forall|b: int, k: int| self.has_block(b, k) ==> #[trigger] r.has(b, k),
    {
        proof {
            align::lemma_block_size_pos(self.auth_log2());
        }
        let begin = AuthTreeDataBlocksUpdateStatesAllocationBlockIndex::from(
            AuthTreeDataBlocksUpdateStatesIndex { index: 0 },
        );
        let end = AuthTreeDataBlocksUpdateStatesAllocationBlockIndex::from(
            AuthTreeDataBlocksUpdateStatesIndex { index: self.states.len() },
        );
        AuthTreeDataBlocksUpdateStatesAllocationBlocksIndexRange::new(&begin, &end)
    }

    /// Whether any entry's storage tracking state from an Authentication Tree
    /// Data Block is changed by applying the staged updates in a range.
    pub open spec fn application_updates_block(
        &self,
        range: Option<&AuthTreeDataBlocksUpdateStatesAllocationBlocksIndexRange>,
        b: int,
    ) -> bool {
        exists|k: int|
            self.has_block(b, k) && selected(range, b, k) && (#[trigger] self.block(b, k)).application_updates()
    }

    /// An Allocation Block level entry with its staged update applied.
    pub open spec fn block_with_staged_applied(
        &self,
        b: int,
        k: int,
        alloc_bitmap: &AllocBitmap,
    ) -> AllocationBlockUpdateState {
        self.block(b, k).with_staged_applied(
            alloc_bitmap.allocated(self.location(b, k)),
            alloc_bitmap.any_allocated(align::align_down(self.location(b, k), self.io_log2()), self.io_log2()),
        )
    }

    /// Apply the staged updates to the storage tracking states.
    ///
    /// If `states_allocation_blocks_range` is specified, only updates staged in
    /// that range are applied. Any applied staged updates are getting moved
    /// to the [`AllocationBlockUpdateStagedUpdate::NoUpdate`] state afterwards.
    ///
    /// The application of an update renders the containing Authentication Tree
    /// Data Block's authentication digest invalid. It is expected that all of
    /// its retained Allocation Blocks' states have their data loaded and
    /// authenticated before the staged updates may get applied.
    ///
    /// # Arguments:
    ///
    /// * `states_allocation_blocks_range` - Optional range to restrict the
    ///   staged updates application to.
    /// * `alloc_bitmap` - The filesystem's allocation bitmap in the state from
    ///   before the transaction.
    pub fn apply_allocation_blocks_staged_updates(
        &mut self,
        states_allocation_blocks_range: Option<&AuthTreeDataBlocksUpdateStatesAllocationBlocksIndexRange>,
        alloc_bitmap: &AllocBitmap,
    )
        requires
            old(self).wf(),
            states_allocation_blocks_range matches Some(range) ==> old(self).valid_blocks_range(range),
        ensures
            final(self).wf(),
            final(self).mapped(
                old(self),
                |b: int, k: int| selected(states_allocation_blocks_range, b, k),
                |b: int, k: int| old(self).block_with_staged_applied(b, k, alloc_bitmap),
            ),
            forall|b: int|
                0 <= b < old(self).states@.len() ==> (#[trigger] final(self).states@[b]).auth_digest == if old(
                    self,
                ).application_updates_block(states_allocation_blocks_range, b) {
                    None
                } else {
                    old(self).states@[b].auth_digest
                },
            // No digest is retained for anything changed.
            forall|b: int, k: int|
                old(self).has_block(b, k) && (#[trigger] final(self).block(b, k)).nv_sync_state != old(self).block(
                    b,
                    k,
                ).nv_sync_state ==> final(self).states@[b].auth_digest is None,
    {
        let log2: u32 = self.auth_tree_data_block_allocation_blocks_log2 as u32;
        let io_log2: u32 = self.io_block_allocation_blocks_log2 as u32;
        let ghost l = self.auth_log2();
        let ghost o = *self;
        let range = match states_allocation_blocks_range {
            Some(range) => *range,
            None => self.full_range(),
        };
        let mut cur = range.begin;
        let ghost mut updated: Set<int> = Set::empty();
        while cur != range.end
            invariant
                o.wf(),
                o.valid_blocks_range(&range),
                l == o.auth_log2(),
                log2 == l,
                log2 < usize::BITS,
                io_log2 == o.io_log2(),
                io_log2 < 64,
                cur.wf(l),
                range.begin.le(&cur),
                cur.le(&range.end),
                self.mapped(
                    &o,
                    |b: int, k: int| range.has(b, k) && (b < cur.block() || b == cur.block() && k < cur.offset()),
                    |b: int, k: int| o.block_with_staged_applied(b, k, alloc_bitmap),
                ),
                forall|b: int|
                    0 <= b < o.states@.len() ==> (#[trigger] self.states@[b]).auth_digest == if updated.contains(b) {
                        None
                    } else {
                        o.states@[b].auth_digest
                    },
                forall|b: int| #[trigger] updated.contains(b) ==> 0 <= b < o.states@.len() && exists|k: int|
                    o.has_block(b, k) && range.has(b, k) && (#[trigger] o.block(b, k)).application_updates(),
                forall|b: int, k: int|
                    o.has_block(b, k) && range.has(b, k) && (b < cur.block() || b == cur.block() && k < cur.offset())
                        && (#[trigger] o.block(b, k)).application_updates() ==> updated.contains(b),
            decreases range.end.position(l) - cur.position(l),
        {
            proof {
                self.lemma_same_shape_wf(&o);
                states_index::lemma_position_injective(cur, range.end, l);
                states_index::lemma_position_injective(range.end, cur, l);
            }
            let location = self.get_allocation_block_target(&cur);
            let state = self.allocation_block_mut(&cur);
            let state_updated: bool = staged::apply_staged_update(state, location, io_log2, alloc_bitmap);
            if state_updated {
                let ghost m1 = *self;
                self.states[cur.auth_tree_data_blocks_update_states_index.index].auth_digest = None;
                proof {
                    assert forall|b: int, k: int| o.has_block(b, k) implies #[trigger] self.block(b, k) == m1.block(
                        b,
                        k,
                    ) by {}
                    assert(o.block(cur.block(), cur.offset()).application_updates());
                    updated = updated.insert(cur.block());
                }
            }
            cur = cur.step(log2);
        }
        proof {
            self.lemma_same_shape_wf(&o);
            assert forall|b: int, k: int| o.has_block(b, k) implies (#[trigger] range.has(b, k) <==> selected(
                states_allocation_blocks_range,
                b,
                k,
            )) by {}
            assert forall|b: int| 0 <= b < o.states@.len() implies (o.application_updates_block(
                states_allocation_blocks_range,
                b,
            ) <==> #[trigger] updated.contains(b)) by {
                if o.application_updates_block(states_allocation_blocks_range, b) {
                    let k = choose|k: int|
                        o.has_block(b, k) && selected(states_allocation_blocks_range, b, k) && (#[trigger] o.block(
                            b,
                            k,
                        )).application_updates();
                    assert(range.has(b, k));
                }
                if updated.contains(b) {
                    let k = choose|k: int|
                        o.has_block(b, k) && range.has(b, k) && (#[trigger] o.block(b, k)).application_updates();
                    assert(selected(states_allocation_blocks_range, b, k));
                }
            }
        }
    }

    /// Mark all storage tracking states in a given Allocation Block level index
    /// range as having been written to the journal staging copy.
    pub fn mark_states_clean(
        &mut self,
        states_allocation_blocks_range: &AuthTreeDataBlocksUpdateStatesAllocationBlocksIndexRange,
    )
        requires
            old(self).wf(),
            old(self).valid_blocks_range(states_allocation_blocks_range),
        ensures
            final(self).wf(),
            final(self).same_digests(old(self)),
            final(self).mapped(
                old(self),
                |b: int, k: int| states_allocation_blocks_range.has(b, k),
                |b: int, k: int|
                    (AllocationBlockUpdateState {
                        nv_sync_state: old(self).block(b, k).nv_sync_state.cleaned(),
                        staged_update: old(self).block(b, k).staged_update,
                    }),
            ),
            // Everything in the range is recorded as being present in the Journal Staging Copy.
            forall|b: int, k: int|
                old(self).has_block(b, k) && states_allocation_blocks_range.has(b, k) ==> match (
                #[trigger] final(self).block(b, k)).nv_sync_state {
                    AllocationBlockUpdateNvSyncState::Unallocated(unallocated) => unallocated.copied_to_journal,
                    AllocationBlockUpdateNvSyncState::Allocated(
                        AllocationBlockUpdateNvSyncStateAllocated::Unmodified(unmodified),
                    ) => unmodified.copied_to_journal,
                    AllocationBlockUpdateNvSyncState::Allocated(
                        AllocationBlockUpdateNvSyncStateAllocated::Modified(modified),
                    ) => modified is JournalClean,
                },
    {
        let log2: u32 = self.auth_tree_data_block_allocation_blocks_log2 as u32;
        let ghost l = self.auth_log2();
        let ghost o = *self;
        let range = states_allocation_blocks_range;
        let mut cur = range.begin;
        while cur != range.end
            invariant
                o.wf(),
                o.valid_blocks_range(range),
                l == o.auth_log2(),
                log2 == l,
                log2 < usize::BITS,
                cur.wf(l),
                range.begin.le(&cur),
                cur.le(&range.end),
                self.same_digests(&o),
                self.mapped(
                    &o,
                    |b: int, k: int| range.has(b, k) && (b < cur.block() || b == cur.block() && k < cur.offset()),
                    |b: int, k: int|
                        (AllocationBlockUpdateState {
                            nv_sync_state: o.block(b, k).nv_sync_state.cleaned(),
                            staged_update: o.block(b, k).staged_update,
                        }),
                ),
            decreases range.end.position(l) - cur.position(l),
        {
            proof {
                self.lemma_same_shape_wf(&o);
                states_index::lemma_position_injective(cur, range.end, l);
                states_index::lemma_position_injective(range.end, cur, l);
            }
            let state = self.allocation_block_mut(&cur);
            mark_clean(state);
            cur = cur.step(log2);
        }
        proof {
            self.lemma_same_shape_wf(&o);
        }
    }

    /// Data update staging buffers have been allocated for all entries in a
    /// given range preceding some position, with everything else retained.
    pub open spec fn staging_bufs_allocated(
        &self,
        old_states: &Self,
        range: AuthTreeDataBlocksUpdateStatesAllocationBlocksIndexRange,
        end_block: int,
        end_offset: int,
        size: int,
    ) -> bool {
        forall|b: int, k: int|
            old_states.has_block(b, k) ==> if range.has(b, k) && (b < end_block || b == end_block && k < end_offset) {
                staging_buf_allocated(old_states.block(b, k), #[trigger] self.block(b, k), size)
            } else {
                self.block(b, k) == old_states.block(b, k)
            }
    }

    /// Allocate data update staging buffers for a given Allocation Block level
    /// index range.
    ///
    /// Move all the staged updates in `states_allocation_blocks_range` to the
    /// [`AllocationBlockUpdateStagedUpdate::Update`] state with an allocated
    /// Allocation Block sized data buffer each.
    ///
    /// In case of an error, staging buffers have been allocated for the entries
    /// in the range preceding the one it was encountered at.
    pub fn allocate_allocation_blocks_update_staging_bufs(
        &mut self,
        states_allocation_blocks_range: &AuthTreeDataBlocksUpdateStatesAllocationBlocksIndexRange,
        allocation_block_size_128b_log2: u32,
    ) -> (r: Result<(), NvFsError>)
        requires
            old(self).wf(),
            old(self).valid_blocks_range(states_allocation_blocks_range),
            allocation_block_size_128b_log2 + 7 < usize::BITS,
        ensures
            final(self).wf(),
            final(self).same_shape(old(self)),
            final(self).same_digests(old(self)),
            r is Ok ==> final(self).staging_bufs_allocated(
                old(self),
                *states_allocation_blocks_range,
                states_allocation_blocks_range.end.block(),
                states_allocation_blocks_range.end.offset(),
                align::block_size((allocation_block_size_128b_log2 + 7) as nat),
            ),
            // Nothing can fail if all staging buffers had been allocated before.
            r matches Err(e) ==> {
                &&& e == NvFsError::MemoryAllocationFailure
                &&& exists|b: int, k: int|
                    {
                        &&& old(self).has_block(b, k)
                        &&& states_allocation_blocks_range.has(b, k)
                        &&& !has_staging_buf(#[trigger] old(self).block(b, k))
                        &&& final(self).staging_bufs_allocated(
                            old(self),
                            *states_allocation_blocks_range,
                            b,
                            k,
                            align::block_size((allocation_block_size_128b_log2 + 7) as nat),
                        )
                    }
            },
    {
        let log2: u32 = self.auth_tree_data_block_allocation_blocks_log2 as u32;
        let ghost l = self.auth_log2();
        let ghost o = *self;
        let range = states_allocation_blocks_range;
        let ghost size_log2 = (allocation_block_size_128b_log2 + 7) as nat;
        let allocation_block_size: usize = align::block_size_usize(allocation_block_size_128b_log2 + 7);
        let mut cur = range.begin;
        while cur != range.end
            invariant
                o.wf(),
                o == *old(self),
                range == states_allocation_blocks_range,
                o.valid_blocks_range(range),
                l == o.auth_log2(),
                log2 == l,
                log2 < usize::BITS,
                size_log2 == allocation_block_size_128b_log2 + 7,
                allocation_block_size == align::block_size(size_log2),
                cur.wf(l),
                range.begin.le(&cur),
                cur.le(&range.end),
                self.same_digests(&o),
                self.same_shape(&o),
                self.staging_bufs_allocated(
                    &o,
                    *range,
                    cur.block(),
                    cur.offset(),
                    allocation_block_size as int,
                ),
            decreases range.end.position(l) - cur.position(l),
        {
            proof {
                self.lemma_same_shape_wf(&o);
                states_index::lemma_position_injective(cur, range.end, l);
                states_index::lemma_position_injective(range.end, cur, l);
                assert(o.has_block(cur.block(), cur.offset()));
                assert(self.block(cur.block(), cur.offset()) == o.block(cur.block(), cur.offset()));
            }
            let allocated: bool = match &self.allocation_block(&cur).staged_update {
                AllocationBlockUpdateStagedUpdate::Update { encrypted_data } => encrypted_data.len() > 0,
                _ => false,
            };
            if !allocated {
                let encrypted_data = match try_new_zeroed(allocation_block_size) {
                    Ok(encrypted_data) => encrypted_data,
                    Err(e) => {
                        assert(!has_staging_buf(o.block(cur.block(), cur.offset())));
                        return Err(e);
                    },
                };
                let state = self.allocation_block_mut(&cur);
                state.staged_update = AllocationBlockUpdateStagedUpdate::Update { encrypted_data };
            }
            cur = cur.step(log2);
        }
        proof {
            self.lemma_same_shape_wf(&o);
        }
        Ok(())
    }
}

/// Staged updates are applied only once: a second application has no effect.
pub proof fn law_application_is_idempotent(
    state: AllocationBlockUpdateState,
    was_allocated: bool,
    was_initialized: bool,
)
    ensures
        ({
            let applied = state.with_staged_applied(was_allocated, was_initialized);
            &&& applied.staged_update is NoUpdate || applied.staged_update is FailedUpdate
            &&& applied.staged_update is FailedUpdate <==> state.staged_update is FailedUpdate
            &&& !applied.application_updates()
            &&& applied.with_staged_applied(was_allocated, was_initialized) == applied
        }),
{
}

/// Reading through the transaction gives the same result before and after
/// applying staged updates. In particular, the contents remain indeterminate
/// after a failed update.
pub proof fn law_application_retains_data(
    state: AllocationBlockUpdateState,
    was_allocated: bool,
    was_initialized: bool,
)
    ensures
        ({
            let applied = state.with_staged_applied(was_allocated, was_initialized);
            &&& applied.authenticated_data() == state.authenticated_data()
            &&& state.staged_update is FailedUpdate ==> applied == state && applied.authenticated_data() is None
            &&& state.staged_update is Update ==> applied.modified()
            &&& !(state.staged_update is Deallocate) ==> applied.data_loaded() == state.data_loaded()
                && applied.modified() == state.modified()
        }),
{
}

/// Writing states out to the Journal Staging Copy does not affect their
/// contents.
pub proof fn law_cleaning_retains_data(state: AllocationBlockUpdateNvSyncState)
    ensures
        state.cleaned().data() == state.data(),
        state.cleaned().modified() == state.modified(),
        state.cleaned() is Allocated == state is Allocated,
        state.cleaned().cleaned() == state.cleaned(),
{
}

/// Resetting a staged update reverts to what had been applied before.
pub proof fn law_reset_reverts_staging(
    state: AllocationBlockUpdateState,
    staged_update: AllocationBlockUpdateStagedUpdate,
)
    requires
        state.staged_update is NoUpdate,
    ensures
        state.with_staged(staged_update).with_staged(AllocationBlockUpdateStagedUpdate::NoUpdate) == state,
        state.with_deallocation_staged().with_staged(AllocationBlockUpdateStagedUpdate::NoUpdate) == state,
{
}

/// Applying a staged deallocation leaves the Allocation Block unallocated, with
/// no data to read.
pub proof fn law_deallocated_blocks_have_no_data(
    state: AllocationBlockUpdateState,
    was_allocated: bool,
    was_initialized: bool,
)
    ensures
        ({
            let applied = state.with_deallocation_staged().with_staged_applied(was_allocated, was_initialized);
            &&& applied.nv_sync_state is Unallocated
            &&& state.nv_sync_state is Unallocated ==> applied.nv_sync_state == state.nv_sync_state
            &&& applied.staged_update is NoUpdate
            &&& applied.authenticated_data() is None
            &&& applied.data_loaded() is None
            &&& !applied.modified()
        }),
{
}

} // verus!
