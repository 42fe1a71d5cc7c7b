//! Staging of updates and their application to the storage tracking state.
use crate::align;
use crate::alloc_bitmap::AllocBitmap;
use crate::block_state::{
    AllocationBlockUpdateNvSyncState, AllocationBlockUpdateNvSyncStateAllocated,
    AllocationBlockUpdateNvSyncStateAllocatedModified, AllocationBlockUpdateNvSyncStateUnallocated,
    AllocationBlockUpdateNvSyncStateUnallocatedTargetState, AllocationBlockUpdateStagedUpdate,
    AllocationBlockUpdateState, CachedEncryptedAllocationBlockData,
};
use crate::layout::{PhysicalAllocBlockIndex, PhysicalAllocBlockRange};
use crate::states;
use crate::states::{AuthTreeDataBlockUpdateState, AuthTreeDataBlocksUpdateStates};
use crate::states_index;
use crate::states_index::{
    AuthTreeDataBlocksUpdateStatesAllocationBlockIndex, AuthTreeDataBlocksUpdateStatesAllocationBlocksIndexRange,
    AuthTreeDataBlocksUpdateStatesIndex,
};
use vstd::prelude::*;

verus! {

impl AuthTreeDataBlocksUpdateStates {
    /// The Allocation Block level entry at a given position.
    pub open spec fn block(&self, b: int, k: int) -> AllocationBlockUpdateState {
        self.states@[b].allocation_blocks_states@[k]
    }

    /// There is an Allocation Block level entry at a given position.
    pub open spec fn has_block(&self, b: int, k: int) -> bool {
        0 <= b < self.states@.len() && 0 <= k < self.block_len()
    }

    /// Both collections have entries for the same storage locations, with the
    /// same Journal Staging Copies assigned.
    pub open spec fn same_shape(&self, other: &Self) -> bool {
        &&& self.same_layout(other)
        &&& self.states@.len() == other.states@.len()
        &&& forall|b: int|
            0 <= b < self.states@.len() ==> {
                &&& (#[trigger] self.states@[b]).target_allocation_blocks_begin
                    == other.states@[b].target_allocation_blocks_begin
                &&& self.states@[b].journal_staging_copy_allocation_blocks_begin
                    == other.states@[b].journal_staging_copy_allocation_blocks_begin
                &&& self.states@[b].allocation_blocks_states@.len() == other.states@[b].allocation_blocks_states@.len()
            }
    }

    /// All authentication digests are the same.
    pub open spec fn same_digests(&self, other: &Self) -> bool {
        forall|b: int|
            0 <= b < self.states@.len() ==> (#[trigger] self.states@[b]).auth_digest == other.states@[b].auth_digest
    }

    /// Some selected Allocation Block level entries have been replaced, while
    /// all others are the same.
    pub open spec fn mapped(
        &self,
        old_states: &Self,
        selected: spec_fn(int, int) -> bool,
        g: spec_fn(int, int) -> AllocationBlockUpdateState,
    ) -> bool {
        &&& self.same_shape(old_states)
        &&& forall|b: int, k: int|
            old_states.has_block(b, k) ==> #[trigger] self.block(b, k) == if selected(b, k) {
                g(b, k)
            } else {
                old_states.block(b, k)
            }
    }

    /// Well-formedness does not depend on the individual Allocation Blocks'
    /// states.
    pub proof fn lemma_same_shape_wf(&self, other: &Self)
        requires
            other.wf(),
            self.same_shape(other),
        ensures
            self.wf(),
    {
        let (l, jl) = (self.auth_log2(), self.journal_log2());
        assert forall|i: int| 0 <= i < self.states@.len() implies (#[trigger] self.states@[i]).wf(l)
            && self.states@[i].journal_wf(jl) by {
            assert(other.states@[i].wf(l) && other.states@[i].journal_wf(jl));
        }
        assert forall|i: int, j: int| 0 <= i < j < self.states@.len() implies (#[trigger] self.states@[i]).target() < (
        #[trigger] self.states@[j]).target() by {
            assert(other.states@[i].target() < other.states@[j].target());
        }
        assert forall|i: int, j: int|
            #![trigger self.states@[i], self.states@[j]]
            0 <= i < self.states@.len() && 0 <= j < self.states@.len() implies self.states@[i].journal_agrees(
            &self.states@[j],
            jl,
        ) by {
            assert(other.states@[i].journal_agrees(&other.states@[j], jl));
        }
    }

    /// Access an Authentication Tree Data Block level entry.
    pub fn index(&self, index: AuthTreeDataBlocksUpdateStatesIndex) -> (r: &AuthTreeDataBlockUpdateState)
        requires
            index.index < self.states.len(),
        ensures
            *r == self.states@[index.index as int],
    {
        &self.states[index.index]
    }

    /// Access an Authentication Tree Data Block level entry with `mut` access.
    pub fn index_mut(&mut self, index: AuthTreeDataBlocksUpdateStatesIndex) -> (r: &mut AuthTreeDataBlockUpdateState)
        requires
            index.index < old(self).states.len(),
        ensures
            *r == old(self).states@[index.index as int],
            final(self).same_layout(old(self)),
            final(self).states@ == old(self).states@.update(index.index as int, *final(r)),
    {
        &mut self.states[index.index]
    }

    /// Access an Allocation Block level entry.
    pub fn allocation_block(
        &self,
        index: &AuthTreeDataBlocksUpdateStatesAllocationBlockIndex,
    ) -> (r: &AllocationBlockUpdateState)
        requires
            self.wf(),
            self.valid_block_index(index),
        ensures
            *r == self.block(index.block(), index.offset()),
    {
        assert(self.states@[index.block()].wf(self.auth_log2()));
        &self.states[index.auth_tree_data_blocks_update_states_index.index].allocation_blocks_states[index.allocation_block_index_in_auth_tree_data_block]
    }

    /// Access an Allocation Block level entry with `mut` access.
    pub fn allocation_block_mut(
        &mut self,
        index: &AuthTreeDataBlocksUpdateStatesAllocationBlockIndex,
    ) -> (r: &mut AllocationBlockUpdateState)
        requires
            old(self).wf(),
            old(self).valid_block_index(index),
        ensures
            *r == old(self).block(index.block(), index.offset()),
            final(self).mapped(
                old(self),
                |b: int, k: int| b == index.block() && k == index.offset(),
                |b: int, k: int| *final(r),
            ),
            final(self).same_digests(old(self)),
            final(self).wf(),
    {
        proof {
            assert forall|b: int| 0 <= b < self.states@.len() implies (#[trigger] self.states@[b]).wf(
                self.auth_log2(),
            ) by {}
            let o = *self;
            assert forall|new_states: &Self| #[trigger] new_states.same_shape(&o) implies new_states.wf() by {
                new_states.lemma_same_shape_wf(&o);
            }
        }
        &mut self.states[index.auth_tree_data_blocks_update_states_index.index].allocation_blocks_states[index.allocation_block_index_in_auth_tree_data_block]
    }
}

impl AllocationBlockUpdateState {
    /// The same storage tracking state with another update staged.
    pub open spec fn with_staged(self, staged_update: AllocationBlockUpdateStagedUpdate) -> Self {
        AllocationBlockUpdateState { nv_sync_state: self.nv_sync_state, staged_update }
    }

    /// The state with a deallocation staged.
    pub open spec fn with_deallocation_staged(self) -> Self {
        self.with_staged(AllocationBlockUpdateStagedUpdate::Deallocate)
    }

    /// Whether applying the staged update changes the storage tracking state.
    pub open spec fn application_updates(self) -> bool {
        ||| self.staged_update is Update
        ||| self.staged_update is Deallocate && self.nv_sync_state is Allocated
    }

    /// The state with any staged update applied to the storage tracking state.
    ///
    /// `was_allocated` and `was_initialized` specify whether the Allocation
    /// Block had been allocated or initialized respectively before the
    /// transaction.
    pub open spec fn with_staged_applied(self, was_allocated: bool, was_initialized: bool) -> Self {
        match self.staged_update {
            AllocationBlockUpdateStagedUpdate::NoUpdate => self,
            AllocationBlockUpdateStagedUpdate::FailedUpdate => self,
            AllocationBlockUpdateStagedUpdate::Update { encrypted_data } => AllocationBlockUpdateState {
                nv_sync_state: AllocationBlockUpdateNvSyncState::Allocated(
                    AllocationBlockUpdateNvSyncStateAllocated::Modified(
                        AllocationBlockUpdateNvSyncStateAllocatedModified::JournalDirty {
                            authenticated_encrypted_data: encrypted_data,
                        },
                    ),
                ),
                staged_update: AllocationBlockUpdateStagedUpdate::NoUpdate,
            },
            AllocationBlockUpdateStagedUpdate::Deallocate => AllocationBlockUpdateState {
                nv_sync_state: match self.nv_sync_state {
                    AllocationBlockUpdateNvSyncState::Unallocated(_) => self.nv_sync_state,
                    AllocationBlockUpdateNvSyncState::Allocated(allocated) => {
                        AllocationBlockUpdateNvSyncState::Unallocated(
                            deallocated(allocated, was_allocated, was_initialized),
                        )
                    },
                },
                staged_update: AllocationBlockUpdateStagedUpdate::NoUpdate,
            },
        }
    }
}

/// Encrypted data is essentially random and gets repurposed.
pub open spec fn repurposed(cached: Option<CachedEncryptedAllocationBlockData>) -> Option<Vec<u8>> {
    match cached {
        Some(cached) => Some(cached.encrypted_data),
        None => None,
    }
}

/// The storage tracking state of an Allocation Block getting deallocated.
pub open spec fn deallocated(
    state: AllocationBlockUpdateNvSyncStateAllocated,
    was_allocated: bool,
    was_initialized: bool,
) -> AllocationBlockUpdateNvSyncStateUnallocated {
    match state {
        AllocationBlockUpdateNvSyncStateAllocated::Unmodified(unmodified) => {
            AllocationBlockUpdateNvSyncStateUnallocated {
                random_fillup: repurposed(unmodified.cached_encrypted_data),
                copied_to_journal: unmodified.copied_to_journal,
                target_state: AllocationBlockUpdateNvSyncStateUnallocatedTargetState::Allocated,
            }
        },
        AllocationBlockUpdateNvSyncStateAllocated::Modified(modified) => {
            let target_state = if was_allocated {
                AllocationBlockUpdateNvSyncStateUnallocatedTargetState::Allocated
            } else {
                AllocationBlockUpdateNvSyncStateUnallocatedTargetState::Unallocated {
                    is_initialized: was_initialized,
                }
            };
            match modified {
                AllocationBlockUpdateNvSyncStateAllocatedModified::JournalClean { cached_encrypted_data } => {
                    AllocationBlockUpdateNvSyncStateUnallocated {
                        random_fillup: repurposed(cached_encrypted_data),
                        copied_to_journal: true,
                        target_state,
                    }
                },
                AllocationBlockUpdateNvSyncStateAllocatedModified::JournalDirty { authenticated_encrypted_data } => {
                    AllocationBlockUpdateNvSyncStateUnallocated {
                        random_fillup: Some(authenticated_encrypted_data),
                        copied_to_journal: false,
                        target_state,
                    }
                },
            }
        },
    }
}

/// Obtain cached data back for repurposing.
fn repurpose(cached: Option<CachedEncryptedAllocationBlockData>) -> (r: Option<Vec<u8>>)
    ensures
        r == repurposed(cached),
{
    match cached {
        Some(cached) => Some(cached.into_encrypted_data()),
        None => None,
    }
}

/// Determine the storage tracking state of an Allocation Block getting
/// deallocated.
fn deallocate(
    state: AllocationBlockUpdateNvSyncStateAllocated,
    location: PhysicalAllocBlockIndex,
    io_block_allocation_blocks_log2: u32,
    alloc_bitmap: &AllocBitmap,
) -> (r: AllocationBlockUpdateNvSyncStateUnallocated)
    requires
        io_block_allocation_blocks_log2 < 64,
    ensures
        r == deallocated(
            state,
            alloc_bitmap.allocated(location.index as int),
            alloc_bitmap.any_allocated(
                align::align_down(location.index as int, io_block_allocation_blocks_log2 as nat),
                io_block_allocation_blocks_log2 as nat,
            ),
        ),
{
    match state {
        AllocationBlockUpdateNvSyncStateAllocated::Unmodified(unmodified_state) => {
            // Repurpose the essentially random data previously at that location.
            AllocationBlockUpdateNvSyncStateUnallocated {
                random_fillup: repurpose(unmodified_state.cached_encrypted_data),
                copied_to_journal: unmodified_state.copied_to_journal,
                target_state: AllocationBlockUpdateNvSyncStateUnallocatedTargetState::Allocated,
            }
        },
        AllocationBlockUpdateNvSyncStateAllocated::Modified(modified_state) => {
            let target_state = if alloc_bitmap.is_allocated(location) {
                // The Allocation Block had originally been allocated before the transaction.
                AllocationBlockUpdateNvSyncStateUnallocatedTargetState::Allocated
            } else {
                // If any Allocation Block from the containing IO Block is initialized, then
                // all are.
                proof {
                    align::lemma_align_down_bounds(location.index as int, io_block_allocation_blocks_log2 as nat);
                }
                AllocationBlockUpdateNvSyncStateUnallocatedTargetState::Unallocated {
                    is_initialized: alloc_bitmap.is_any_allocated_in_block(
                        location.align_down(io_block_allocation_blocks_log2),
                        io_block_allocation_blocks_log2,
                    ),
                }
            };
            match modified_state {
                AllocationBlockUpdateNvSyncStateAllocatedModified::JournalClean { cached_encrypted_data } => {
                    AllocationBlockUpdateNvSyncStateUnallocated {
                        random_fillup: repurpose(cached_encrypted_data),
                        copied_to_journal: true,
                        target_state,
                    }
                },
                AllocationBlockUpdateNvSyncStateAllocatedModified::JournalDirty { authenticated_encrypted_data } => {
                    // There might or might not have been something copied to the journal
                    // before -- it's unknown at this point. Note though that if a state is in
                    // JournalDirty, then all other non-modified and allocated states in the
                    // containing Authentication Tree Data Block have their data loaded and
                    // authenticated. Initialize random_fillup to potentially save another read
                    // just for this deallocated Allocation Block here.
                    AllocationBlockUpdateNvSyncStateUnallocated {
                        random_fillup: Some(authenticated_encrypted_data),
                        copied_to_journal: false,
                        target_state,
                    }
                },
            }
        },
    }
}

/// Apply an Allocation Block's staged update to the storage tracking state.
///
/// Returns whether or not the storage tracking state has been changed.
pub(crate) fn apply_staged_update(
    state: &mut AllocationBlockUpdateState,
    location: PhysicalAllocBlockIndex,
    io_block_allocation_blocks_log2: u32,
    alloc_bitmap: &AllocBitmap,
) -> (updated: bool)
    requires
        io_block_allocation_blocks_log2 < 64,
    ensures
        *final(state) == old(state).with_staged_applied(
            alloc_bitmap.allocated(location.index as int),
            alloc_bitmap.any_allocated(
                align::align_down(location.index as int, io_block_allocation_blocks_log2 as nat),
                io_block_allocation_blocks_log2 as nat,
            ),
        ),
        updated == old(state).application_updates(),
{
    let mut staged_update = AllocationBlockUpdateStagedUpdate::NoUpdate;
    core::mem::swap(&mut staged_update, &mut state.staged_update);
    match staged_update {
        AllocationBlockUpdateStagedUpdate::NoUpdate => false,
        AllocationBlockUpdateStagedUpdate::Update { encrypted_data } => {
            state.nv_sync_state =
            AllocationBlockUpdateNvSyncState::Allocated(
                AllocationBlockUpdateNvSyncStateAllocated::Modified(
                    AllocationBlockUpdateNvSyncStateAllocatedModified::JournalDirty {
                        authenticated_encrypted_data: encrypted_data,
                    },
                ),
            );
            true
        },
        AllocationBlockUpdateStagedUpdate::Deallocate => {
            let mut nv_sync_state = AllocationBlockUpdateNvSyncState::Unallocated(
                AllocationBlockUpdateNvSyncStateUnallocated {
                    random_fillup: None,
                    copied_to_journal: false,
                    target_state: AllocationBlockUpdateNvSyncStateUnallocatedTargetState::Allocated,
                },
            );
            core::mem::swap(&mut nv_sync_state, &mut state.nv_sync_state);
            match nv_sync_state {
                AllocationBlockUpdateNvSyncState::Unallocated(unallocated_state) => {
                    state.nv_sync_state = AllocationBlockUpdateNvSyncState::Unallocated(unallocated_state);
                    false
                },
                AllocationBlockUpdateNvSyncState::Allocated(allocated_state) => {
                    state.nv_sync_state =
                    AllocationBlockUpdateNvSyncState::Unallocated(
                        deallocate(allocated_state, location, io_block_allocation_blocks_log2, alloc_bitmap),
                    );
                    true
                },
            }
        },
        AllocationBlockUpdateStagedUpdate::FailedUpdate => {
            // A previous update staging attempt failed. Don't do anything and keep the
            // error state.
            state.staged_update = AllocationBlockUpdateStagedUpdate::FailedUpdate;
            false
        },
    }
}

/// Modification to apply to staged updates.
#[derive(Clone, Copy, Debug, PartialEq, Eq, Structural)]
enum StagedUpdateChange {
    Reset,
    Fail,
    Deallocate,
}

impl StagedUpdateChange {
    spec fn result(self, state: AllocationBlockUpdateState) -> AllocationBlockUpdateState {
        match self {
            StagedUpdateChange::Reset => state.with_staged(AllocationBlockUpdateStagedUpdate::NoUpdate),
            StagedUpdateChange::Fail => state.with_staged(AllocationBlockUpdateStagedUpdate::FailedUpdate),
            StagedUpdateChange::Deallocate => state.with_deallocation_staged(),
        }
    }

    fn apply(self, state: &mut AllocationBlockUpdateState)
        ensures
            *final(state) == self.result(*old(state)),
    {
        state.staged_update =
        match self {
            StagedUpdateChange::Reset => AllocationBlockUpdateStagedUpdate::NoUpdate,
            StagedUpdateChange::Fail => AllocationBlockUpdateStagedUpdate::FailedUpdate,
            StagedUpdateChange::Deallocate => AllocationBlockUpdateStagedUpdate::Deallocate,
        };
    }
}

impl AuthTreeDataBlocksUpdateStates {
    /// Modify the staged updates in a given Allocation Block level index range.
    fn change_staged_updates(
        &mut self,
        range: &AuthTreeDataBlocksUpdateStatesAllocationBlocksIndexRange,
        change: StagedUpdateChange,
    )
        requires
            old(self).wf(),
            old(self).valid_blocks_range(range),
        ensures
            final(self).wf(),
            final(self).same_digests(old(self)),
            final(self).mapped(
                old(self),
                |b: int, k: int| range.has(b, k),
                |b: int, k: int| change.result(old(self).block(b, k)),
            ),
    {
        let log2: u32 = self.auth_tree_data_block_allocation_blocks_log2 as u32;
        let ghost l = self.auth_log2();
        let ghost o = *self;
        let mut cur = range.begin;
        while cur != range.end
            invariant
                o.wf(),
                o.valid_blocks_range(range),
                l == o.auth_log2(),
                log2 == l,
                log2 < usize::BITS,
                cur.wf(l),
                range.begin.le(&cur),
                cur.le(&range.end),
                self.same_digests(&o),
                self.mapped(
                    &o,
                    |b: int, k: int| range.has(b, k) && (b < cur.block() || b == cur.block() && k < cur.offset()),
                    |b: int, k: int| change.result(o.block(b, k)),
                ),
            decreases range.end.position(l) - cur.position(l),
        {
            proof {
                self.lemma_same_shape_wf(&o);
                states_index::lemma_position_injective(cur, range.end, l);
                states_index::lemma_position_injective(range.end, cur, l);
            }
            let state = self.allocation_block_mut(&cur);
            change.apply(state);
            cur = cur.step(log2);
        }
        proof {
            self.lemma_same_shape_wf(&o);
        }
    }
}

/// Some storage location is in any of the extents.
pub open spec fn in_extents(extents: Seq<PhysicalAllocBlockRange>, location: int) -> bool {
    exists|i: int| 0 <= i < extents.len() && (#[trigger] extents[i]).has(location)
}

/// Some storage location is in any of the blocks of specified size.
pub open spec fn in_blocks(
    blocks_begin: Seq<PhysicalAllocBlockIndex>,
    block_allocation_blocks_log2: nat,
    location: int,
) -> bool {
    exists|i: int|
        0 <= i < blocks_begin.len() && (#[trigger] blocks_begin[i]).index <= location < blocks_begin[i].index
            + align::block_size(block_allocation_blocks_log2)
}

impl AuthTreeDataBlocksUpdateStates {
    /// Storage location associated with an Allocation Block level entry.
    pub open spec fn location(&self, b: int, k: int) -> int {
        self.states@[b].target() + k
    }

    /// Reset the staged updates in a given Allocation Block level index range.
    ///
    /// The staged updates will all get reset to
    /// [`AllocationBlockUpdateStagedUpdate::NoUpdate`].
    pub fn reset_allocation_blocks_staged_updates(
        &mut self,
        states_allocation_blocks_range: &AuthTreeDataBlocksUpdateStatesAllocationBlocksIndexRange,
    )
        requires
            old(self).wf(),
            old(self).valid_blocks_range(states_allocation_blocks_range),
        ensures
            final(self).wf(),
            final(self).same_digests(old(self)),
            final(self).mapped(
                old(self),
                |b: int, k: int| states_allocation_blocks_range.has(b, k),
                |b: int, k: int| old(self).block(b, k).with_staged(AllocationBlockUpdateStagedUpdate::NoUpdate),
            ),
    {
        self.change_staged_updates(states_allocation_blocks_range, StagedUpdateChange::Reset);
    }

    /// Move the staged updates in a given Allocation Block level index range to
    /// the [`FailedUpdate`](AllocationBlockUpdateStagedUpdate::FailedUpdate)
    /// state.
    pub fn reset_allocation_blocks_staged_updates_to_failed(
        &mut self,
        states_allocation_blocks_range: &AuthTreeDataBlocksUpdateStatesAllocationBlocksIndexRange,
    )
        requires
            old(self).wf(),
            old(self).valid_blocks_range(states_allocation_blocks_range),
        ensures
            final(self).wf(),
            final(self).same_digests(old(self)),
            final(self).mapped(
                old(self),
                |b: int, k: int| states_allocation_blocks_range.has(b, k),
                |b: int, k: int| old(self).block(b, k).with_staged(AllocationBlockUpdateStagedUpdate::FailedUpdate),
            ),
    {
        self.change_staged_updates(states_allocation_blocks_range, StagedUpdateChange::Fail);
    }

    /// Modify the updates staged for some storage extent.
    fn change_staged_extent_updates(&mut self, extent: &PhysicalAllocBlockRange, change: StagedUpdateChange)
        requires
            old(self).wf(),
            extent.wf(),
        ensures
            final(self).wf(),
            final(self).same_digests(old(self)),
            final(self).mapped(
                old(self),
                |b: int, k: int| extent.has(old(self).location(b, k)),
                |b: int, k: int| change.result(old(self).block(b, k)),
            ),
    {
        let ghost o = *self;
        match self.lookup_allocation_blocks_update_states_index_range(extent) {
            Ok(range) => {
                proof {
                    assert forall|b: int, k: int| #[trigger] o.has_block(b, k) implies (range.has(b, k)
                        <==> extent.has(o.location(b, k))) by {
                        assert(o.in_block(k));
                        let _ = o.states@[b];
                    }
                }
                self.change_staged_updates(&range, change);
            },
            Err(_) => {
                proof {
                    assert forall|b: int, k: int| #[trigger] o.has_block(b, k) implies !extent.has(
                        o.location(b, k),
                    ) by {
                        assert(!o.overlaps(b, *extent));
                    }
                }
            },
        }
    }

    /// Modify the updates staged for some storage extents.
    fn change_staged_extents_updates(&mut self, extents: &Vec<PhysicalAllocBlockRange>, change: StagedUpdateChange)
        requires
            old(self).wf(),
            forall|i: int| 0 <= i < extents@.len() ==> (#[trigger] extents@[i]).wf(),
        ensures
            final(self).wf(),
            final(self).same_digests(old(self)),
            final(self).mapped(
                old(self),
                |b: int, k: int| in_extents(extents@, old(self).location(b, k)),
                |b: int, k: int| change.result(old(self).block(b, k)),
            ),
    {
        let ghost o = *self;
        let mut i: usize = 0;
        while i < extents.len()
            invariant
                o.wf(),
                self.wf(),
                i <= extents@.len(),
                forall|i: int| 0 <= i < extents@.len() ==> (#[trigger] extents@[i]).wf(),
                self.same_digests(&o),
                self.mapped(
                    &o,
                    |b: int, k: int| in_extents(extents@.take(i as int), o.location(b, k)),
                    |b: int, k: int| change.result(o.block(b, k)),
                ),
            decreases extents@.len() - i,
        {
            let ghost m = *self;
            self.change_staged_extent_updates(&extents[i], change);
            proof {
                assert forall|b: int, k: int| o.has_block(b, k) implies #[trigger] self.block(b, k) == if in_extents(
                    extents@.take(i + 1),
                    o.location(b, k),
                ) {
                    change.result(o.block(b, k))
                } else {
                    o.block(b, k)
                } by {
                    assert(m.has_block(b, k));
                    let x = o.location(b, k);
                    assert(m.block(b, k) == m.block(b, k));
                    assert(m.location(b, k) == x);
                    lemma_in_extents_step(extents@, i as int, x);
                }
            }
            i = i + 1;
        }
        assert(extents@.take(i as int) =~= extents@);
    }

    /// Reset some power-of-two sized block's staged updates.
    ///
    /// Reset all updates staged for the block starting at
    /// `target_block_allocation_blocks_begin` on storage with size as
    /// determined by `block_allocation_blocks_log2`.
    pub fn reset_staged_block_updates(
        &mut self,
        target_block_allocation_blocks_begin: PhysicalAllocBlockIndex,
        block_allocation_blocks_log2: u32,
    )
        requires
            old(self).wf(),
            block_allocation_blocks_log2 < 64,
            target_block_allocation_blocks_begin.index + align::block_size(block_allocation_blocks_log2 as nat)
                <= u64::MAX,
        ensures
            final(self).wf(),
            final(self).same_digests(old(self)),
            final(self).mapped(
                old(self),
                |b: int, k: int|
                    target_block_allocation_blocks_begin.index <= old(self).location(b, k)
                        < target_block_allocation_blocks_begin.index + align::block_size(
                        block_allocation_blocks_log2 as nat,
                    ),
                |b: int, k: int| old(self).block(b, k).with_staged(AllocationBlockUpdateStagedUpdate::NoUpdate),
            ),
    {
        let extent = block_extent(target_block_allocation_blocks_begin, block_allocation_blocks_log2);
        self.change_staged_extent_updates(&extent, StagedUpdateChange::Reset);
    }

    /// Reset some power-of-two sized blocks' staged updates.
    ///
    /// Reset all updates staged for the blocks starting at the respective
    /// locations with sizes as determined by `block_allocation_blocks_log2`
    /// each.
    pub fn reset_staged_blocks_updates(
        &mut self,
        target_blocks_allocation_blocks_begin: &Vec<PhysicalAllocBlockIndex>,
        block_allocation_blocks_log2: u32,
    )
        requires
            old(self).wf(),
            block_allocation_blocks_log2 < 64,
            forall|i: int|
                0 <= i < target_blocks_allocation_blocks_begin@.len() ==> (
                #[trigger] target_blocks_allocation_blocks_begin@[i]).index + align::block_size(
                    block_allocation_blocks_log2 as nat,
                ) <= u64::MAX,
        ensures
            final(self).wf(),
            final(self).same_digests(old(self)),
            final(self).mapped(
                old(self),
                |b: int, k: int|
                    in_blocks(
                        target_blocks_allocation_blocks_begin@,
                        block_allocation_blocks_log2 as nat,
                        old(self).location(b, k),
                    ),
                |b: int, k: int| old(self).block(b, k).with_staged(AllocationBlockUpdateStagedUpdate::NoUpdate),
            ),
    {
        self.change_staged_blocks_updates(
            target_blocks_allocation_blocks_begin,
            block_allocation_blocks_log2,
            StagedUpdateChange::Reset,
        );
    }

    /// Modify the updates staged for some power-of-two sized blocks.
    fn change_staged_blocks_updates(
        &mut self,
        blocks_begin: &Vec<PhysicalAllocBlockIndex>,
        block_allocation_blocks_log2: u32,
        change: StagedUpdateChange,
    )
        requires
            old(self).wf(),
            block_allocation_blocks_log2 < 64,
            forall|i: int|
                0 <= i < blocks_begin@.len() ==> (#[trigger] blocks_begin@[i]).index + align::block_size(
                    block_allocation_blocks_log2 as nat,
                ) <= u64::MAX,
        ensures
            final(self).wf(),
            final(self).same_digests(old(self)),
            final(self).mapped(
                old(self),
                |b: int, k: int|
                    in_blocks(blocks_begin@, block_allocation_blocks_log2 as nat, old(self).location(b, k)),
                |b: int, k: int| change.result(old(self).block(b, k)),
            ),
    {
        let ghost o = *self;
        let ghost log2 = block_allocation_blocks_log2 as nat;
        let mut i: usize = 0;
        while i < blocks_begin.len()
            invariant
                o.wf(),
                self.wf(),
                log2 == block_allocation_blocks_log2,
                log2 < 64,
                i <= blocks_begin@.len(),
                forall|i: int|
                    0 <= i < blocks_begin@.len() ==> (#[trigger] blocks_begin@[i]).index + align::block_size(log2)
                        <= u64::MAX,
                self.same_digests(&o),
                self.mapped(
                    &o,
                    |b: int, k: int| in_blocks(blocks_begin@.take(i as int), log2, o.location(b, k)),
                    |b: int, k: int| change.result(o.block(b, k)),
                ),
            decreases blocks_begin@.len() - i,
        {
            let ghost m = *self;
            let extent = block_extent(blocks_begin[i], block_allocation_blocks_log2);
            self.change_staged_extent_updates(&extent, change);
            proof {
                assert forall|b: int, k: int| o.has_block(b, k) implies #[trigger] self.block(b, k) == if in_blocks(
                    blocks_begin@.take(i + 1),
                    log2,
                    o.location(b, k),
                ) {
                    change.result(o.block(b, k))
                } else {
                    o.block(b, k)
                } by {
                    assert(m.has_block(b, k));
                    let x = o.location(b, k);
                    assert(m.block(b, k) == m.block(b, k));
                    assert(m.location(b, k) == x);
                    lemma_in_blocks_step(blocks_begin@, log2, i as int, x);
                }
            }
            i = i + 1;
        }
        assert(blocks_begin@.take(i as int) =~= blocks_begin@);
    }

    /// Reset some storage extent's staged updates.
    pub fn reset_staged_extent_updates(&mut self, target_extent: &PhysicalAllocBlockRange)
        requires
            old(self).wf(),
            target_extent.wf(),
        ensures
            final(self).wf(),
            final(self).same_digests(old(self)),
            final(self).mapped(
                old(self),
                |b: int, k: int| target_extent.has(old(self).location(b, k)),
                |b: int, k: int| old(self).block(b, k).with_staged(AllocationBlockUpdateStagedUpdate::NoUpdate),
            ),
    {
        self.change_staged_extent_updates(target_extent, StagedUpdateChange::Reset);
    }

    /// Reset some storage extents' staged updates.
    pub fn reset_staged_extents_updates(&mut self, target_extents: &Vec<PhysicalAllocBlockRange>)
        requires
            old(self).wf(),
            forall|i: int| 0 <= i < target_extents@.len() ==> (#[trigger] target_extents@[i]).wf(),
        ensures
            final(self).wf(),
            final(self).same_digests(old(self)),
            final(self).mapped(
                old(self),
                |b: int, k: int| in_extents(target_extents@, old(self).location(b, k)),
                |b: int, k: int| old(self).block(b, k).with_staged(AllocationBlockUpdateStagedUpdate::NoUpdate),
            ),
    {
        self.change_staged_extents_updates(target_extents, StagedUpdateChange::Reset);
    }

    /// Reset some storage extent's staged updates to the
    /// [`FailedUpdate`](AllocationBlockUpdateStagedUpdate::FailedUpdate) state.
    pub fn reset_staged_extent_updates_to_failed(&mut self, target_extent: &PhysicalAllocBlockRange)
        requires
            old(self).wf(),
            target_extent.wf(),
        ensures
            final(self).wf(),
            final(self).same_digests(old(self)),
            final(self).mapped(
                old(self),
                |b: int, k: int| target_extent.has(old(self).location(b, k)),
                |b: int, k: int| old(self).block(b, k).with_staged(AllocationBlockUpdateStagedUpdate::FailedUpdate),
            ),
    {
        self.change_staged_extent_updates(target_extent, StagedUpdateChange::Fail);
    }

    /// Reset some storage extents' staged updates to the
    /// [`FailedUpdate`](AllocationBlockUpdateStagedUpdate::FailedUpdate) state.
    pub fn reset_staged_extents_updates_to_failed(&mut self, target_extents: &Vec<PhysicalAllocBlockRange>)
        requires
            old(self).wf(),
            forall|i: int| 0 <= i < target_extents@.len() ==> (#[trigger] target_extents@[i]).wf(),
        ensures
            final(self).wf(),
            final(self).same_digests(old(self)),
            final(self).mapped(
                old(self),
                |b: int, k: int| in_extents(target_extents@, old(self).location(b, k)),
                |b: int, k: int| old(self).block(b, k).with_staged(AllocationBlockUpdateStagedUpdate::FailedUpdate),
            ),
    {
        self.change_staged_extents_updates(target_extents, StagedUpdateChange::Fail);
    }

    /// Stage [`Deallocate`](AllocationBlockUpdateStagedUpdate::Deallocate)
    /// updates for some power-of-two sized block.
    ///
    /// Move all existing [`AllocationBlockUpdateStagedUpdate`] entries
    /// associated with the block to the
    /// [`AllocationBlockUpdateStagedUpdate::Deallocate`] state.
    pub fn stage_block_deallocation_updates(
        &mut self,
        deallocated_target_block_allocation_blocks_begin: PhysicalAllocBlockIndex,
        block_allocation_blocks_log2: u32,
    )
        requires
            old(self).wf(),
            block_allocation_blocks_log2 < 64,
            deallocated_target_block_allocation_blocks_begin.index + align::block_size(
                block_allocation_blocks_log2 as nat,
            ) <= u64::MAX,
        ensures
            final(self).wf(),
            final(self).same_digests(old(self)),
            final(self).mapped(
                old(self),
                |b: int, k: int|
                    deallocated_target_block_allocation_blocks_begin.index <= old(self).location(b, k)
                        < deallocated_target_block_allocation_blocks_begin.index + align::block_size(
                        block_allocation_blocks_log2 as nat,
                    ),
                |b: int, k: int| old(self).block(b, k).with_deallocation_staged(),
            ),
    {
        let extent = block_extent(deallocated_target_block_allocation_blocks_begin, block_allocation_blocks_log2);
        self.change_staged_extent_updates(&extent, StagedUpdateChange::Deallocate);
    }

    /// Stage [`Deallocate`](AllocationBlockUpdateStagedUpdate::Deallocate)
    /// updates for some power-of-two sized blocks.
    ///
    /// Move all existing [`AllocationBlockUpdateStagedUpdate`] entries
    /// associated with any of the blocks to the
    /// [`AllocationBlockUpdateStagedUpdate::Deallocate`] state.
    pub fn stage_blocks_deallocation_updates(
        &mut self,
        deallocated_target_blocks_allocation_blocks_begin: &Vec<PhysicalAllocBlockIndex>,
        block_allocation_blocks_log2: u32,
    )
        requires
            old(self).wf(),
            block_allocation_blocks_log2 < 64,
            forall|i: int|
                0 <= i < deallocated_target_blocks_allocation_blocks_begin@.len() ==> (
                #[trigger] deallocated_target_blocks_allocation_blocks_begin@[i]).index + align::block_size(
                    block_allocation_blocks_log2 as nat,
                ) <= u64::MAX,
        ensures
            final(self).wf(),
            final(self).same_digests(old(self)),
            final(self).mapped(
                old(self),
                |b: int, k: int|
                    in_blocks(
                        deallocated_target_blocks_allocation_blocks_begin@,
                        block_allocation_blocks_log2 as nat,
                        old(self).location(b, k),
                    ),
                |b: int, k: int| old(self).block(b, k).with_deallocation_staged(),
            ),
    {
        self.change_staged_blocks_updates(
            deallocated_target_blocks_allocation_blocks_begin,
            block_allocation_blocks_log2,
            StagedUpdateChange::Deallocate,
        );
    }

    /// Stage [`Deallocate`](AllocationBlockUpdateStagedUpdate::Deallocate)
    /// updates for some extent.
    ///
    /// Move all existing [`AllocationBlockUpdateStagedUpdate`] entries
    /// associated with `deallocated_target_extent` to the
    /// [`AllocationBlockUpdateStagedUpdate::Deallocate`] state.
    pub fn stage_extent_deallocation_updates(&mut self, deallocated_target_extent: &PhysicalAllocBlockRange)
        requires
            old(self).wf(),
            deallocated_target_extent.wf(),
        ensures
            final(self).wf(),
            final(self).same_digests(old(self)),
            final(self).mapped(
                old(self),
                |b: int, k: int| deallocated_target_extent.has(old(self).location(b, k)),
                |b: int, k: int| old(self).block(b, k).with_deallocation_staged(),
            ),
    {
        self.change_staged_extent_updates(deallocated_target_extent, StagedUpdateChange::Deallocate);
    }

    /// Stage [`Deallocate`](AllocationBlockUpdateStagedUpdate::Deallocate)
    /// updates for some extents.
    ///
    /// Move all existing [`AllocationBlockUpdateStagedUpdate`] entries
    /// associated with any of the extents to the
    /// [`AllocationBlockUpdateStagedUpdate::Deallocate`] state.
    pub fn stage_extents_deallocation_updates(&mut self, deallocated_target_extents: &Vec<PhysicalAllocBlockRange>)
        requires
            old(self).wf(),
            forall|i: int|
                0 <= i < deallocated_target_extents@.len() ==> (#[trigger] deallocated_target_extents@[i]).wf(),
        ensures
            final(self).wf(),
            final(self).same_digests(old(self)),
            final(self).mapped(
                old(self),
                |b: int, k: int| in_extents(deallocated_target_extents@, old(self).location(b, k)),
                |b: int, k: int| old(self).block(b, k).with_deallocation_staged(),
            ),
    {
        self.change_staged_extents_updates(deallocated_target_extents, StagedUpdateChange::Deallocate);
    }
}

/// Extent of a power-of-two sized block.
fn block_extent(begin: PhysicalAllocBlockIndex, block_allocation_blocks_log2: u32) -> (r: PhysicalAllocBlockRange)
    requires
        block_allocation_blocks_log2 < 64,
        begin.index + align::block_size(block_allocation_blocks_log2 as nat) <= u64::MAX,
    ensures
        r.wf(),
        r.begin == begin,
        r.end.index == begin.index + align::block_size(block_allocation_blocks_log2 as nat),
{
    proof {
        align::lemma_block_size_pos(block_allocation_blocks_log2 as nat);
    }
    let size: u64 = align::block_size_u64(block_allocation_blocks_log2);
    PhysicalAllocBlockRange::new(begin, PhysicalAllocBlockIndex { index: begin.index + size })
}

proof fn lemma_in_extents_step(extents: Seq<PhysicalAllocBlockRange>, i: int, x: int)
    requires
        0 <= i < extents.len(),
    ensures
        in_extents(extents.take(i + 1), x) <==> in_extents(extents.take(i), x) || extents[i].has(x),
{
    let (p, q) = (extents.take(i), extents.take(i + 1));
    assert(q[i] == extents[i]);
    assert forall|j: int| 0 <= j < i implies p[j] == #[trigger] q[j] by {}
    if in_extents(p, x) {
        let j = choose|j: int| 0 <= j < p.len() && (#[trigger] p[j]).has(x);
        assert(q[j].has(x));
    }
}

proof fn lemma_in_blocks_step(blocks_begin: Seq<PhysicalAllocBlockIndex>, log2: nat, i: int, x: int)
    requires
        0 <= i < blocks_begin.len(),
    ensures
        in_blocks(blocks_begin.take(i + 1), log2, x) <==> in_blocks(blocks_begin.take(i), log2, x)
            || blocks_begin[i].index <= x < blocks_begin[i].index + align::block_size(log2),
{
    let (p, q) = (blocks_begin.take(i), blocks_begin.take(i + 1));
    assert(q[i] == blocks_begin[i]);
    assert forall|j: int| 0 <= j < i implies p[j] == #[trigger] q[j] by {}
    if in_blocks(p, log2, x) {
        let j = choose|j: int|
            0 <= j < p.len() && (#[trigger] p[j]).index <= x < p[j].index + align::block_size(log2);
        assert(q[j].index <= x);
    }
}

} // verus!
