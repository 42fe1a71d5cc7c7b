//! Insertion of missing update tracking states.
use crate::align;
use crate::alloc_bitmap::{AllocBitmap, SparseAllocBitmap};
use crate::block_state::{
    AllocationBlockUpdateNvSyncState, AllocationBlockUpdateNvSyncStateAllocated,
    AllocationBlockUpdateNvSyncStateAllocatedUnmodified, AllocationBlockUpdateNvSyncStateUnallocated,
    AllocationBlockUpdateNvSyncStateUnallocatedTargetState, AllocationBlockUpdateStagedUpdate,
    AllocationBlockUpdateState,
};
use crate::fs::NvFsError;
use crate::layout::{PhysicalAllocBlockIndex, PhysicalAllocBlockRange};
use crate::states;
use crate::states::{AuthTreeDataBlockUpdateState, AuthTreeDataBlocksUpdateStates};
use crate::states_index::{
    AuthTreeDataBlocksUpdateStatesAllocationBlockIndex, AuthTreeDataBlocksUpdateStatesAllocationBlocksIndexRange,
    AuthTreeDataBlocksUpdateStatesIndex,
};
use vstd::prelude::*;

verus! {

/// The state the Allocation Block at a given location is tracked in initially.
///
/// The allocation status is deduced from the allocation bitmap in its state
/// from before the transaction. If any Allocation Block from the containing IO
/// Block had been allocated by a previous transaction already, then all the
/// remaining unallocated ones will have been initialized alongside.
pub open spec fn fresh_block(
    location: int,
    io_block_allocation_blocks_log2: nat,
    alloc_bitmap: &AllocBitmap,
    pending_frees: &SparseAllocBitmap,
) -> AllocationBlockUpdateState {
    AllocationBlockUpdateState {
        nv_sync_state: AllocationBlockUpdateNvSyncState::fresh(
            alloc_bitmap.allocated(location),
            alloc_bitmap.any_allocated(
                align::align_down(location, io_block_allocation_blocks_log2),
                io_block_allocation_blocks_log2,
            ),
        ),
        staged_update: if alloc_bitmap.allocated(location) && pending_frees.has(location) {
            AllocationBlockUpdateStagedUpdate::Deallocate
        } else {
            AllocationBlockUpdateStagedUpdate::NoUpdate
        },
    }
}

/// All of an entry's Allocation Blocks are in their initial state, and there is
/// no authentication digest.
pub open spec fn fresh_state(
    state: AuthTreeDataBlockUpdateState,
    io_block_allocation_blocks_log2: nat,
    alloc_bitmap: &AllocBitmap,
    pending_frees: &SparseAllocBitmap,
) -> bool {
    &&& state.auth_digest is None
    &&& forall|k: int|
        0 <= k < state.allocation_blocks_states@.len() ==> #[trigger] state.allocation_blocks_states@[k]
            == fresh_block(state.target() + k, io_block_allocation_blocks_log2, alloc_bitmap, pending_frees)
}

/// Location corresponding to `target` in the Journal Staging Copy block
/// assigned to some other location in the same target block.
pub open spec fn translate_journal(
    journal: Option<PhysicalAllocBlockIndex>,
    target: int,
    journal_block_allocation_blocks_log2: nat,
) -> Option<int> {
    match journal {
        Some(j) => Some(
            align::align_down(j.index as int, journal_block_allocation_blocks_log2) + (target - align::align_down(
                target,
                journal_block_allocation_blocks_log2,
            )),
        ),
        None => None,
    }
}

/// An optional storage location as a mathematical value.
pub open spec fn location_view(location: Option<PhysicalAllocBlockIndex>) -> Option<int> {
    match location {
        Some(j) => Some(j.index as int),
        None => None,
    }
}

/// An entry inherits its portion of the Journal Staging Copy block assigned to
/// entries from the same target block, if any.
pub open spec fn inherits_journal(
    s: Seq<AuthTreeDataBlockUpdateState>,
    state: AuthTreeDataBlockUpdateState,
    journal_block_allocation_blocks_log2: nat,
) -> bool {
    &&& forall|i: int|
        0 <= i < s.len() && align::same_block(
            (#[trigger] s[i]).target(),
            state.target(),
            journal_block_allocation_blocks_log2,
        ) ==> location_view(state.journal_staging_copy_allocation_blocks_begin) == translate_journal(
            s[i].journal_staging_copy_allocation_blocks_begin,
            state.target(),
            journal_block_allocation_blocks_log2,
        )
    &&& (forall|i: int|
        0 <= i < s.len() ==> !align::same_block(
            (#[trigger] s[i]).target(),
            state.target(),
            journal_block_allocation_blocks_log2,
        )) ==> state.journal_staging_copy_allocation_blocks_begin is None
}

/// Inserting entries inheriting their Journal Staging Copies into a gap keeps
/// the collection well-formed.
proof fn lemma_gap_fill_wf(
    s: Seq<AuthTreeDataBlockUpdateState>,
    new: Seq<AuthTreeDataBlockUpdateState>,
    index: int,
    begin: int,
    l: nat,
    jl: nat,
)
    requires
        states::states_wf(s, l, jl),
        states::insertion_point(s, begin, index),
        index < s.len() ==> s[index].target() >= begin + new.len() * align::block_size(l),
        forall|k: int|
            0 <= k < new.len() ==> {
                &&& (#[trigger] new[k]).wf(l)
                &&& new[k].target() == begin + k * align::block_size(l)
                &&& inherits_journal(s, new[k], jl)
            },
    ensures
        states::states_wf(s.take(index) + new + s.skip(index), l, jl),
{
    let size = align::block_size(l);
    let n = new.len() as int;
    let r = s.take(index) + new + s.skip(index);
    align::lemma_block_size_pos(l);
    assert forall|i: int| 0 <= i < r.len() implies (#[trigger] r[i]) == if i < index {
        s[i]
    } else if i < index + n {
        new[i - index]
    } else {
        s[i - n]
    } by {}
    assert forall|i: int| 0 <= i < r.len() implies (#[trigger] r[i]).wf(l) by {}
    assert forall|i: int, j: int| 0 <= i < j < r.len() implies (#[trigger] r[i]).target() < (#[trigger] r[j]).target() by {
        if index <= i < index + n {
            let k = i - index;
            assert((k + 1) * size <= n * size) by (nonlinear_arith)
                requires
                    k + 1 <= n,
                    size >= 1,
            ;
            assert((k + 1) * size == k * size + size) by (nonlinear_arith);
            if j < index + n {
                let m = j - index;
                assert((k + 1) * size <= m * size) by (nonlinear_arith)
                    requires
                        k + 1 <= m,
                        size >= 1,
                ;
            } else if j - n > index {
                assert(s[index].target() < s[j - n].target());
            }
        } else if index <= j < index + n {
            let m = j - index;
            assert(0 <= m * size) by (nonlinear_arith)
                requires
                    0 <= m,
                    size >= 1,
            ;
        }
    }
    assert forall|i: int| 0 <= i < r.len() implies (#[trigger] r[i]).journal_wf(jl) by {
        if index <= i < index + n {
            lemma_inherited_journal_wf(s, new[i - index], jl);
        }
    }
    assert forall|i: int, j: int|
        #![trigger r[i], r[j]]
        0 <= i < r.len() && 0 <= j < r.len() implies r[i].journal_agrees(&r[j], jl) by {
        if align::same_block(r[i].target(), r[j].target(), jl) {
            if index <= i < index + n {
                lemma_inherited_journal_wf(s, new[i - index], jl);
            }
            if index <= j < index + n {
                lemma_inherited_journal_wf(s, new[j - index], jl);
            }
            if index <= i < index + n && index <= j < index + n {
                let (x, y) = (new[i - index], new[j - index]);
                if exists|k: int| 0 <= k < s.len() && align::same_block((#[trigger] s[k]).target(), x.target(), jl) {
                    let k = choose|k: int|
                        0 <= k < s.len() && align::same_block((#[trigger] s[k]).target(), x.target(), jl);
                    assert(align::same_block(s[k].target(), y.target(), jl));
                }
            }
        }
    }
}

/// An inherited Journal Staging Copy is located in the same block as the one
/// it's inherited from.
proof fn lemma_inherited_journal_wf(s: Seq<AuthTreeDataBlockUpdateState>, state: AuthTreeDataBlockUpdateState, jl: nat)
    requires
        states::journals_wf(s, jl),
        inherits_journal(s, state, jl),
    ensures
        state.journal_wf(jl),
        forall|i: int|
            0 <= i < s.len() ==> state.journal_agrees(#[trigger] &s[i], jl) && s[i].journal_agrees(&state, jl),
{
    align::lemma_align_down_bounds(state.target(), jl);
    let o = state.target() - align::align_down(state.target(), jl);
    assert forall|i: int|
        0 <= i < s.len() && s[i].journal_staging_copy_allocation_blocks_begin is Some && align::same_block(
            (#[trigger] s[i]).target(),
            state.target(),
            jl,
        ) implies state.journal_staging_copy_allocation_blocks_begin is Some && align::align_down(
        state.journal_staging_copy_allocation_blocks_begin->Some_0.index as int,
        jl,
    ) == align::align_down(s[i].journal_staging_copy_allocation_blocks_begin->Some_0.index as int, jl) by {
        let j = s[i].journal_staging_copy_allocation_blocks_begin->Some_0.index as int;
        align::lemma_align_down_bounds(j, jl);
        align::lemma_align_down_unique(align::align_down(j, jl) + o, align::align_down(j, jl), jl);
    }
}

/// Create the initial states for all of an Authentication Tree Data Block's
/// Allocation Blocks.
fn new_allocation_blocks_states(
    target_allocation_blocks_begin: PhysicalAllocBlockIndex,
    auth_tree_data_block_allocation_blocks_log2: u32,
    io_block_allocation_blocks_log2: u32,
    alloc_bitmap: &AllocBitmap,
    pending_frees: &SparseAllocBitmap,
) -> (r: Result<Vec<AllocationBlockUpdateState>, NvFsError>)
    requires
        auth_tree_data_block_allocation_blocks_log2 < usize::BITS,
        io_block_allocation_blocks_log2 < 64,
        target_allocation_blocks_begin.index + align::block_size(auth_tree_data_block_allocation_blocks_log2 as nat)
            <= u64::MAX,
        pending_frees.wf(),
    ensures
        match r {
            Ok(v) => {
                &&& v@.len() == align::block_size(auth_tree_data_block_allocation_blocks_log2 as nat)
                &&& forall|k: int|
                    0 <= k < v@.len() ==> #[trigger] v@[k] == fresh_block(
                        target_allocation_blocks_begin.index + k,
                        io_block_allocation_blocks_log2 as nat,
                        alloc_bitmap,
                        pending_frees,
                    )
            },
            Err(e) => e == NvFsError::MemoryAllocationFailure,
        },
{
    let n: usize = align::block_size_usize(auth_tree_data_block_allocation_blocks_log2);
    let mut v: Vec<AllocationBlockUpdateState> = Vec::new();
    match v.try_reserve(n) {
        Ok(()) => (),
        Err(e) => {
            return Err(NvFsError::from(e));
        },
    }
    let mut io_block = target_allocation_blocks_begin.align_down(io_block_allocation_blocks_log2);
    proof {
        align::lemma_align_down_bounds(
            target_allocation_blocks_begin.index as int,
            io_block_allocation_blocks_log2 as nat,
        );
    }
    let mut io_block_initialized: bool = alloc_bitmap.is_any_allocated_in_block(
        io_block,
        io_block_allocation_blocks_log2,
    );
    let mut k: usize = 0;
    while k < n
        invariant
            k <= n,
            n == align::block_size(auth_tree_data_block_allocation_blocks_log2 as nat),
            io_block_allocation_blocks_log2 < 64,
            target_allocation_blocks_begin.index + n <= u64::MAX,
            pending_frees.wf(),
            align::aligned(io_block.index as int, io_block_allocation_blocks_log2 as nat),
            io_block_initialized == alloc_bitmap.any_allocated(
                io_block.index as int,
                io_block_allocation_blocks_log2 as nat,
            ),
            v@.len() == k,
            forall|i: int|
                0 <= i < k ==> #[trigger] v@[i] == fresh_block(
                    target_allocation_blocks_begin.index + i,
                    io_block_allocation_blocks_log2 as nat,
                    alloc_bitmap,
                    pending_frees,
                ),
        decreases n - k,
    {
        let location = PhysicalAllocBlockIndex { index: target_allocation_blocks_begin.index + k as u64 };
        let cur_io_block = location.align_down(io_block_allocation_blocks_log2);
        proof {
            align::lemma_align_down_bounds(location.index as int, io_block_allocation_blocks_log2 as nat);
        }
        if cur_io_block.index != io_block.index {
            io_block = cur_io_block;
            io_block_initialized = alloc_bitmap.is_any_allocated_in_block(io_block, io_block_allocation_blocks_log2);
        }
        let state = if alloc_bitmap.is_allocated(location) {
            // The Allocation Block had been allocated before the transaction started. If a
            // free is pending for it, then record that fact at its state accordingly.
            let staged_update = if pending_frees.is_set(location) {
                AllocationBlockUpdateStagedUpdate::Deallocate
            } else {
                AllocationBlockUpdateStagedUpdate::NoUpdate
            };
            AllocationBlockUpdateState {
                nv_sync_state: AllocationBlockUpdateNvSyncState::Allocated(
                    AllocationBlockUpdateNvSyncStateAllocated::Unmodified(
                        AllocationBlockUpdateNvSyncStateAllocatedUnmodified {
                            cached_encrypted_data: None,
                            copied_to_journal: false,
                        },
                    ),
                ),
                staged_update,
            }
        } else {
            AllocationBlockUpdateState {
                nv_sync_state: AllocationBlockUpdateNvSyncState::Unallocated(
                    AllocationBlockUpdateNvSyncStateUnallocated {
                        random_fillup: None,
                        copied_to_journal: false,
                        target_state: AllocationBlockUpdateNvSyncStateUnallocatedTargetState::Unallocated {
                            is_initialized: io_block_initialized,
                        },
                    },
                ),
                staged_update: AllocationBlockUpdateStagedUpdate::NoUpdate,
            }
        };
        v.push(state);
        k = k + 1;
    }
    Ok(v)
}

impl AuthTreeDataBlocksUpdateStates {
    /// Determine the Journal Staging Copy location for a missing Authentication
    /// Tree Data Block.
    ///
    /// Figure out whether the already existant neighbours from the same target
    /// IO block, if any, already have a region within some Journal IO block
    /// allocated to them. If so, piggy-back on it.
    fn inherited_journal_staging_copy(
        &self,
        target_allocation_blocks_begin: PhysicalAllocBlockIndex,
        prev_states_index: Option<usize>,
        next_states_index: usize,
    ) -> (r: Option<PhysicalAllocBlockIndex>)
        requires
            self.layout_wf(),
            align::aligned(target_allocation_blocks_begin.index as int, self.auth_log2()),
            prev_states_index matches Some(p) ==> p < self.states.len() && self.states@[p as int].journal_wf(
                self.journal_log2(),
            ),
            next_states_index < self.states.len() ==> self.states@[next_states_index as int].journal_wf(
                self.journal_log2(),
            ),
        ensures
            ({
                let t = target_allocation_blocks_begin.index as int;
                let jl = self.journal_log2();
                let prev_matches = prev_states_index matches Some(p) && align::same_block(
                    self.states@[p as int].target(),
                    t,
                    jl,
                );
                let next_matches = next_states_index < self.states@.len() && align::same_block(
                    self.states@[next_states_index as int].target(),
                    t,
                    jl,
                );
                if self.io_log2() <= self.auth_log2() {
                    r is None
                } else if prev_matches {
                    location_view(r) == translate_journal(
                        self.states@[prev_states_index->Some_0 as int].journal_staging_copy_allocation_blocks_begin,
                        t,
                        jl,
                    )
                } else if next_matches {
                    location_view(r) == translate_journal(
                        self.states@[next_states_index as int].journal_staging_copy_allocation_blocks_begin,
                        t,
                        jl,
                    )
                } else {
                    r is None
                }
            }),
    {
        if self.io_block_allocation_blocks_log2 <= self.auth_tree_data_block_allocation_blocks_log2 {
            return None;
        }
        let io_block_allocation_blocks_log2: u32 = self.io_block_allocation_blocks_log2 as u32;
        let io_block_begin = target_allocation_blocks_begin.align_down(io_block_allocation_blocks_log2);
        let neighbour: usize = match prev_states_index {
            Some(p) if self.states[p].target_allocation_blocks_begin.align_down(io_block_allocation_blocks_log2).index
                == io_block_begin.index => p,
            _ => {
                if next_states_index < self.states.len()
                    && self.states[next_states_index].target_allocation_blocks_begin.align_down(
                    io_block_allocation_blocks_log2,
                ).index == io_block_begin.index {
                    next_states_index
                } else {
                    return None;
                }
            },
        };
        match self.states[neighbour].journal_staging_copy_allocation_blocks_begin {
            Some(j) => {
                proof {
                    align::lemma_align_down_bounds(
                        target_allocation_blocks_begin.index as int,
                        io_block_allocation_blocks_log2 as nat,
                    );
                }
                Some(
                    PhysicalAllocBlockIndex {
                        index: j.align_down(io_block_allocation_blocks_log2).index + (
                        target_allocation_blocks_begin.index - io_block_begin.index),
                    },
                )
            },
            None => None,
        }
    }

    /// Populate a gap with entries in their initial state.
    ///
    /// In case of an error, all entries already inserted into the gap are
    /// removed again.
    fn insert_gap(
        &mut self,
        states_insertion_index: usize,
        gap_target_allocation_blocks_begin: PhysicalAllocBlockIndex,
        gap_auth_tree_data_blocks_count: usize,
        alloc_bitmap: &AllocBitmap,
        pending_frees: &SparseAllocBitmap,
    ) -> (r: Result<(), NvFsError>)
        requires
            old(self).wf(),
            pending_frees.wf(),
            align::aligned(gap_target_allocation_blocks_begin.index as int, old(self).auth_log2()),
            states::insertion_point(
                old(self).states@,
                gap_target_allocation_blocks_begin.index as int,
                states_insertion_index as int,
            ),
            gap_target_allocation_blocks_begin.index + gap_auth_tree_data_blocks_count * old(self).block_len()
                <= u64::MAX,
            states_insertion_index < old(self).states@.len() ==> old(
                self,
            ).states@[states_insertion_index as int].target() >= gap_target_allocation_blocks_begin.index
                + gap_auth_tree_data_blocks_count * old(self).block_len(),
        ensures
            final(self).same_layout(old(self)),
            final(self).wf(),
            match r {
                Ok(_) => {
                    let new = final(self).states@.subrange(
                        states_insertion_index as int,
                        states_insertion_index + gap_auth_tree_data_blocks_count,
                    );
                    &&& states_insertion_index + gap_auth_tree_data_blocks_count <= final(self).states@.len()
                    &&& final(self).states@ == old(self).states@.take(states_insertion_index as int) + new + old(
                        self,
                    ).states@.skip(states_insertion_index as int)
                    &&& forall|k: int|
                        0 <= k < gap_auth_tree_data_blocks_count ==> old(self).missing_filled(
                            #[trigger] new[k],
                            gap_target_allocation_blocks_begin.index + k * old(self).block_len(),
                            alloc_bitmap,
                            pending_frees,
                        )
                },
                Err(e) => e == NvFsError::MemoryAllocationFailure && final(self).states@ == old(self).states@,
            },
    {
        let ghost s = self.states@;
        let ghost l = self.auth_log2();
        let ghost jl = self.journal_log2();
        let ghost size = align::block_size(l);
        let ghost index = states_insertion_index as int;
        let ghost n = gap_auth_tree_data_blocks_count as int;
        let ghost begin = gap_target_allocation_blocks_begin.index as int;
        let ghost mut new: Seq<AuthTreeDataBlockUpdateState> = Seq::empty();
        let block_len: u64 = align::block_size_u64(self.auth_tree_data_block_allocation_blocks_log2 as u32);
        let mut cur: u64 = gap_target_allocation_blocks_begin.index;
        let mut k: usize = 0;
        assert(0 * size == 0) by (nonlinear_arith);
        assert(self.states@ =~= s.take(index) + new + s.skip(index));
        while k < gap_auth_tree_data_blocks_count
            invariant
                old(self).wf(),
                s == old(self).states@,
                l == old(self).auth_log2(),
                jl == old(self).journal_log2(),
                size == align::block_size(l),
                block_len == size,
                index == states_insertion_index,
                n == gap_auth_tree_data_blocks_count,
                begin == gap_target_allocation_blocks_begin.index,
                align::aligned(begin, l),
                states::insertion_point(s, begin, index),
                begin + n * size <= u64::MAX,
                index < s.len() ==> s[index].target() >= begin + n * size,
                pending_frees.wf(),
                self.same_layout(old(self)),
                0 <= k <= n,
                cur == begin + k * size,
                new.len() == k,
                self.states@ == s.take(index) + new + s.skip(index),
                forall|i: int|
                    0 <= i < k ==> old(self).missing_filled(
                        #[trigger] new[i],
                        begin + i * size,
                        alloc_bitmap,
                        pending_frees,
                    ),
            decreases n - k,
        {
            proof {
                align::lemma_block_size_pos(l);
                assert((k + 1) * size <= n * size) by (nonlinear_arith)
                    requires
                        k + 1 <= n,
                        size >= 1,
                ;
                assert((k + 1) * size == k * size + size) by (nonlinear_arith);
                assert(k * size >= 0) by (nonlinear_arith)
                    requires
                        k >= 0,
                        size >= 1,
                ;
                align::lemma_multiple_is_aligned(k as int, l);
                align::lemma_aligned_sum(begin, k * size, l);
                if index > 0 {
                    assert(self.states@[index - 1] == s[index - 1]);
                }
                if index < s.len() {
                    assert(self.states@[index + k] == s[index]);
                }
                assert(index + k <= self.states.len());
            }
            let target = PhysicalAllocBlockIndex { index: cur };
            let prev: Option<usize> = if states_insertion_index > 0 {
                Some(states_insertion_index - 1)
            } else {
                None
            };
            let journal = self.inherited_journal_staging_copy(target, prev, states_insertion_index + k);
            let allocation_blocks_states = match new_allocation_blocks_states(
                target,
                self.auth_tree_data_block_allocation_blocks_log2 as u32,
                self.io_block_allocation_blocks_log2 as u32,
                alloc_bitmap,
                pending_frees,
            ) {
                Ok(allocation_blocks_states) => allocation_blocks_states,
                Err(e) => {
                    // Rollback the partial insertions to leave the states in a clean state.
                    while k > 0
                        invariant
                            old(self).wf(),
                            s == old(self).states@,
                            self.same_layout(old(self)),
                            index == states_insertion_index,
                            0 <= index <= s.len(),
                            new.len() == k,
                            self.states@ == s.take(index) + new + s.skip(index),
                        decreases k,
                    {
                        let _ = self.states.remove(states_insertion_index);
                        proof {
                            new = new.skip(1);
                            assert(self.states@ =~= s.take(index) + new + s.skip(index));
                        }
                        k = k - 1;
                    }
                    assert(self.states@ =~= s);
                    return Err(e);
                },
            };
            let state = AuthTreeDataBlockUpdateState {
                target_allocation_blocks_begin: target,
                journal_staging_copy_allocation_blocks_begin: journal,
                allocation_blocks_states,
                auth_digest: None,
            };
            proof {
                lemma_neighbour_inheritance(s, state, index, l, jl);
                assert(old(self).missing_filled(state, begin + k * size, alloc_bitmap, pending_frees));
            }
            self.states.insert(states_insertion_index + k, state);
            proof {
                new = new.push(state);
                assert(self.states@ =~= s.take(index) + new + s.skip(index));
            }
            cur = cur + block_len;
            k = k + 1;
        }
        proof {
            lemma_gap_fill_wf(s, new, index, begin, l, jl);
            assert(self.states@.subrange(index, index + n) =~= new);
        }
        Ok(())
    }

    /// The entry is for the Authentication Tree Data Block at a given target
    /// location, in its initial state.
    pub open spec fn missing_filled(
        &self,
        state: AuthTreeDataBlockUpdateState,
        target: int,
        alloc_bitmap: &AllocBitmap,
        pending_frees: &SparseAllocBitmap,
    ) -> bool {
        &&& state.target() == target
        &&& state.wf(self.auth_log2())
        &&& fresh_state(state, self.io_log2(), alloc_bitmap, pending_frees)
        &&& inherits_journal(self.states@, state, self.journal_log2())
    }

    /// The collection obtained by inserting all missing entries for target
    /// locations from `begin` to `end`, with `lo` and `hi` being the original
    /// collection's index range for that region.
    #[verifier::opaque]
    pub open spec fn filled(
        &self,
        old_states: &Self,
        begin: int,
        end: int,
        lo: int,
        hi: int,
        alloc_bitmap: &AllocBitmap,
        pending_frees: &SparseAllocBitmap,
    ) -> bool {
        let s = old_states.states@;
        let n = align::blocks(end - begin, old_states.auth_log2());
        &&& self.same_layout(old_states)
        &&& states::insertion_point(s, begin, lo)
        &&& states::insertion_point(s, end, hi)
        &&& 0 <= hi - lo <= n
        &&& self.states@.len() == s.len() + n - (hi - lo)
        // Entries for locations before the region are unchanged.
        &&& forall|i: int| 0 <= i < lo ==> self.states@[i] == #[trigger] s[i]
        // Entries for locations after the region are unchanged, but get moved.
        &&& forall|i: int| hi <= i < s.len() ==> self.states@[i + n - (hi - lo)] == #[trigger] s[i]
        // Existing entries within the region are retained.
        &&& forall|i: int|
            lo <= i < hi ==> self.states@[lo + align::blocks(
                (#[trigger] s[i]).target() - begin,
                old_states.auth_log2(),
            )] == s[i]
        // The region is completely populated.
        &&& forall|i: int|
            lo <= i < lo + n ==> (#[trigger] self.states@[i]).target() == begin + (i - lo) * old_states.block_len()
        // All missing entries have been created in their initial state.
        &&& forall|i: int|
            lo <= i < lo + n && (forall|k: int|
                lo <= k < hi ==> (#[trigger] s[k]).target() != begin + (i - lo) * old_states.block_len())
                ==> old_states.missing_filled(
                #[trigger] self.states@[i],
                begin + (i - lo) * old_states.block_len(),
                alloc_bitmap,
                pending_frees,
            )
    }
}

/// Inspecting the direct neighbours is sufficient for finding any entry from
/// the same target block.
proof fn lemma_neighbour_inheritance(
    s: Seq<AuthTreeDataBlockUpdateState>,
    state: AuthTreeDataBlockUpdateState,
    index: int,
    l: nat,
    jl: nat,
)
    requires
        states::states_wf(s, l, jl),
        l <= jl,
        0 <= index <= s.len(),
        align::aligned(state.target(), l),
        forall|i: int| 0 <= i < index ==> (#[trigger] s[i]).target() < state.target(),
        forall|i: int| index <= i < s.len() ==> (#[trigger] s[i]).target() > state.target(),
        ({
            let t = state.target();
            let j = location_view(state.journal_staging_copy_allocation_blocks_begin);
            if jl == l {
                j is None
            } else if index > 0 && align::same_block(s[index - 1].target(), t, jl) {
                j == translate_journal(s[index - 1].journal_staging_copy_allocation_blocks_begin, t, jl)
            } else if index < s.len() && align::same_block(s[index].target(), t, jl) {
                j == translate_journal(s[index].journal_staging_copy_allocation_blocks_begin, t, jl)
            } else {
                j is None
            }
        }),
    ensures
        inherits_journal(s, state, jl),
{
    let t = state.target();
    assert forall|i: int| 0 <= i < s.len() && align::same_block((#[trigger] s[i]).target(), t, jl) implies location_view(
        state.journal_staging_copy_allocation_blocks_begin,
    ) == translate_journal(s[i].journal_staging_copy_allocation_blocks_begin, t, jl) by {
        assert(s[i].wf(l));
        if i < index {
            if i < index - 1 {
                assert(s[i].target() < s[index - 1].target());
            }
            align::lemma_align_down_mono(s[i].target(), s[index - 1].target(), jl);
            align::lemma_align_down_mono(s[index - 1].target(), t, jl);
            assert(s[i].journal_agrees(&s[index - 1], jl));
        } else {
            if index < i {
                assert(s[index].target() < s[i].target());
            }
            align::lemma_align_down_mono(t, s[index].target(), jl);
            align::lemma_align_down_mono(s[index].target(), s[i].target(), jl);
            assert(s[i].journal_agrees(&s[index], jl));
            if index > 0 {
                assert(s[i].journal_agrees(&s[index - 1], jl));
            }
        }
    }
}

/// Skipping over an existing entry when populating a region in order.
proof fn lemma_filled_skip(
    o: AuthTreeDataBlocksUpdateStates,
    m: AuthTreeDataBlocksUpdateStates,
    begin: int,
    x: int,
    lo: int,
    hi: int,
    alloc_bitmap: &AllocBitmap,
    pending_frees: &SparseAllocBitmap,
)
    requires
        o.wf(),
        m.filled(&o, begin, x, lo, hi, alloc_bitmap, pending_frees),
        align::aligned(begin, o.auth_log2()),
        align::aligned(x, o.auth_log2()),
        begin <= x,
        hi < o.states@.len(),
        o.states@[hi].target() == x,
    ensures
        m.filled(&o, begin, x + o.block_len(), lo, hi + 1, alloc_bitmap, pending_frees),
        align::blocks(x + o.block_len() - begin, o.auth_log2()) == align::blocks(x - begin, o.auth_log2()) + 1,
{
    reveal(AuthTreeDataBlocksUpdateStates::filled);
    let s = o.states@;
    let l = o.auth_log2();
    let size = o.block_len();
    let n = align::blocks(x - begin, l);
    align::lemma_block_size_pos(l);
    align::lemma_aligned_sum(x, begin, l);
    align::lemma_aligned_next(x - begin, l);
    align::lemma_aligned_is_multiple(x - begin, l);
    assert(x - begin + size == x + size - begin);
    assert forall|i: int| hi + 1 <= i < s.len() implies (#[trigger] s[i]).target() >= x + size by {
        assert(s[i].wf(l));
        align::lemma_aligned_gap(x, s[i].target(), l);
    }
    assert(m.states@[lo + n] == s[hi]) by {
        assert(m.states@[hi + n - (hi - lo)] == s[hi]);
    }
    assert forall|i: int|
        lo <= i < lo + n + 1 && (forall|k: int|
            lo <= k < hi + 1 ==> (#[trigger] s[k]).target() != begin + (i - lo) * size) implies o.missing_filled(
        #[trigger] m.states@[i],
        begin + (i - lo) * size,
        alloc_bitmap,
        pending_frees,
    ) by {
        assert(s[hi].target() == x);
    }
}

/// Populating a gap when populating a region in order.
proof fn lemma_filled_gap(
    o: AuthTreeDataBlocksUpdateStates,
    m: AuthTreeDataBlocksUpdateStates,
    f: AuthTreeDataBlocksUpdateStates,
    begin: int,
    x: int,
    gap_end: int,
    lo: int,
    hi: int,
    alloc_bitmap: &AllocBitmap,
    pending_frees: &SparseAllocBitmap,
)
    requires
        o.wf(),
        m.filled(&o, begin, x, lo, hi, alloc_bitmap, pending_frees),
        align::aligned(begin, o.auth_log2()),
        align::aligned(x, o.auth_log2()),
        align::aligned(gap_end, o.auth_log2()),
        begin <= x <= gap_end,
        hi < o.states@.len() ==> o.states@[hi].target() >= gap_end,
        f.same_layout(&m),
        ({
            let index = lo + align::blocks(x - begin, o.auth_log2());
            let n = align::blocks(gap_end - x, o.auth_log2());
            let new = f.states@.subrange(index, index + n);
            &&& f.states@ == m.states@.take(index) + new + m.states@.skip(index)
            &&& new.len() == n
            &&& forall|k: int|
                0 <= k < n ==> m.missing_filled(
                    #[trigger] new[k],
                    x + k * o.block_len(),
                    alloc_bitmap,
                    pending_frees,
                )
        }),
    ensures
        f.filled(&o, begin, gap_end, lo, hi, alloc_bitmap, pending_frees),
        align::blocks(gap_end - begin, o.auth_log2()) == align::blocks(x - begin, o.auth_log2()) + align::blocks(
            gap_end - x,
            o.auth_log2(),
        ),
{
    reveal(AuthTreeDataBlocksUpdateStates::filled);
    let s = o.states@;
    let l = o.auth_log2();
    let jl = o.journal_log2();
    let size = o.block_len();
    let n0 = align::blocks(x - begin, l);
    let n = align::blocks(gap_end - x, l);
    let index = lo + n0;
    let new = f.states@.subrange(index, index + n);
    align::lemma_block_size_pos(l);
    align::lemma_aligned_sum(x, begin, l);
    align::lemma_aligned_sum(gap_end, x, l);
    align::lemma_aligned_sum(x - begin, gap_end - x, l);
    align::lemma_aligned_is_multiple(x - begin, l);
    align::lemma_aligned_is_multiple(gap_end - x, l);
    assert((x - begin) + (gap_end - x) == gap_end - begin);
    assert forall|i: int| 0 <= i < f.states@.len() implies #[trigger] f.states@[i] == if i < index {
        m.states@[i]
    } else if i < index + n {
        new[i - index]
    } else {
        m.states@[i - n]
    } by {}
    assert forall|i: int| hi <= i < s.len() implies (#[trigger] s[i]).target() >= gap_end by {
        if hi < i {
            assert(s[hi].target() < s[i].target());
        }
    }
    assert forall|i: int| hi <= i < s.len() implies f.states@[i + (n0 + n) - (hi - lo)] == #[trigger] s[i] by {
        assert(m.states@[i + n0 - (hi - lo)] == s[i]);
    }
    assert forall|i: int| lo <= i < hi implies f.states@[lo + align::blocks((#[trigger] s[i]).target() - begin, l)]
        == s[i] by {
        assert(m.states@[lo + align::blocks(s[i].target() - begin, l)] == s[i]);
        assert(s[i].wf(l));
        align::lemma_aligned_gap(s[i].target(), x, l);
        align::lemma_aligned_sum(s[i].target(), begin, l);
        align::lemma_aligned_next(s[i].target() - begin, l);
        align::lemma_blocks_mono(s[i].target() - begin + size, x - begin, l);
        align::lemma_aligned_is_multiple(s[i].target() - begin, l);
    }
    assert forall|i: int| index <= i < index + n implies {
        &&& (#[trigger] f.states@[i]).target() == begin + (i - lo) * size
        &&& o.missing_filled(f.states@[i], begin + (i - lo) * size, alloc_bitmap, pending_frees)
    } by {
        let state = new[i - index];
        assert(m.missing_filled(state, x + (i - index) * size, alloc_bitmap, pending_frees));
        let k = i - index;
        assert(k * size + n0 * size == (i - lo) * size) by (nonlinear_arith)
            requires
                k + n0 == i - lo,
        ;
        // Any original entry from the same target block is still there.
        assert forall|j: int| 0 <= j < s.len() && align::same_block((#[trigger] s[j]).target(), state.target(), jl)
            implies location_view(state.journal_staging_copy_allocation_blocks_begin) == translate_journal(
            s[j].journal_staging_copy_allocation_blocks_begin,
            state.target(),
            jl,
        ) by {
            let p = if j < lo {
                j
            } else if j < hi {
                lo + align::blocks(s[j].target() - begin, l)
            } else {
                j + n0 - (hi - lo)
            };
            assert(m.states@[p] == s[j]);
            if lo <= j < hi {
                assert(s[j].wf(l));
                align::lemma_aligned_gap(s[j].target(), x, l);
                align::lemma_aligned_sum(s[j].target(), begin, l);
                align::lemma_aligned_next(s[j].target() - begin, l);
                align::lemma_blocks_mono(s[j].target() - begin + size, x - begin, l);
                align::lemma_aligned_is_multiple(s[j].target() - begin, l);
            }
            assert(0 <= p < m.states@.len());
        }
        if forall|j: int| 0 <= j < s.len() ==> !align::same_block((#[trigger] s[j]).target(), state.target(), jl) {
            assert forall|p: int|
                0 <= p < m.states@.len() && align::same_block((#[trigger] m.states@[p]).target(), state.target(), jl)
                implies m.states@[p].journal_staging_copy_allocation_blocks_begin is None by {
                if p < lo {
                    assert(m.states@[p] == s[p]);
                } else if p >= lo + n0 {
                    assert(m.states@[p] == s[p - n0 + (hi - lo)]);
                } else {
                    if exists|q: int| lo <= q < hi && (#[trigger] s[q]).target() == begin + (p - lo) * size {
                        let q = choose|q: int|
                            lo <= q < hi && (#[trigger] s[q]).target() == begin + (p - lo) * size;
                        assert(!align::same_block(s[q].target(), state.target(), jl));
                    } else {
                        assert(o.missing_filled(
                            m.states@[p],
                            begin + (p - lo) * size,
                            alloc_bitmap,
                            pending_frees,
                        ));
                    }
                }
            }
            if exists|p: int|
                0 <= p < m.states@.len() && align::same_block((#[trigger] m.states@[p]).target(), state.target(), jl) {
                let p = choose|p: int|
                    0 <= p < m.states@.len() && align::same_block(
                        (#[trigger] m.states@[p]).target(),
                        state.target(),
                        jl,
                    );
                assert(location_view(state.journal_staging_copy_allocation_blocks_begin) == translate_journal(
                    m.states@[p].journal_staging_copy_allocation_blocks_begin,
                    state.target(),
                    jl,
                ));
            }
        }
        assert(inherits_journal(s, state, jl));
    }
}

impl AuthTreeDataBlocksUpdateStates {
    /// The region to insert missing entries in for a given target range.
    pub open spec fn insertion_region(&self, target_range: PhysicalAllocBlockRange) -> (int, int) {
        let l = self.auth_log2();
        let down = align::align_down(target_range.end.index as int, l);
        (
            align::align_down(target_range.begin.index as int, l),
            if down == target_range.end.index {
                down
            } else {
                down + self.block_len()
            },
        )
    }

    /// There is an entry for the Authentication Tree Data Block at a given
    /// target location.
    pub open spec fn present(&self, target: int) -> bool {
        exists|i: int| 0 <= i < self.states@.len() && (#[trigger] self.states@[i]).target() == target
    }

    /// There are entries for all Authentication Tree Data Blocks in a region,
    /// starting at index `lo`.
    pub open spec fn populated(&self, begin: int, end: int, lo: int) -> bool {
        let n = align::blocks(end - begin, self.auth_log2());
        &&& states::insertion_point(self.states@, begin, lo)
        &&& lo + n <= self.states@.len()
        &&& forall|i: int|
            lo <= i < lo + n ==> (#[trigger] self.states@[i]).target() == begin + (i - lo) * self.block_len()
    }

    /// Insert missing states for a given storage region.
    ///
    /// Inserted states start out in an unmodified state, with their allocation
    /// and initialization status deduced from the provided allocation bitmap
    /// information.
    ///
    /// Returns the Allocation Block level index range corresponding to the
    /// physical input `target_range` on success or an error otherwise.
    ///
    /// In either case, error or not, the number of states inserted is getting
    /// returned unconditionally. If non-zero, all pre-existing update
    /// tracking state indices obtained before the call are invalidated.
    ///
    /// # Arguments:
    ///
    /// * `target_range` - The range to populate missing states for.
    /// * `alloc_bitmap` - The allocation bitmap in its state from before the
    ///   transaction owning `self` has started.
    /// * `pending_frees` - Deallocations from the owning transaction to
    ///   logically apply on top of `alloc_bitmap`.
    /// * `states_insertion_index_hint` - Optional insertion hint, if specified,
    ///   must correspond to the result of
    ///   [`lookup_auth_tree_data_block_update_state_index()`](Self::lookup_auth_tree_data_block_update_state_index)
    ///   on `target_range.begin()`.
    pub fn insert_missing_in_range(
        &mut self,
        target_range: PhysicalAllocBlockRange,
        alloc_bitmap: &AllocBitmap,
        pending_frees: &SparseAllocBitmap,
        states_insertion_index_hint: Option<AuthTreeDataBlocksUpdateStatesIndex>,
    ) -> (r: Result<(AuthTreeDataBlocksUpdateStatesAllocationBlocksIndexRange, usize), (NvFsError, usize)>)
        requires
            old(self).wf(),
            pending_frees.wf(),
            target_range.wf(),
            old(self).insertion_region(target_range).0 < old(self).insertion_region(target_range).1,
            states_insertion_index_hint matches Some(hint) ==> states::insertion_point(
                old(self).states@,
                old(self).insertion_region(target_range).0,
                hint.index as int,
            ),
        ensures
            final(self).wf(),
            final(self).same_layout(old(self)),
            r is Err && r->Err_0.0 == NvFsError::Internal <==> old(self).insertion_region(target_range).1 > u64::MAX,
            // Nothing can fail if there is nothing to insert.
            old(self).insertion_region(target_range).1 <= u64::MAX && (exists|lo: int|
                #[trigger] old(self).populated(
                    old(self).insertion_region(target_range).0,
                    old(self).insertion_region(target_range).1,
                    lo,
                )) ==> r is Ok,
            r matches Ok((range, inserted_states_count)) ==> final(self).inserted(
                old(self),
                target_range,
                range,
                inserted_states_count as int,
                alloc_bitmap,
                pending_frees,
            ),
            r matches Err((e, _)) ==> e == NvFsError::Internal || e == NvFsError::MemoryAllocationFailure,
            r is Err && r->Err_0.1 == 0 ==> final(self).states@ == old(self).states@,
            r is Err && r->Err_0.1 > 0 ==> final(self).insertion_interrupted(
                old(self),
                target_range,
                r->Err_0.1 as int,
                alloc_bitmap,
                pending_frees,
            ),
    {
        let auth_log2: u32 = self.auth_tree_data_block_allocation_blocks_log2 as u32;
        let ghost l = self.auth_log2();
        let ghost s = self.states@;
        let ghost size = self.block_len();
        let ghost (begin, end) = self.insertion_region(target_range);
        proof {
            align::lemma_block_size_pos(l);
            align::lemma_align_down_bounds(target_range.begin.index as int, l);
            align::lemma_align_down_bounds(target_range.end.index as int, l);
        }
        let aligned_target_range = match target_range.align(auth_log2) {
            Some(aligned_target_range) => aligned_target_range,
            None => {
                return Err((NvFsError::Internal, 0));
            },
        };
        proof {
            let (a, d) = (aligned_target_range.end.index as int, align::align_down(target_range.end.index as int, l));
            align::lemma_aligned_next(d, l);
            if a > end {
                align::lemma_aligned_gap(end, a, l);
            }
            if a < end {
                align::lemma_aligned_gap(a, end, l);
            }
            assert(a == end);
            align::lemma_aligned_sum(end, begin, l);
            align::lemma_aligned_is_multiple(end - begin, l);
        }
        let blocks_count_u64: u64 = align::blocks_u64(aligned_target_range.block_count().count, auth_log2);
        if blocks_count_u64 > usize::MAX as u64 {
            assert(self.states@.len() == self.states.len());
            return Err((NvFsError::MemoryAllocationFailure, 0));
        }
        let blocks_count: usize = blocks_count_u64 as usize;
        // Consider the insertion position hint, if given, or lookup the target_range
        // otherwise.
        let range_begin: usize = match states_insertion_index_hint {
            Some(hint) => hint.index,
            None => match self.lookup_auth_tree_data_block_update_state_index(aligned_target_range.begin) {
                Ok(index) => index.index,
                Err(index) => index.index,
            },
        };
        let ghost lo = range_begin as int;
        // Count how many Authentication Tree Data Blocks are missing.
        let mut missing: usize = blocks_count;
        let mut i: usize = range_begin;
        while i < self.states.len() && self.states[i].target_allocation_blocks_begin.index
            < aligned_target_range.end.index
            invariant
                self.wf(),
                *self == *old(self),
                s == self.states@,
                l == self.auth_log2(),
                states::insertion_point(s, begin, lo),
                lo <= i <= s.len(),
                begin < end,
                align::aligned(begin, l),
                align::aligned(end, l),
                end == aligned_target_range.end.index,
                blocks_count == align::blocks(end - begin, l),
                forall|k: int| lo <= k < i ==> (#[trigger] s[k]).target() < end,
                missing + (i - lo) == blocks_count,
            decreases s.len() - i,
        {
            proof {
                lemma_entries_fit(s, l, begin, end, lo, i + 1);
            }
            missing = missing - 1;
            i = i + 1;
        }
        proof {
            if exists|p: int| #[trigger] self.populated(begin, end, p) {
                let p = choose|p: int| #[trigger] self.populated(begin, end, p);
                lemma_insertion_point_unique(s, begin, lo, p);
                if i < lo + blocks_count {
                    let k = i - lo;
                    assert(s[i as int].target() == begin + k * size);
                    assert(k * size < blocks_count * size) by (nonlinear_arith)
                        requires
                            k < blocks_count,
                            size >= 1,
                    ;
                }
                assert(missing == 0);
            }
        }
        if missing == 0 {
            // Everything is there already.
            proof {
                lemma_filled_complete(*self, begin, end, lo, alloc_bitmap, pending_frees);
            }
            let range = self.region_index_range(
                target_range,
                range_begin,
                Ghost(*old(self)),
                Ghost(lo + blocks_count),
                Ghost(alloc_bitmap),
                Ghost(pending_frees),
            );
            return Ok((range, 0));
        }
        // Reserve the additional capacity only once.

        match self.states.try_reserve(missing) {
            Ok(()) => (),
            Err(e) => {
                return Err((NvFsError::from(e), 0));
            },
        }
        let block_len: u64 = align::block_size_u64(auth_log2);
        let mut inserted_states_count: usize = 0;
        let mut index: usize = range_begin;
        let mut cur: u64 = aligned_target_range.begin.index;
        let ghost mut hi = lo;
        proof {
            align::lemma_aligned_unit(l);
            reveal(AuthTreeDataBlocksUpdateStates::filled);
        }
        while cur < aligned_target_range.end.index
            invariant
                old(self).wf(),
                self.wf(),
                pending_frees.wf(),
                self.same_layout(old(self)),
                s == old(self).states@,
                l == old(self).auth_log2(),
                auth_log2 == l,
                size == old(self).block_len(),
                block_len == size,
                begin == old(self).insertion_region(target_range).0,
                end == old(self).insertion_region(target_range).1,
                align::aligned(begin, l),
                align::aligned(end, l),
                align::aligned(cur as int, l),
                begin <= cur <= end,
                begin < end,
                end == aligned_target_range.end.index,
                align::blocks(end - begin, l) <= usize::MAX,
                lo == range_begin,
                index == lo + align::blocks(cur - begin, l),
                inserted_states_count == align::blocks(cur - begin, l) - (hi - lo),
                self.filled(old(self), begin, cur as int, lo, hi, alloc_bitmap, pending_frees),
                cur == begin || old(self).present(cur - size) || cur == end || hi < s.len() && s[hi].target() == cur,
                !exists|p: int| #[trigger] old(self).populated(begin, end, p),
            decreases end - cur,
        {
            let ghost m = *self;
            proof {
                align::lemma_block_size_pos(l);
                align::lemma_aligned_next(cur as int, l);
                align::lemma_aligned_gap(cur as int, end, l);
                lemma_filled_insertion_point(*old(self), *self, begin, cur as int, lo, hi, alloc_bitmap, pending_frees);
            }
            if index < self.states.len() && self.states[index].target_allocation_blocks_begin.index == cur {
                // There's already an entry corresponding to the current Authentication Tree
                // Data Block, skip past it.
                proof {
                    lemma_filled_skip(*old(self), *self, begin, cur as int, lo, hi, alloc_bitmap, pending_frees);
                    assert(s[hi].target() == cur);
                    hi = hi + 1;
                }
                index = index + 1;
                cur = cur + block_len;
                continue ;
            }
            let gap_end: u64 = if index < self.states.len()
                && self.states[index].target_allocation_blocks_begin.index < aligned_target_range.end.index {
                self.states[index].target_allocation_blocks_begin.index
            } else {
                aligned_target_range.end.index
            };
            proof {
                if hi < s.len() {
                    assert(s[hi].wf(l));
                }
                align::lemma_aligned_sum(gap_end as int, cur as int, l);
                align::lemma_aligned_is_multiple(gap_end - cur, l);
                align::lemma_blocks_mono(gap_end - cur, end - begin, l);
            }
            let gap_blocks_count: u64 = align::blocks_u64(gap_end - cur, auth_log2);
            match self.insert_gap(
                index,
                PhysicalAllocBlockIndex { index: cur },
                gap_blocks_count as usize,
                alloc_bitmap,
                pending_frees,
            ) {
                Ok(()) => (),
                Err(e) => {
                    proof {
                        lemma_filled_congruent(
                            *old(self),
                            m,
                            *self,
                            begin,
                            cur as int,
                            lo,
                            hi,
                            alloc_bitmap,
                            pending_frees,
                        );
                        if inserted_states_count == 0 {
                            lemma_filled_nothing(
                                *old(self),
                                *self,
                                begin,
                                cur as int,
                                lo,
                                hi,
                                alloc_bitmap,
                                pending_frees,
                            );
                        }
                        assert(self.partially_inserted(
                            old(self),
                            begin,
                            end,
                            cur as int,
                            lo,
                            inserted_states_count as int,
                            alloc_bitmap,
                            pending_frees,
                        ));
                        assert(self.insertion_interrupted(
                            old(self),
                            target_range,
                            inserted_states_count as int,
                            alloc_bitmap,
                            pending_frees,
                        ));
                    }
                    return Err((e, inserted_states_count));
                },
            }
            proof {
                lemma_filled_gap(
                    *old(self),
                    m,
                    *self,
                    begin,
                    cur as int,
                    gap_end as int,
                    lo,
                    hi,
                    alloc_bitmap,
                    pending_frees,
                );
                assert(index + gap_blocks_count <= self.states.len());
            }
            index = index + gap_blocks_count as usize;
            inserted_states_count = inserted_states_count + gap_blocks_count as usize;
            cur = gap_end;
        }
        let range = self.region_index_range(
            target_range,
            range_begin,
            Ghost(*old(self)),
            Ghost(hi),
            Ghost(alloc_bitmap),
            Ghost(pending_frees),
        );
        Ok((range, inserted_states_count))
    }

    /// Determine the Allocation Block level index range corresponding to a
    /// completely populated target range.
    fn region_index_range(
        &self,
        target_range: PhysicalAllocBlockRange,
        range_begin: usize,
        Ghost(old_states): Ghost<Self>,
        Ghost(hi): Ghost<int>,
        Ghost(alloc_bitmap): Ghost<&AllocBitmap>,
        Ghost(pending_frees): Ghost<&SparseAllocBitmap>,
    ) -> (range: AuthTreeDataBlocksUpdateStatesAllocationBlocksIndexRange)
        requires
            old_states.wf(),
            self.wf(),
            target_range.wf(),
            ({
                let (begin, end) = old_states.insertion_region(target_range);
                &&& begin < end
                &&& self.filled(&old_states, begin, end, range_begin as int, hi, alloc_bitmap, pending_frees)
            }),
        ensures
            ({
                let (begin, end) = old_states.insertion_region(target_range);
                let n = align::blocks(end - begin, old_states.auth_log2());
                &&& range.begin.block() == range_begin
                &&& self.inserted(
                    &old_states,
                    target_range,
                    range,
                    range_begin + n - hi,
                    alloc_bitmap,
                    pending_frees,
                )
            }),
    {
        let auth_log2: u32 = self.auth_tree_data_block_allocation_blocks_log2 as u32;
        let ghost l = old_states.auth_log2();
        let ghost (begin, end) = old_states.insertion_region(target_range);
        proof {
            reveal(AuthTreeDataBlocksUpdateStates::filled);
            align::lemma_block_size_usize(l);
            align::lemma_block_size_pos(l);
            align::lemma_align_down_bounds(target_range.begin.index as int, l);
            let e = target_range.end.index as int;
            let d = align::align_down(e, l);
            align::lemma_align_down_bounds(e, l);
            align::lemma_aligned_next(d, l);
            align::lemma_aligned_sum(end, begin, l);
            align::lemma_aligned_is_multiple(end - begin, l);
            align::lemma_blocks_mono(e - begin, end - begin, l);
            align::lemma_align_down_bounds(e - begin, l);
            align::lemma_blocks_align_down(e - begin, l);
            let size = align::block_size(l);
            let n = align::blocks(end - begin, l);
            align::lemma_aligned_gap(begin, end, l);
            assert(n >= 1) by (nonlinear_arith)
                requires
                    n * size >= size,
                    size >= 1,
            ;
            assert(0 * size == 0) by (nonlinear_arith);
            assert(self.states@[range_begin as int].target() == begin + (range_begin - range_begin) * size);
            if align::blocks(e - begin, l) == n {
                assert(align::align_down(e - begin, l) == end - begin);
            }
            assert(range_begin + n <= self.states.len());
        }
        let begin_index = AuthTreeDataBlocksUpdateStatesAllocationBlockIndex::new(
            AuthTreeDataBlocksUpdateStatesIndex { index: range_begin },
            (target_range.begin.index - target_range.begin.align_down(auth_log2).index) as usize,
        );
        let end_index = begin_index.advance(target_range.block_count(), auth_log2);
        proof {
            crate::states_index::lemma_position_injective(begin_index, end_index, l);
        }
        AuthTreeDataBlocksUpdateStatesAllocationBlocksIndexRange { begin: begin_index, end: end_index }
    }

    /// Outcome of successfully inserting all missing states for a given
    /// storage region, with `range` being the index range corresponding to that
    /// region.
    pub open spec fn inserted(
        &self,
        old_states: &Self,
        target_range: PhysicalAllocBlockRange,
        range: AuthTreeDataBlocksUpdateStatesAllocationBlocksIndexRange,
        inserted_states_count: int,
        alloc_bitmap: &AllocBitmap,
        pending_frees: &SparseAllocBitmap,
    ) -> bool {
        let l = old_states.auth_log2();
        let (begin, end) = old_states.insertion_region(target_range);
        let lo = range.begin.block();
        &&& self.filled(
            old_states,
            begin,
            end,
            lo,
            lo + align::blocks(end - begin, l) - inserted_states_count,
            alloc_bitmap,
            pending_frees,
        )
        &&& self.valid_blocks_range(&range)
        &&& lo < self.states@.len()
        &&& self.block_target(range.begin) == target_range.begin.index
        &&& range.end.position(l) - range.begin.position(l) == target_range.end.index - target_range.begin.index
    }

    /// Outcome of inserting missing states for a given storage region failing
    /// midways.
    pub open spec fn insertion_interrupted(
        &self,
        old_states: &Self,
        target_range: PhysicalAllocBlockRange,
        inserted_states_count: int,
        alloc_bitmap: &AllocBitmap,
        pending_frees: &SparseAllocBitmap,
    ) -> bool {
        let region = old_states.insertion_region(target_range);
        exists|x: int, lo: int| #[trigger]
            self.partially_inserted(
                old_states,
                region.0,
                region.1,
                x,
                lo,
                inserted_states_count,
                alloc_bitmap,
                pending_frees,
            )
    }

    /// Outcome of a failed attempt to insert missing states in a region.
    ///
    /// States get populated in order, with gaps being filled either completely
    /// or not at all. All up to `x`, the beginning of some gap, have been
    /// inserted.
    pub open spec fn partially_inserted(
        &self,
        old_states: &Self,
        begin: int,
        end: int,
        x: int,
        lo: int,
        inserted_states_count: int,
        alloc_bitmap: &AllocBitmap,
        pending_frees: &SparseAllocBitmap,
    ) -> bool {
        let l = old_states.auth_log2();
        &&& begin <= x < end
        &&& align::aligned(x, l)
        &&& x == begin || old_states.present(x - old_states.block_len())
        &&& self.filled(
            old_states,
            begin,
            x,
            lo,
            lo + align::blocks(x - begin, l) - inserted_states_count,
            alloc_bitmap,
            pending_frees,
        )
    }
}

/// The insertion point for a target location is unique.
pub proof fn lemma_insertion_point_unique(s: Seq<AuthTreeDataBlockUpdateState>, target: int, i: int, j: int)
    requires
        states::insertion_point(s, target, i),
        states::insertion_point(s, target, j),
    ensures
        i == j,
{
    if i < j {
        assert(s[i].target() < target);
    }
    if j < i {
        assert(s[j].target() < target);
    }
}

/// There are no more entries in a region than there are Authentication Tree
/// Data Blocks.
pub proof fn lemma_entries_fit(s: Seq<AuthTreeDataBlockUpdateState>, l: nat, begin: int, end: int, lo: int, hi: int)
    requires
        states::sorted(s, l),
        align::aligned(begin, l),
        align::aligned(end, l),
        begin <= end,
        0 <= lo <= hi <= s.len(),
        forall|k: int| lo <= k < hi ==> begin <= (#[trigger] s[k]).target() < end,
    ensures
        hi - lo <= align::blocks(end - begin, l),
{
    align::lemma_aligned_sum(end, begin, l);
    align::lemma_aligned_is_multiple(end - begin, l);
    if lo < hi {
        let t = s[hi - 1].target();
        states::lemma_sorted_distance(s, l, lo, hi - 1);
        assert(s[hi - 1].wf(l) && begin <= s[lo].target());
        align::lemma_aligned_gap(t, end, l);
        let size = align::block_size(l);
        align::lemma_multiple_is_aligned(hi - lo, l);
        assert((hi - lo) * size == (hi - 1 - lo) * size + size) by (nonlinear_arith);
        align::lemma_blocks_mono((hi - lo) * size, end - begin, l);
    }
}

/// Having populated a region up to some point, the entries' positions are as
/// expected.
proof fn lemma_filled_insertion_point(
    o: AuthTreeDataBlocksUpdateStates,
    m: AuthTreeDataBlocksUpdateStates,
    begin: int,
    x: int,
    lo: int,
    hi: int,
    alloc_bitmap: &AllocBitmap,
    pending_frees: &SparseAllocBitmap,
)
    requires
        o.wf(),
        m.filled(&o, begin, x, lo, hi, alloc_bitmap, pending_frees),
        align::aligned(begin, o.auth_log2()),
        align::aligned(x, o.auth_log2()),
        begin <= x,
    ensures
        states::insertion_point(m.states@, x, lo + align::blocks(x - begin, o.auth_log2())),
        m.states@.len() - (lo + align::blocks(x - begin, o.auth_log2())) == o.states@.len() - hi,
        0 <= hi <= o.states@.len(),
        hi < o.states@.len() ==> m.states@[lo + align::blocks(x - begin, o.auth_log2())] == o.states@[hi],
{
    reveal(AuthTreeDataBlocksUpdateStates::filled);
    let l = o.auth_log2();
    let n = align::blocks(x - begin, l);
    let s = o.states@;
    align::lemma_block_size_pos(l);
    align::lemma_aligned_sum(x, begin, l);
    align::lemma_aligned_is_multiple(x - begin, l);
    assert forall|i: int| 0 <= i < lo + n implies (#[trigger] m.states@[i]).target() < x by {
        if i < lo {
            assert(m.states@[i] == s[i]);
        } else {
            let k = i - lo;
            let size = o.block_len();
            assert(k * size + size <= n * size) by (nonlinear_arith)
                requires
                    k + 1 <= n,
                    size >= 1,
            ;
        }
    }
    assert forall|i: int| lo + n <= i < m.states@.len() implies (#[trigger] m.states@[i]).target() >= x by {
        let k = i - n + (hi - lo);
        assert(m.states@[k + n - (hi - lo)] == s[k]);
    }
    if hi < s.len() {
        assert(m.states@[hi + n - (hi - lo)] == s[hi]);
    }
}

/// If no entries have been inserted, then nothing has changed.
pub proof fn lemma_filled_nothing(
    o: AuthTreeDataBlocksUpdateStates,
    m: AuthTreeDataBlocksUpdateStates,
    begin: int,
    x: int,
    lo: int,
    hi: int,
    alloc_bitmap: &AllocBitmap,
    pending_frees: &SparseAllocBitmap,
)
    requires
        o.wf(),
        m.filled(&o, begin, x, lo, hi, alloc_bitmap, pending_frees),
        align::aligned(begin, o.auth_log2()),
        align::aligned(x, o.auth_log2()),
        begin <= x,
        align::blocks(x - begin, o.auth_log2()) == hi - lo,
    ensures
        m.states@ == o.states@,
{
    reveal(AuthTreeDataBlocksUpdateStates::filled);
    let l = o.auth_log2();
    let s = o.states@;
    assert forall|i: int| 0 <= i < s.len() implies m.states@[i] == #[trigger] s[i] by {
        if lo <= i < hi {
            // There are as many entries in the region as fit in there.
            assert(s[i].wf(l) && s[lo].wf(l));
            align::lemma_aligned_sum(s[i].target(), begin, l);
            align::lemma_aligned_sum(x, s[i].target(), l);
            align::lemma_aligned_sum(x - s[i].target(), s[i].target() - begin, l);
            assert((x - s[i].target()) + (s[i].target() - begin) == x - begin);
            lemma_entries_fit(s, l, begin, s[i].target(), lo, i);
            lemma_entries_fit(s, l, s[i].target(), x, i, hi);
            assert(align::blocks(s[i].target() - begin, l) == i - lo);
        }
    }
    assert(m.states@ =~= s);
}

/// A region with as many entries as there are Authentication Tree Data Blocks
/// in it is completely populated.
proof fn lemma_filled_complete(
    o: AuthTreeDataBlocksUpdateStates,
    begin: int,
    end: int,
    lo: int,
    alloc_bitmap: &AllocBitmap,
    pending_frees: &SparseAllocBitmap,
)
    requires
        o.wf(),
        align::aligned(begin, o.auth_log2()),
        align::aligned(end, o.auth_log2()),
        begin <= end,
        states::insertion_point(o.states@, begin, lo),
        states::insertion_point(o.states@, end, lo + align::blocks(end - begin, o.auth_log2())),
    ensures
        o.filled(
            &o,
            begin,
            end,
            lo,
            lo + align::blocks(end - begin, o.auth_log2()),
            alloc_bitmap,
            pending_frees,
        ),
{
    reveal(AuthTreeDataBlocksUpdateStates::filled);
    let l = o.auth_log2();
    let s = o.states@;
    let n = align::blocks(end - begin, l);
    align::lemma_aligned_sum(end, begin, l);
    align::lemma_aligned_is_multiple(end - begin, l);
    assert forall|i: int| lo <= i < lo + n implies {
        &&& align::blocks((#[trigger] s[i]).target() - begin, l) == i - lo
        &&& s[i].target() == begin + (i - lo) * o.block_len()
    } by {
        assert(s[i].wf(l));
        assert(begin <= s[i].target() < end);
        align::lemma_aligned_sum(s[i].target(), begin, l);
        align::lemma_aligned_sum(end, s[i].target(), l);
        align::lemma_aligned_sum(end - s[i].target(), s[i].target() - begin, l);
        assert((end - s[i].target()) + (s[i].target() - begin) == end - begin);
        align::lemma_aligned_is_multiple(s[i].target() - begin, l);
        lemma_entries_fit(s, l, begin, s[i].target(), lo, i);
        lemma_entries_fit(s, l, s[i].target(), end, i, lo + n);
    }
}

/// Only the entries are relevant for a region being populated.
proof fn lemma_filled_congruent(
    o: AuthTreeDataBlocksUpdateStates,
    m: AuthTreeDataBlocksUpdateStates,
    f: AuthTreeDataBlocksUpdateStates,
    begin: int,
    x: int,
    lo: int,
    hi: int,
    alloc_bitmap: &AllocBitmap,
    pending_frees: &SparseAllocBitmap,
)
    requires
        m.filled(&o, begin, x, lo, hi, alloc_bitmap, pending_frees),
        f.states@ == m.states@,
        f.same_layout(&m),
    ensures
        f.filled(&o, begin, x, lo, hi, alloc_bitmap, pending_frees),
{
    reveal(AuthTreeDataBlocksUpdateStates::filled);
}

/// If there is an entry for each Authentication Tree Data Block in a region,
/// then these are at successive positions.
pub proof fn lemma_present_populated(o: AuthTreeDataBlocksUpdateStates, begin: int, end: int, lo: int)
    requires
        o.wf(),
        align::aligned(begin, o.auth_log2()),
        align::aligned(end, o.auth_log2()),
        begin <= end,
        states::insertion_point(o.states@, begin, lo),
        forall|t: int| begin <= t < end && align::aligned(t, o.auth_log2()) ==> #[trigger] o.present(t),
    ensures
        o.populated(begin, end, lo),
{
    let l = o.auth_log2();
    let n = align::blocks(end - begin, l);
    align::lemma_aligned_sum(end, begin, l);
    align::lemma_aligned_is_multiple(end - begin, l);
    assert forall|i: int| lo <= i < lo + n implies i < o.states@.len() && (#[trigger] o.states@[i]).target() == begin + (
    i - lo) * o.block_len() by {
        lemma_present_position(o, begin, end, lo, i - lo);
    }
    if n > 0 {
        lemma_present_position(o, begin, end, lo, n - 1);
    }
}

proof fn lemma_present_position(o: AuthTreeDataBlocksUpdateStates, begin: int, end: int, lo: int, k: int)
    requires
        o.wf(),
        align::aligned(begin, o.auth_log2()),
        align::aligned(end, o.auth_log2()),
        begin <= end,
        states::insertion_point(o.states@, begin, lo),
        forall|t: int| begin <= t < end && align::aligned(t, o.auth_log2()) ==> #[trigger] o.present(t),
        0 <= k < align::blocks(end - begin, o.auth_log2()),
    ensures
        lo + k < o.states@.len(),
        o.states@[lo + k].target() == begin + k * o.block_len(),
    decreases k,
{
    let l = o.auth_log2();
    let s = o.states@;
    let size = o.block_len();
    let n = align::blocks(end - begin, l);
    let t = begin + k * size;
    align::lemma_block_size_pos(l);
    align::lemma_aligned_sum(end, begin, l);
    align::lemma_aligned_is_multiple(end - begin, l);
    align::lemma_multiple_is_aligned(k, l);
    align::lemma_aligned_sum(begin, k * size, l);
    assert(0 <= k * size && k * size + size <= n * size) by (nonlinear_arith)
        requires
            0 <= k,
            k + 1 <= n,
            size >= 1,
    ;
    assert(o.present(t));
    let j = choose|j: int| 0 <= j < s.len() && (#[trigger] s[j]).target() == t;
    if k > 0 {
        lemma_present_position(o, begin, end, lo, k - 1);
        assert((k - 1) * size + size == k * size) by (nonlinear_arith);
        if j < lo + k - 1 {
            assert(s[j].target() < s[lo + k - 1].target());
        }
        if lo + k < j {
            assert(s[lo + k].wf(l) && s[lo + k - 1].wf(l));
            assert(s[lo + k - 1].target() < s[lo + k].target() < s[j].target());
            align::lemma_aligned_gap(s[lo + k - 1].target(), s[lo + k].target(), l);
        }
    } else {
        assert(0 * size == 0) by (nonlinear_arith);
        if lo < j {
            assert(s[lo].target() < s[j].target());
        }
    }
}

} // verus!
