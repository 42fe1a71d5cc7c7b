//! Determination of storage regions to read missing data from.
use crate::align;
use crate::block_state::{
    AllocationBlockUpdateNvSyncState, AllocationBlockUpdateNvSyncStateAllocated,
    AllocationBlockUpdateNvSyncStateAllocatedModified, AllocationBlockUpdateNvSyncStateUnallocatedTargetState,
};
use crate::states;
use crate::states::AuthTreeDataBlocksUpdateStates;
use crate::states_index;
use crate::states_index::{
    AuthTreeDataBlocksUpdateStatesAllocationBlockIndex, AuthTreeDataBlocksUpdateStatesAllocationBlocksIndexRange,
};
use crate::transaction;
use crate::transaction::Transaction;
use vstd::prelude::*;

verus! {

/// Availability of an Allocation Block's data as tracked by its
/// [`AllocationBlockUpdateNvSyncState`].
#[derive(Clone, Copy, Debug, PartialEq, Eq, Structural)]
pub enum AllocationBlockNvSyncStateInfo {
    /// There's nothing initialized to read from anywhere.
    Uninitialized,
    /// The data is loaded.
    HasDataLoaded,
    /// The data must get read.
    NeedsDataRead {
        /// The data may get read from the target location.
        can_read_from_target: bool,
        /// The data may get read from the Journal Staging Copy.
        can_read_from_journal: bool,
    },
}

impl AllocationBlockUpdateNvSyncState {
    /// The data's availability.
    pub open spec fn info(&self) -> AllocationBlockNvSyncStateInfo {
        match *self {
            AllocationBlockUpdateNvSyncState::Unallocated(unallocated) => {
                let target_initialized = match unallocated.target_state {
                    AllocationBlockUpdateNvSyncStateUnallocatedTargetState::Unallocated { is_initialized } => {
                        is_initialized
                    },
                    AllocationBlockUpdateNvSyncStateUnallocatedTargetState::Allocated => true,
                };
                if !target_initialized && !unallocated.copied_to_journal {
                    AllocationBlockNvSyncStateInfo::Uninitialized
                } else if unallocated.random_fillup is Some {
                    AllocationBlockNvSyncStateInfo::HasDataLoaded
                } else {
                    AllocationBlockNvSyncStateInfo::NeedsDataRead {
                        can_read_from_target: target_initialized,
                        can_read_from_journal: unallocated.copied_to_journal,
                    }
                }
            },
            AllocationBlockUpdateNvSyncState::Allocated(
                AllocationBlockUpdateNvSyncStateAllocated::Unmodified(unmodified),
            ) => {
                if unmodified.cached_encrypted_data is Some {
                    AllocationBlockNvSyncStateInfo::HasDataLoaded
                } else {
                    AllocationBlockNvSyncStateInfo::NeedsDataRead {
                        can_read_from_target: true,
                        can_read_from_journal: unmodified.copied_to_journal,
                    }
                }
            },
            AllocationBlockUpdateNvSyncState::Allocated(
                AllocationBlockUpdateNvSyncStateAllocated::Modified(modified),
            ) => match modified {
                AllocationBlockUpdateNvSyncStateAllocatedModified::JournalDirty { .. } => {
                    AllocationBlockNvSyncStateInfo::HasDataLoaded
                },
                AllocationBlockUpdateNvSyncStateAllocatedModified::JournalClean { cached_encrypted_data } => {
                    if cached_encrypted_data is Some {
                        AllocationBlockNvSyncStateInfo::HasDataLoaded
                    } else {
                        AllocationBlockNvSyncStateInfo::NeedsDataRead {
                            can_read_from_target: false,
                            can_read_from_journal: true,
                        }
                    }
                },
            },
        }
    }
}

/// Determine the availability of an Allocation Block's data.
pub fn inspect_allocation_block_nv_sync_state(
    nv_sync_state: &AllocationBlockUpdateNvSyncState,
) -> (r: AllocationBlockNvSyncStateInfo)
    ensures
        r == nv_sync_state.info(),
{
    match nv_sync_state {
        AllocationBlockUpdateNvSyncState::Unallocated(unallocated_state) => {
            if !unallocated_state.target_state.is_initialized() && !unallocated_state.copied_to_journal {
                AllocationBlockNvSyncStateInfo::Uninitialized
            } else if unallocated_state.random_fillup.is_some() {
                AllocationBlockNvSyncStateInfo::HasDataLoaded
            } else {
                AllocationBlockNvSyncStateInfo::NeedsDataRead {
                    can_read_from_target: unallocated_state.target_state.is_initialized(),
                    can_read_from_journal: unallocated_state.copied_to_journal,
                }
            }
        },
        AllocationBlockUpdateNvSyncState::Allocated(allocated_state) => match allocated_state {
            AllocationBlockUpdateNvSyncStateAllocated::Unmodified(unmodified_state) => {
                if unmodified_state.cached_encrypted_data.is_some() {
                    AllocationBlockNvSyncStateInfo::HasDataLoaded
                } else {
                    AllocationBlockNvSyncStateInfo::NeedsDataRead {
                        can_read_from_target: true,
                        can_read_from_journal: unmodified_state.copied_to_journal,
                    }
                }
            },
            AllocationBlockUpdateNvSyncStateAllocated::Modified(modified_state) => match modified_state {
                AllocationBlockUpdateNvSyncStateAllocatedModified::JournalDirty { .. } => {
                    AllocationBlockNvSyncStateInfo::HasDataLoaded
                },
                AllocationBlockUpdateNvSyncStateAllocatedModified::JournalClean { cached_encrypted_data } => {
                    if cached_encrypted_data.is_some() {
                        AllocationBlockNvSyncStateInfo::HasDataLoaded
                    } else {
                        AllocationBlockNvSyncStateInfo::NeedsDataRead {
                            can_read_from_target: false,
                            can_read_from_journal: true,
                        }
                    }
                },
            },
        },
    }
}

impl AuthTreeDataBlocksUpdateStates {
    /// Number of Allocation Block level entries.
    pub open spec fn blocks_count(&self) -> int {
        self.states@.len() * self.block_len()
    }

    /// The storage location associated with a position in the sequence of all
    /// Allocation Block level entries.
    pub open spec fn target_at(&self, position: int) -> int {
        self.states@[position / self.block_len()].target() + position % self.block_len()
    }

    /// The end of the run of entries starting at `begin` whose storage
    /// locations are all in a common block of given size.
    pub open spec fn run_end(&self, begin: int, end: int, log2: nat) -> int
        decreases end - begin,
    {
        if begin + 1 < end && align::same_block(self.target_at(begin), self.target_at(begin + 1), log2) {
            self.run_end(begin + 1, end, log2)
        } else {
            begin + 1
        }
    }

    /// Relation between an index and its position.
    pub proof fn lemma_position(&self, index: AuthTreeDataBlocksUpdateStatesAllocationBlockIndex)
        requires
            index.wf(self.auth_log2()),
        ensures
            index.position(self.auth_log2()) / self.block_len() == index.block(),
            index.position(self.auth_log2()) % self.block_len() == index.offset(),
            self.target_at(index.position(self.auth_log2())) == self.block_target(index),
            self.block_at(index.position(self.auth_log2())) == self.block(index.block(), index.offset()),
            index.position(self.auth_log2()) < self.blocks_count() <==> index.block() < self.states@.len(),
    {
        let (n, size, b) = (self.states@.len() as int, self.block_len(), index.block());
        align::lemma_block_size_pos(self.auth_log2());
        vstd::arithmetic::div_mod::lemma_fundamental_div_mod_converse(
            index.position(self.auth_log2()),
            size,
            b,
            index.offset(),
        );
        if b < n {
            assert(b * size + size <= n * size) by (nonlinear_arith)
                requires
                    b + 1 <= n,
                    size > 0,
            ;
        } else {
            assert(b * size >= n * size) by (nonlinear_arith)
                requires
                    b >= n,
                    size > 0,
            ;
        }
    }

    /// The end of a valid index range is not past the last entry.
    pub proof fn lemma_valid_range_positions(&self, range: AuthTreeDataBlocksUpdateStatesAllocationBlocksIndexRange)
        requires
            self.valid_blocks_range(&range),
        ensures
            0 <= range.begin.position(self.auth_log2()) <= range.end.position(self.auth_log2()) <= self.blocks_count(),
    {
        let l = self.auth_log2();
        self.lemma_position(range.end);
        states_index::lemma_position_injective(range.begin, range.end, l);
        align::lemma_block_size_pos(l);
        let (b, size) = (range.begin.block(), self.block_len());
        assert(b * size >= 0) by (nonlinear_arith)
            requires
                b >= 0,
                size > 0,
        ;
    }

    /// Storage locations are in order, and at least as far apart as the
    /// entries.
    pub proof fn lemma_target_at_distance(&self, p: int, q: int)
        requires
            self.wf(),
            0 <= p <= q < self.blocks_count(),
        ensures
            self.target_at(q) - self.target_at(p) >= q - p,
            0 <= p / self.block_len() <= q / self.block_len() < self.states@.len(),
            0 <= p % self.block_len() < self.block_len(),
            0 <= q % self.block_len() < self.block_len(),
            0 <= self.target_at(p),
            self.target_at(q) < u64::MAX,
    {
        let (n, l, size) = (self.states@.len() as int, self.auth_log2(), self.block_len());
        align::lemma_block_size_pos(l);
        vstd::arithmetic::div_mod::lemma_fundamental_div_mod(p, size);
        vstd::arithmetic::div_mod::lemma_fundamental_div_mod(q, size);
        let (pb, qb) = (p / size, q / size);
        assert(0 <= pb <= qb < n) by (nonlinear_arith)
            requires
                p == size * pb + p % size,
                q == size * qb + q % size,
                0 <= p % size < size,
                0 <= q % size < size,
                0 <= p <= q < n * size,
                size > 0,
        ;
        states::lemma_sorted_distance(self.states@, l, pb, qb);
        assert((qb - pb) * size == size * qb - size * pb) by (nonlinear_arith);
        assert(self.states@[pb].wf(l) && self.states@[qb].wf(l));
    }

    /// A run is not empty and does not exceed the range it is from.
    pub proof fn lemma_run_end_bounds(&self, begin: int, end: int, log2: nat)
        requires
            begin < end,
        ensures
            begin < self.run_end(begin, end, log2) <= end,
        decreases end - begin,
    {
        if begin + 1 < end {
            self.lemma_run_end_bounds(begin + 1, end, log2);
        }
    }

    /// A run of entries from a common block.
    pub proof fn lemma_run_end(&self, begin: int, end: int, log2: nat)
        requires
            self.wf(),
            0 <= begin < end <= self.blocks_count(),
        ensures
            begin < self.run_end(begin, end, log2) <= end,
            forall|p: int|
                begin <= p < self.run_end(begin, end, log2) ==> align::same_block(
                    self.target_at(begin),
                    #[trigger] self.target_at(p),
                    log2,
                ),
            forall|p: int|
                self.run_end(begin, end, log2) <= p < end ==> align::align_down(
                    #[trigger] self.target_at(p),
                    log2,
                ) > align::align_down(self.target_at(begin), log2),
        decreases end - begin,
    {
        if begin + 1 < end {
            self.lemma_target_at_distance(begin, begin + 1);
            if align::same_block(self.target_at(begin), self.target_at(begin + 1), log2) {
                self.lemma_run_end(begin + 1, end, log2);
                assert forall|p: int| begin <= p < self.run_end(begin, end, log2) implies align::same_block(
                    self.target_at(begin),
                    #[trigger] self.target_at(p),
                    log2,
                ) by {}
            } else {
                align::lemma_align_down_mono(self.target_at(begin), self.target_at(begin + 1), log2);
                assert forall|p: int| begin + 1 <= p < end implies align::align_down(
                    #[trigger] self.target_at(p),
                    log2,
                ) > align::align_down(self.target_at(begin), log2) by {
                    self.lemma_target_at_distance(begin + 1, p);
                    align::lemma_align_down_mono(self.target_at(begin + 1), self.target_at(p), log2);
                }
            }
        }
    }
}

impl Transaction {
    /// Availability of the data at a position in the sequence of all Allocation
    /// Block level entries.
    pub open spec fn info_at(&self, position: int) -> AllocationBlockNvSyncStateInfo {
        self.auth_tree_data_blocks_update_states.block_at(position).nv_sync_state.info()
    }

    /// There's some uninitialized Allocation Block in a range.
    pub open spec fn any_uninitialized(&self, begin: int, end: int) -> bool {
        exists|p: int| begin <= p < end && #[trigger] self.info_at(p) is Uninitialized
    }

    /// There's data missing in the part of a range intersecting with another
    /// one.
    pub open spec fn any_needs_read(&self, begin: int, end: int, request: (int, int)) -> bool {
        exists|p: int|
            begin <= p < end && request.0 <= p < request.1 && #[trigger] self.info_at(p) is NeedsDataRead
    }

    /// All data missing in a range may get read from the target location.
    pub open spec fn all_readable_from_target(&self, begin: int, end: int) -> bool {
        forall|p: int|
            begin <= p < end ==> match #[trigger] self.info_at(p) {
                AllocationBlockNvSyncStateInfo::Uninitialized => false,
                AllocationBlockNvSyncStateInfo::HasDataLoaded => true,
                AllocationBlockNvSyncStateInfo::NeedsDataRead { can_read_from_target, .. } => can_read_from_target,
            }
    }

    /// All data missing in a range may get read from the Journal Staging Copy.
    pub open spec fn all_readable_from_journal(&self, begin: int, end: int) -> bool {
        forall|p: int|
            begin <= p < end ==> match #[trigger] self.info_at(p) {
                AllocationBlockNvSyncStateInfo::Uninitialized => false,
                AllocationBlockNvSyncStateInfo::HasDataLoaded => true,
                AllocationBlockNvSyncStateInfo::NeedsDataRead { can_read_from_journal, .. } => can_read_from_journal,
            }
    }

    /// End of the Minimum Read Block starting at a given position.
    pub open spec fn read_block_end(&self, begin: int, end: int) -> int {
        self.auth_tree_data_blocks_update_states.run_end(begin, end, self.min_read_log2())
    }

    /// Nothing is to get read from a Minimum Read Block.
    pub open spec fn read_block_skipped(&self, begin: int, end: int, request: (int, int)) -> bool {
        self.any_uninitialized(begin, end) || !self.any_needs_read(begin, end, request)
    }

    /// A Minimum Read Block may get read from its Journal Staging Copy.
    ///
    /// The Journal Staging Copy is complete only if all of the Minimum Read
    /// Block is being tracked.
    pub open spec fn read_block_readable_from_journal(&self, begin: int, end: int) -> bool {
        end - begin == align::block_size(self.min_read_log2()) && self.all_readable_from_journal(begin, end)
    }

    /// A Minimum Read Block beginning at `begin` is the next one after that
    /// ending with the entry at position `last` and may potentially get read
    /// together with it.
    pub open spec fn read_block_adjoins(&self, last: int, begin: int) -> bool {
        let states = self.auth_tree_data_blocks_update_states;
        let last_target = align::align_down(states.target_at(last), self.min_read_log2());
        let target = align::align_down(states.target_at(begin), self.min_read_log2());
        &&& target - last_target <= align::block_size(self.min_read_log2())
        &&& last / states.block_len() == begin / states.block_len() || align::same_block(
            last_target,
            target,
            self.preferred_read_log2(),
        )
    }

    /// The Journal Staging Copies at two successive positions are not separated
    /// from each other by more than their unit of allocation.
    pub open spec fn journal_adjoins(&self, last: int, begin: int) -> bool {
        let states = self.auth_tree_data_blocks_update_states;
        let (i, j) = (last / states.block_len(), begin / states.block_len());
        ||| i == j
        ||| match (
            states.states@[i].journal_staging_copy_allocation_blocks_begin,
            states.states@[j].journal_staging_copy_allocation_blocks_begin,
        ) {
            (Some(a), Some(b)) => a.index <= b.index && b.index - a.index <= align::block_size(states.journal_log2()),
            _ => false,
        }
    }

    /// Extend a batch of Minimum Read Blocks to read in one go by as many
    /// subsequent ones as possible.
    ///
    /// The batch found so far ends with the entry at position `last`, and may
    /// get read from the target location if `target`, and from the Journal
    /// Staging Copy if `journal`.
    ///
    /// The result consists of the completed batch's end, whether it is to get
    /// read from the target location, and the position to continue the search
    /// for the next batch at.
    pub open spec fn extended_batch(
        &self,
        last: int,
        target: bool,
        journal: bool,
        begin: int,
        end: int,
        request: (int, int),
    ) -> (int, bool, int)
        decreases end - begin,
    {
        let block_end = self.read_block_end(begin, end);
        let block_target = self.all_readable_from_target(begin, block_end);
        let block_journal = self.read_block_readable_from_journal(begin, block_end) && self.journal_adjoins(
            last,
            begin,
        );
        if begin >= end || !self.read_block_adjoins(last, begin) {
            (last + 1, target, begin)
        } else if self.read_block_skipped(begin, block_end, request) {
            (last + 1, target, block_end)
        } else if self.journal_staging_copy_disguise_enabled && target != block_target {
            // If Journal Staging Copy disguising is enabled, prefer reads from the target
            // location in order to save some undisguise operations.
            (last + 1, target, begin)
        } else if !(target && block_target) && !(journal && block_journal) {
            (last + 1, target, begin)
        } else {
            proof {
                self.auth_tree_data_blocks_update_states.lemma_run_end_bounds(begin, end, self.min_read_log2());
            }
            self.extended_batch(
                block_end - 1,
                target && block_target,
                journal && block_journal,
                block_end,
                end,
                request,
            )
        }
    }

    /// The first maximal batch of Minimum Read Blocks to read in one go, if
    /// any.
    ///
    /// The result consists of the batch's beginning, and what is otherwise
    /// described at [`extended_batch()`](Self::extended_batch).
    pub open spec fn next_batch(&self, begin: int, end: int, request: (int, int)) -> Option<(int, (int, bool, int))>
        decreases end - begin,
    {
        let block_end = self.read_block_end(begin, end);
        if begin >= end {
            None
        } else if self.read_block_skipped(begin, block_end, request) {
            proof {
                self.auth_tree_data_blocks_update_states.lemma_run_end_bounds(begin, end, self.min_read_log2());
            }
            self.next_batch(block_end, end, request)
        } else {
            Some(
                (
                    begin,
                    self.extended_batch(
                        block_end - 1,
                        self.all_readable_from_target(begin, block_end),
                        self.read_block_readable_from_journal(begin, block_end),
                        block_end,
                        end,
                        request,
                    ),
                ),
            )
        }
    }
}

/// What has been found about some Minimum Read Block.
pub struct ReadBlockInfo {
    /// Index of the last Allocation Block level entry from the Minimum Read
    /// Block.
    pub last: AuthTreeDataBlocksUpdateStatesAllocationBlockIndex,
    /// Index past the last Allocation Block level entry from the Minimum Read
    /// Block.
    pub end: AuthTreeDataBlocksUpdateStatesAllocationBlockIndex,
    /// Whether there's any uninitialized Allocation Block.
    pub any_uninitialized: bool,
    /// Whether there's any requested data missing.
    pub any_needs_data_read: bool,
    /// Whether all missing data may get read from the target location.
    pub can_read_from_target: bool,
    /// Whether all of the Minimum Read Block is being tracked and all missing
    /// data may get read from the Journal Staging Copy.
    pub can_read_from_journal: bool,
}

/// Test whether an index is located strictly before another one.
fn precedes(
    a: &AuthTreeDataBlocksUpdateStatesAllocationBlockIndex,
    b: &AuthTreeDataBlocksUpdateStatesAllocationBlockIndex,
) -> (r: bool)
    ensures
        r == !b.le(a),
{
    let (i, j): (usize, usize) = (
        a.auth_tree_data_blocks_update_states_index.index,
        b.auth_tree_data_blocks_update_states_index.index,
    );
    i < j || i == j && a.allocation_block_index_in_auth_tree_data_block
        < b.allocation_block_index_in_auth_tree_data_block
}

impl Transaction {
    /// Base-2 logarithm of the Minimum Read Block size in units of Allocation
    /// Blocks.
    pub(crate) fn get_min_read_log2(&self) -> (r: u32)
        ensures
            r == self.min_read_log2(),
    {
        let allocation_block_size_128b_log2: u32 =
            self.auth_tree_data_blocks_update_states.allocation_block_size_128b_log2 as u32;
        transaction::get_min_read_block_log2(self.chip_io_block_size_128b_log2, allocation_block_size_128b_log2)
    }

    /// Inspect the Minimum Read Block starting at a given index.
    pub(crate) fn inspect_read_block(
        &self,
        begin: AuthTreeDataBlocksUpdateStatesAllocationBlockIndex,
        end: AuthTreeDataBlocksUpdateStatesAllocationBlockIndex,
        request: &AuthTreeDataBlocksUpdateStatesAllocationBlocksIndexRange,
    ) -> (r: ReadBlockInfo)
        requires
            self.wf(),
            begin != end,
            self.auth_tree_data_blocks_update_states.valid_blocks_range(
                &(AuthTreeDataBlocksUpdateStatesAllocationBlocksIndexRange { begin, end }),
            ),
            self.auth_tree_data_blocks_update_states.valid_blocks_range(request),
        ensures
            ({
                let states = self.auth_tree_data_blocks_update_states;
                let l = states.auth_log2();
                let (p, q) = (begin.position(l), self.read_block_end(begin.position(l), end.position(l)));
                let requested = (request.begin.position(l), request.end.position(l));
                &&& states.valid_block_index(&r.last)
                &&& states.valid_blocks_range(
                    &(AuthTreeDataBlocksUpdateStatesAllocationBlocksIndexRange { begin: r.end, end }),
                )
                &&& r.last.position(l) == q - 1
                &&& r.end.position(l) == q
                &&& r.any_uninitialized == self.any_uninitialized(p, q)
                &&& r.any_needs_data_read == self.any_needs_read(p, q, requested)
                &&& r.can_read_from_target == self.all_readable_from_target(p, q)
                &&& r.can_read_from_journal == self.read_block_readable_from_journal(p, q)
            }),
    {
        let states = &self.auth_tree_data_blocks_update_states;
        let ghost l = states.auth_log2();
        let ghost (b, e) = (begin.position(l), end.position(l));
        let ghost requested = (request.begin.position(l), request.end.position(l));
        let auth_log2: u32 = states.auth_tree_data_block_allocation_blocks_log2 as u32;
        let min_read_log2: u32 = self.get_min_read_log2();
        let ghost m = self.min_read_log2();
        let mut any_uninitialized: bool = false;
        let mut any_needs_data_read: bool = false;
        let mut can_read_from_target: bool = true;
        let mut can_read_from_journal: bool = true;
        let mut count: u64 = 0;
        let mut cur = begin;
        proof {
            states.lemma_valid_range_positions(
                AuthTreeDataBlocksUpdateStatesAllocationBlocksIndexRange { begin, end },
            );
            states_index::lemma_position_injective(begin, end, l);
            states.lemma_position(begin);
            states.lemma_position(end);
            states.lemma_run_end(b, e, m);
            align::lemma_block_size_pos(l);
        }
        loop
            invariant
                self.wf(),
                *states == self.auth_tree_data_blocks_update_states,
                states.valid_blocks_range(request),
                requested == (request.begin.position(l), request.end.position(l)),
                l == states.auth_log2(),
                auth_log2 == l,
                min_read_log2 == self.min_read_log2(),
                m == self.min_read_log2(),
                b == begin.position(l),
                e == end.position(l),
                0 <= b < e <= states.blocks_count(),
                end.wf(l),
                end.block() < states.states.len() || end.block() == states.states.len() && end.offset() == 0,
                states.valid_block_index(&cur),
                b <= cur.position(l) < e,
                cur.position(l) == b + count,
                states.run_end(b, e, m) == states.run_end(cur.position(l), e, m),
                any_uninitialized == self.any_uninitialized(b, cur.position(l)),
                any_needs_data_read == self.any_needs_read(b, cur.position(l), requested),
                can_read_from_target == self.all_readable_from_target(b, cur.position(l)),
                can_read_from_journal == self.all_readable_from_journal(b, cur.position(l)),
            decreases e - cur.position(l),
        {
            let ghost p = cur.position(l);
            proof {
                states.lemma_position(cur);
                states_index::lemma_position_injective(request.begin, cur, l);
                states_index::lemma_position_injective(request.end, cur, l);
                states.lemma_target_at_distance(b, p);
            }
            match inspect_allocation_block_nv_sync_state(&states.allocation_block(&cur).nv_sync_state) {
                AllocationBlockNvSyncStateInfo::Uninitialized => {
                    assert(self.info_at(p) is Uninitialized);
                    any_uninitialized = true;
                    can_read_from_target = false;
                    can_read_from_journal = false;
                },
                AllocationBlockNvSyncStateInfo::HasDataLoaded => {},
                AllocationBlockNvSyncStateInfo::NeedsDataRead {
                    can_read_from_target: from_target,
                    can_read_from_journal: from_journal,
                } => {
                    assert(self.info_at(p) is NeedsDataRead);
                    // The Allocation Block would need a data read, but only if it's within the
                    // original requested range.
                    if !precedes(&cur, &request.begin) && precedes(&cur, &request.end) {
                        any_needs_data_read = true;
                    }
                    can_read_from_target = can_read_from_target && from_target;
                    can_read_from_journal = can_read_from_journal && from_journal;
                },
            }
            proof {
                assert(any_uninitialized == self.any_uninitialized(b, p + 1));
                assert(any_needs_data_read == self.any_needs_read(b, p + 1, requested));
                assert(can_read_from_target == self.all_readable_from_target(b, p + 1));
                assert(can_read_from_journal == self.all_readable_from_journal(b, p + 1));
            }
            count = count + 1;
            let last = cur;
            let next = cur.step(auth_log2);
            proof {
                states_index::lemma_position_injective(next, end, l);
                states_index::lemma_position_injective(end, next, l);
                states.lemma_position(next);
                states.lemma_position(end);
            }
            let mut done: bool = next == end;
            if !done {
                proof {
                    states.lemma_target_at_distance(p, p + 1);
                }
                done = !align::same_block_u64(
                    states.get_allocation_block_target(&last).index,
                    states.get_allocation_block_target(&next).index,
                    min_read_log2,
                );
            }
            if done {
                let read_block_len: u64 = align::block_size_u64(min_read_log2);
                return ReadBlockInfo {
                    last,
                    end: next,
                    any_uninitialized,
                    any_needs_data_read,
                    can_read_from_target,
                    can_read_from_journal: can_read_from_journal && count == read_block_len,
                };
            }
            cur = next;
        }
    }
}

} // verus!
