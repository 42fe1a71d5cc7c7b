//! Reading of missing data from storage into a transaction's update tracking
//! states.
use crate::align;
use crate::alloc_bitmap::{AllocBitmap, SparseAllocBitmap};
use crate::apply;
use crate::block_state::AllocationBlockUpdateState;
use crate::insert;
use crate::read_region::{AllocationBlockNvSyncStateInfo, ReadBlockInfo};
use crate::states::AuthTreeDataBlocksUpdateStates;
use crate::states_index;
use crate::states_index::{
    AuthTreeDataBlocksUpdateStatesAllocationBlockIndex, AuthTreeDataBlocksUpdateStatesAllocationBlocksIndexRange,
};
use crate::offsets::AuthTreeDataBlocksUpdateStatesFillAlignmentGapsRangeOffsets;
use crate::transaction;
use crate::transaction::Transaction;
use vstd::prelude::*;

verus! {

/// Read missing data from storage.
///
/// Read all missing data from storage within a specified Allocation Block level
/// index range into the [`Transaction`]'s storage tracking states' buffers.
///
/// Does not authenticate.
///
/// Note that the data loaded for a particular Allocation Block might perhaps
/// have been superseded logically by staged updates, but could still be needed
/// to form an authentication digest over the containing Authentication Tree
/// Data Block.
///
/// Only entries existing within the requested range at the time of
/// instantiation will be considered. Additional ones may get inserted and
/// populated as a byproduct for IO Block alignment purposes in the course
/// though.
pub struct TransactionReadMissingDataFuture {
    /// The requested index range, corrected for any insertions made meanwhile.
    pub request_states_allocation_blocks_index_range: AuthTreeDataBlocksUpdateStatesAllocationBlocksIndexRange,
    /// Correction offsets for insertions made, if any.
    pub request_states_index_range_offsets: Option<AuthTreeDataBlocksUpdateStatesFillAlignmentGapsRangeOffsets>,
    /// The part of the requested index range not processed yet, extended to
    /// cover any preexisting entries from the same Minimum Read Blocks.
    pub remaining_states_allocation_blocks_index_range: AuthTreeDataBlocksUpdateStatesAllocationBlocksIndexRange,
}

impl Transaction {
    /// The entries from a Minimum Read Block are in mutually consistent states.
    ///
    /// Either there's nothing initialized to read, or all missing data is found
    /// in one place, be it the target location or the Journal Staging Copy.
    pub open spec fn read_block_consistent(&self, begin: int, end: int) -> bool {
        if self.any_uninitialized(begin, end) {
            !self.any_needs_read(begin, end, (begin, end))
        } else {
            self.all_readable_from_target(begin, end) || self.read_block_readable_from_journal(begin, end)
        }
    }

    /// All Minimum Read Blocks a requested index range extends to are in a
    /// consistent state.
    pub open spec fn request_consistent(
        &self,
        range: AuthTreeDataBlocksUpdateStatesAllocationBlocksIndexRange,
    ) -> bool {
        let states = self.auth_tree_data_blocks_update_states;
        forall|extended: AuthTreeDataBlocksUpdateStatesAllocationBlocksIndexRange|
            states.valid_blocks_range(&extended) && #[trigger] states.extended_blocks_range(
                range,
                self.min_read_log2(),
                extended,
            ) ==> self.read_blocks_consistent(
                extended.begin.position(states.auth_log2()),
                extended.end.position(states.auth_log2()),
            )
    }

    /// The entry at a position is in an index range.
    pub open spec fn position_in(
        &self,
        position: int,
        range: &AuthTreeDataBlocksUpdateStatesAllocationBlocksIndexRange,
    ) -> bool {
        let states = self.auth_tree_data_blocks_update_states;
        range.has(position / states.block_len(), position % states.block_len())
    }

    /// A Minimum Read Block is written out as a whole together with the entries
    /// in an index range, or not at all.
    pub open spec fn read_block_written_out(
        &self,
        begin: int,
        end: int,
        range: &AuthTreeDataBlocksUpdateStatesAllocationBlocksIndexRange,
    ) -> bool {
        ||| forall|p: int| begin <= p < end ==> !#[trigger] self.position_in(p, range)
        ||| end - begin == align::block_size(self.min_read_log2()) && forall|p: int|
            begin <= p < end ==> #[trigger] self.position_in(p, range)
    }

    /// All Minimum Read Blocks in a range are in a consistent state.
    pub open spec fn read_blocks_consistent(&self, begin: int, end: int) -> bool {
        forall|p: int|
            begin <= p < end && self.starts_read_block(begin, p) ==> self.read_block_consistent(p, #[trigger] self.read_block_end(p, end))
    }
}

/// Entries which have not been touched since their insertion are in mutually
/// consistent states, missing data may be read for any of them.
pub proof fn law_fresh_states_are_consistent(
    transaction: &Transaction,
    alloc_bitmap: &AllocBitmap,
    pending_frees: &SparseAllocBitmap,
)
    requires
        transaction.wf(),
        forall|i: int|
            0 <= i < transaction.auth_tree_data_blocks_update_states.states@.len() ==> insert::fresh_state(
                #[trigger] transaction.auth_tree_data_blocks_update_states.states@[i],
                transaction.auth_tree_data_blocks_update_states.io_log2(),
                alloc_bitmap,
                pending_frees,
            ),
    ensures
        transaction.read_blocks_consistent(0, transaction.auth_tree_data_blocks_update_states.blocks_count()),
{
    let states = transaction.auth_tree_data_blocks_update_states;
    let (m, io, count) = (transaction.min_read_log2(), states.io_log2(), states.blocks_count());
    assert forall|p: int|
        0 <= p < count && transaction.starts_read_block(0, p) implies transaction.read_block_consistent(
        p,
        #[trigger] transaction.read_block_end(p, count),
    ) by {
        let e = transaction.read_block_end(p, count);
        let initialized = alloc_bitmap.any_allocated(align::align_down(states.target_at(p), io), io);
        states.lemma_run_end(p, count, m);
        assert forall|q: int| p <= q < e implies (#[trigger] transaction.info_at(q) is Uninitialized) == !initialized
            && (initialized ==> transaction.info_at(q) == (AllocationBlockNvSyncStateInfo::NeedsDataRead {
            can_read_from_target: true,
            can_read_from_journal: false,
        })) by {
            let target = states.target_at(q);
            states.lemma_target_at_distance(q, q);
            assert(insert::fresh_state(states.states@[q / states.block_len()], io, alloc_bitmap, pending_frees));
            assert(states.block_at(q) == insert::fresh_block(target, io, alloc_bitmap, pending_frees));
            align::lemma_same_block_coarser(states.target_at(p), target, m, io);
            if alloc_bitmap.allocated(target) {
                align::lemma_align_down_bounds(target, io);
            }
        }
    }
}

/// Runs of entries from a common block depend on the storage locations only.
proof fn lemma_run_end_same_shape(
    old_states: AuthTreeDataBlocksUpdateStates,
    new_states: AuthTreeDataBlocksUpdateStates,
    begin: int,
    end: int,
    log2: nat,
)
    requires
        old_states.wf(),
        new_states.same_shape(&old_states),
        0 <= begin < end <= old_states.blocks_count(),
    ensures
        new_states.run_end(begin, end, log2) == old_states.run_end(begin, end, log2),
    decreases end - begin,
{
    old_states.lemma_target_at_distance(begin, begin);
    assert(new_states.target_at(begin) == old_states.target_at(begin));
    if begin + 1 < end {
        old_states.lemma_target_at_distance(begin + 1, begin + 1);
        assert(new_states.target_at(begin + 1) == old_states.target_at(begin + 1));
        lemma_run_end_same_shape(old_states, new_states, begin + 1, end, log2);
    }
}

/// Applying staged updates retains the mutual consistency of the entries'
/// states.
///
/// The exception is a deallocation rendering an Allocation Block uninitialized
/// again, i.e. of one modified but not written out yet and with nothing
/// initialized at its target location before the transaction, while there's
/// still data to get read for its Minimum Read Block.
pub proof fn law_application_keeps_consistency(
    before: &Transaction,
    after: &Transaction,
    range: Option<&AuthTreeDataBlocksUpdateStatesAllocationBlocksIndexRange>,
    alloc_bitmap: &AllocBitmap,
)
    requires
        before.wf(),
        before.read_blocks_consistent(0, before.auth_tree_data_blocks_update_states.blocks_count()),
        after.same_environment(before),
        after.auth_tree_data_blocks_update_states.mapped(
            &before.auth_tree_data_blocks_update_states,
            |b: int, k: int| apply::selected(range, b, k),
            |b: int, k: int|
                before.auth_tree_data_blocks_update_states.block_with_staged_applied(b, k, alloc_bitmap),
        ),
        forall|p: int, q: int|
            {
                &&& 0 <= p < before.auth_tree_data_blocks_update_states.blocks_count()
                &&& 0 <= q < before.auth_tree_data_blocks_update_states.blocks_count()
                &&& align::same_block(
                    before.auth_tree_data_blocks_update_states.target_at(p),
                    before.auth_tree_data_blocks_update_states.target_at(q),
                    before.min_read_log2(),
                )
                &&& #[trigger] after.info_at(p) is Uninitialized && !(before.info_at(p) is Uninitialized)
            } ==> !(#[trigger] after.info_at(q) is NeedsDataRead),
    ensures
        after.read_blocks_consistent(0, after.auth_tree_data_blocks_update_states.blocks_count()),
{
    let (o, f) = (before.auth_tree_data_blocks_update_states, after.auth_tree_data_blocks_update_states);
    let count = o.blocks_count();
    assert forall|p: int| 0 <= p < count && after.starts_read_block(0, p) implies after.read_block_consistent(
        p,
        #[trigger] after.read_block_end(p, count),
    ) by {
        let e = before.read_block_end(p, count);
        lemma_run_end_same_shape(o, f, p, count, before.min_read_log2());
        o.lemma_run_end(p, count, before.min_read_log2());
        o.lemma_target_at_distance(p, p);
        assert(f.target_at(p) == o.target_at(p));
        if p > 0 {
            o.lemma_target_at_distance(p - 1, p - 1);
            assert(f.target_at(p - 1) == o.target_at(p - 1));
        }
        assert(before.starts_read_block(0, p));
        assert(before.read_block_consistent(p, e));
        assert forall|q: int| p <= q < e implies {
            ||| #[trigger] after.info_at(q) == before.info_at(q)
            ||| after.info_at(q) is HasDataLoaded
            ||| after.info_at(q) is Uninitialized && before.info_at(q) is HasDataLoaded
            ||| after.info_at(q) is NeedsDataRead && after.info_at(q)->can_read_from_journal && before.info_at(q)
                == (AllocationBlockNvSyncStateInfo::NeedsDataRead {
                can_read_from_target: false,
                can_read_from_journal: true,
            })
        } by {
            o.lemma_target_at_distance(q, q);
            let (b, k) = (q / o.block_len(), q % o.block_len());
            assert(o.states@[b].wf(o.auth_log2()));
            assert(o.has_block(b, k));
            assert(f.block(b, k) == if apply::selected(range, b, k) {
                o.block_with_staged_applied(b, k, alloc_bitmap)
            } else {
                o.block(b, k)
            });
        }
        if exists|x: int|
            p <= x < e && #[trigger] after.info_at(x) is Uninitialized && !(before.info_at(x) is Uninitialized) {
            let x = choose|x: int|
                p <= x < e && #[trigger] after.info_at(x) is Uninitialized && !(before.info_at(x) is Uninitialized);
            assert forall|q: int| p <= q < e implies !(#[trigger] after.info_at(q) is NeedsDataRead) by {
                assert(align::same_block(o.target_at(p), o.target_at(x), before.min_read_log2()));
                assert(align::same_block(o.target_at(p), o.target_at(q), before.min_read_log2()));
            }
        } else if before.any_uninitialized(p, e) {
            assert forall|q: int| p <= q < e implies !(#[trigger] after.info_at(q) is NeedsDataRead) by {
                assert(!(before.info_at(q) is NeedsDataRead));
            }
        } else {
            assert forall|q: int| p <= q < e implies !(#[trigger] after.info_at(q) is Uninitialized) by {
                assert(!(before.info_at(q) is Uninitialized));
            }
            if before.all_readable_from_target(p, e) {
                assert forall|q: int| p <= q < e implies match #[trigger] after.info_at(q) {
                    AllocationBlockNvSyncStateInfo::Uninitialized => false,
                    AllocationBlockNvSyncStateInfo::HasDataLoaded => true,
                    AllocationBlockNvSyncStateInfo::NeedsDataRead { can_read_from_target, .. } => can_read_from_target,
                } by {
                    assert(!(before.info_at(q) is Uninitialized));
                }
                assert(after.all_readable_from_target(p, e));
            } else {
                assert forall|q: int| p <= q < e implies match #[trigger] after.info_at(q) {
                    AllocationBlockNvSyncStateInfo::Uninitialized => false,
                    AllocationBlockNvSyncStateInfo::HasDataLoaded => true,
                    AllocationBlockNvSyncStateInfo::NeedsDataRead { can_read_from_journal, .. } => can_read_from_journal,
                } by {
                    assert(!(before.info_at(q) is Uninitialized));
                }
                assert(after.all_readable_from_journal(p, e));
            }
        }
    }
}

/// Marking states as having been written to the Journal Staging Copy retains
/// the mutual consistency of the entries' states, as long as Minimum Read
/// Blocks are always written out as a whole.
pub proof fn law_written_out_blocks_keep_consistency(
    before: &Transaction,
    after: &Transaction,
    range: &AuthTreeDataBlocksUpdateStatesAllocationBlocksIndexRange,
)
    requires
        before.wf(),
        before.read_blocks_consistent(0, before.auth_tree_data_blocks_update_states.blocks_count()),
        forall|p: int|
            0 <= p < before.auth_tree_data_blocks_update_states.blocks_count() && before.starts_read_block(0, p)
                ==> before.read_block_written_out(
                p,
                #[trigger] before.read_block_end(p, before.auth_tree_data_blocks_update_states.blocks_count()),
                range,
            ),
        after.same_environment(before),
        after.auth_tree_data_blocks_update_states.mapped(
            &before.auth_tree_data_blocks_update_states,
            |b: int, k: int| range.has(b, k),
            |b: int, k: int|
                (AllocationBlockUpdateState {
                    nv_sync_state: before.auth_tree_data_blocks_update_states.block(b, k).nv_sync_state.cleaned(),
                    staged_update: before.auth_tree_data_blocks_update_states.block(b, k).staged_update,
                }),
        ),
    ensures
        after.read_blocks_consistent(0, after.auth_tree_data_blocks_update_states.blocks_count()),
{
    let (o, f) = (before.auth_tree_data_blocks_update_states, after.auth_tree_data_blocks_update_states);
    let count = o.blocks_count();
    assert forall|p: int| 0 <= p < count && after.starts_read_block(0, p) implies after.read_block_consistent(
        p,
        #[trigger] after.read_block_end(p, count),
    ) by {
        let e = before.read_block_end(p, count);
        lemma_run_end_same_shape(o, f, p, count, before.min_read_log2());
        o.lemma_run_end_bounds(p, count, before.min_read_log2());
        o.lemma_target_at_distance(p, p);
        assert(f.target_at(p) == o.target_at(p));
        if p > 0 {
            o.lemma_target_at_distance(p - 1, p - 1);
            assert(f.target_at(p - 1) == o.target_at(p - 1));
        }
        assert(before.starts_read_block(0, p));
        assert(before.read_block_consistent(p, e));
        assert(before.read_block_written_out(p, e, range));
        assert forall|q: int| p <= q < e implies #[trigger] after.info_at(q) == if before.position_in(q, range) {
            o.block_at(q).nv_sync_state.cleaned().info()
        } else {
            before.info_at(q)
        } by {
            o.lemma_target_at_distance(q, q);
            let (b, k) = (q / o.block_len(), q % o.block_len());
            assert(o.states@[b].wf(o.auth_log2()));
            assert(o.has_block(b, k));
            assert(f.block(b, k).nv_sync_state == if range.has(b, k) {
                o.block(b, k).nv_sync_state.cleaned()
            } else {
                o.block(b, k).nv_sync_state
            });
        }
        if forall|q: int| p <= q < e ==> #[trigger] before.position_in(q, range) {
            assert(after.all_readable_from_journal(p, e));
        } else {
            assert forall|q: int| p <= q < e implies #[trigger] after.info_at(q) == before.info_at(q) by {
                assert(!before.position_in(q, range));
            }
            if before.any_uninitialized(p, e) {
                let q = choose|q: int| p <= q < e && #[trigger] before.info_at(q) is Uninitialized;
                assert(after.info_at(q) is Uninitialized);
            }
        }
    }
}

impl TransactionReadMissingDataFuture {
    /// Determine the minimum IO block size.
    ///
    /// Return the base-2 logarithm of the minimum IO block size in units of
    /// Allocation Blocks.
    ///
    /// # Arguments:
    ///
    /// * `chip_io_block_size_128b_log2` - Base-2 logarithm of the storage
    ///   device's IO block size in units of 128 Bytes.
    /// * `allocation_block_size_128b_log2` - Base-2 logarithm of the Allocation
    ///   Block size in units of 128 Bytes.
    pub fn min_read_block_allocation_blocks_log2(
        chip_io_block_size_128b_log2: u32,
        allocation_block_size_128b_log2: u32,
    ) -> (r: u32)
        ensures
            r == transaction::min_read_block_log2(
                chip_io_block_size_128b_log2 as int,
                allocation_block_size_128b_log2 as int,
            ),
    {
        transaction::get_min_read_block_log2(chip_io_block_size_128b_log2, allocation_block_size_128b_log2)
    }

    /// Determine the preferred IO block size.
    ///
    /// Return the base-2 logarithm of the preferred IO block size in units of
    /// Allocation Blocks.
    ///
    /// # Arguments:
    ///
    /// * `chip_io_block_size_128b_log2` - Base-2 logarithm of the storage
    ///   device's IO block size in units of 128 Bytes.
    /// * `preferred_chip_io_blocks_bulk_log2` - Base-2 logarithm of the storage
    ///   device's preferred bulk IO size in units of its IO blocks.
    /// * `allocation_block_size_128b_log2` - Base-2 logarithm of the Allocation
    ///   Block size in units of 128 Bytes.
    /// * `auth_tree_data_block_allocation_blocks_log2` - Base-2 logarithm of the
    ///   Authentication Tree Data Block size in units of Allocation Blocks.
    pub fn preferred_read_block_allocation_blocks_log2(
        chip_io_block_size_128b_log2: u32,
        preferred_chip_io_blocks_bulk_log2: u32,
        allocation_block_size_128b_log2: u32,
        auth_tree_data_block_allocation_blocks_log2: u32,
    ) -> (r: u32)
        requires
            preferred_chip_io_blocks_bulk_log2 + chip_io_block_size_128b_log2 <= u32::MAX,
        ensures
            r == transaction::preferred_read_block_log2(
                chip_io_block_size_128b_log2 as int,
                preferred_chip_io_blocks_bulk_log2 as int,
                allocation_block_size_128b_log2 as int,
                auth_tree_data_block_allocation_blocks_log2 as nat,
            ),
    {
        transaction::get_preferred_read_block_log2(
            chip_io_block_size_128b_log2,
            preferred_chip_io_blocks_bulk_log2,
            allocation_block_size_128b_log2,
            auth_tree_data_block_allocation_blocks_log2,
        )
    }

    /// Whether the Minimum Read Block at a given index may potentially get read
    /// together with the one ending with a given entry.
    fn test_read_block_adjoins(
        transaction: &Transaction,
        last: &AuthTreeDataBlocksUpdateStatesAllocationBlockIndex,
        begin: &AuthTreeDataBlocksUpdateStatesAllocationBlockIndex,
    ) -> (r: bool)
        requires
            transaction.wf(),
            transaction.auth_tree_data_blocks_update_states.valid_block_index(last),
            transaction.auth_tree_data_blocks_update_states.valid_block_index(begin),
            last.position(transaction.auth_tree_data_blocks_update_states.auth_log2()) < begin.position(
                transaction.auth_tree_data_blocks_update_states.auth_log2(),
            ),
        ensures
            ({
                let l = transaction.auth_tree_data_blocks_update_states.auth_log2();
                r == transaction.read_block_adjoins(last.position(l), begin.position(l))
            }),
    {
        let states = &transaction.auth_tree_data_blocks_update_states;
        let ghost l = states.auth_log2();
        let min_read_log2: u32 = transaction.get_min_read_log2();
        let preferred_read_log2: u32 = Self::preferred_read_block_allocation_blocks_log2(
            transaction.chip_io_block_size_128b_log2,
            transaction.preferred_chip_io_blocks_bulk_log2,
            states.allocation_block_size_128b_log2 as u32,
            states.auth_tree_data_block_allocation_blocks_log2 as u32,
        );
        proof {
            states.lemma_position(*last);
            states.lemma_position(*begin);
            states.lemma_target_at_distance(last.position(l), begin.position(l));
            align::lemma_align_down_bounds(states.target_at(last.position(l)), transaction.min_read_log2());
            align::lemma_align_down_bounds(states.target_at(begin.position(l)), transaction.min_read_log2());
            align::lemma_align_down_mono(
                states.target_at(last.position(l)),
                states.target_at(begin.position(l)),
                transaction.min_read_log2(),
            );
        }
        let last_target: u64 = align::align_down_u64(states.get_allocation_block_target(last).index, min_read_log2);
        let target: u64 = align::align_down_u64(states.get_allocation_block_target(begin).index, min_read_log2);
        // Always read in contiguous regions at a time. If there's a Mininum Read Block gap not
        // needing any read, then stop and process what has been found so far.
        if target - last_target > align::block_size_u64(min_read_log2) {
            return false;
        }
        // If something had been found already and we're crossing a preferred read block
        // boundary, then stop.

        last.auth_tree_data_blocks_update_states_index == begin.auth_tree_data_blocks_update_states_index
            || align::same_block_u64(last_target, target, preferred_read_log2)
    }

    /// Whether the Journal Staging Copies at two successive positions are
    /// possibly adjacent.
    fn test_journal_adjoins(
        transaction: &Transaction,
        last: &AuthTreeDataBlocksUpdateStatesAllocationBlockIndex,
        begin: &AuthTreeDataBlocksUpdateStatesAllocationBlockIndex,
    ) -> (r: bool)
        requires
            transaction.wf(),
            transaction.auth_tree_data_blocks_update_states.valid_block_index(last),
            transaction.auth_tree_data_blocks_update_states.valid_block_index(begin),
        ensures
            ({
                let l = transaction.auth_tree_data_blocks_update_states.auth_log2();
                r == transaction.journal_adjoins(last.position(l), begin.position(l))
            }),
    {
        let states = &transaction.auth_tree_data_blocks_update_states;
        proof {
            states.lemma_position(*last);
            states.lemma_position(*begin);
        }
        // Note that Journal Data Staging areas get allocated IO Block- as well as
        // Authentication Tree Data Block wise, whichever is larger.
        let (i, j) = (
            last.auth_tree_data_blocks_update_states_index,
            begin.auth_tree_data_blocks_update_states_index,
        );
        if i == j {
            return true;
        }
        match (
            states.states[i.index].journal_staging_copy_allocation_blocks_begin,
            states.states[j.index].journal_staging_copy_allocation_blocks_begin,
        ) {
            (Some(a), Some(b)) => {
                let journal_log2: u32 = if states.io_block_allocation_blocks_log2
                    >= states.auth_tree_data_block_allocation_blocks_log2 {
                    states.io_block_allocation_blocks_log2 as u32
                } else {
                    states.auth_tree_data_block_allocation_blocks_log2 as u32
                };
                a.index <= b.index && b.index - a.index <= align::block_size_u64(journal_log2)
            },
            _ => false,
        }
    }

    /// Determine the next subrange to read.
    ///
    /// Return a pair with information about the next subrange to read, if any,
    /// stored in the first component, and the remainder of
    /// `remaining_states_allocation_blocks_index_range` to process in a
    /// subsequent iteration in the second. The information about the next
    /// subrange to read comprises the range itself, alongside a `bool`
    /// specifying where to read the data from -- either from the update
    /// states' associated target location on storage if true, or from the
    /// Journal Staging Copy otherwise.
    ///
    /// # Arguments:
    ///
    /// * `transaction` - The [`Transaction`].
    /// * `remaining_states_allocation_blocks_index_range` - Remaining part of
    ///   the `request_states_allocation_blocks_index_range` not processed yet,
    ///   extended to cover any preexisting states within the Minimum Read Block
    ///   vicinity.
    /// * `request_states_allocation_blocks_index_range` - The original input
    ///   request range.
    pub fn determine_next_read_region(
        transaction: &Transaction,
        remaining_states_allocation_blocks_index_range: &AuthTreeDataBlocksUpdateStatesAllocationBlocksIndexRange,
        request_states_allocation_blocks_index_range: &AuthTreeDataBlocksUpdateStatesAllocationBlocksIndexRange,
    ) -> (r: (
        Option<(AuthTreeDataBlocksUpdateStatesAllocationBlocksIndexRange, bool)>,
        AuthTreeDataBlocksUpdateStatesAllocationBlocksIndexRange,
    ))
        requires
            transaction.wf(),
            ({
                let states = transaction.auth_tree_data_blocks_update_states;
                let remaining = *remaining_states_allocation_blocks_index_range;
                &&& states.valid_blocks_range(&remaining)
                &&& states.valid_blocks_range(request_states_allocation_blocks_index_range)
                &&& transaction.read_blocks_consistent(
                    remaining.begin.position(states.auth_log2()),
                    remaining.end.position(states.auth_log2()),
                )
            }),
        ensures
            ({
                let states = transaction.auth_tree_data_blocks_update_states;
                let l = states.auth_log2();
                let remaining = *remaining_states_allocation_blocks_index_range;
                let request = *request_states_allocation_blocks_index_range;
                &&& states.valid_blocks_range(&r.1)
                &&& r.1.end == remaining.end
                &&& match transaction.next_batch(
                    remaining.begin.position(l),
                    remaining.end.position(l),
                    (request.begin.position(l), request.end.position(l)),
                ) {
                    None => r.0 is None && r.1.begin == remaining.end,
                    Some((begin, (end, target, rest))) => {
                        &&& r.0 matches Some((range, from_target)) && {
                            &&& states.valid_blocks_range(&range)
                            &&& range.begin.position(l) == begin
                            &&& range.end.position(l) == end
                            &&& from_target == target
                        }
                        &&& r.1.begin.position(l) == rest
                    },
                }
            }),
    {
        let states = &transaction.auth_tree_data_blocks_update_states;
        let auth_log2: u32 = states.auth_tree_data_block_allocation_blocks_log2 as u32;
        let ghost l = states.auth_log2();
        let request = request_states_allocation_blocks_index_range;
        let ghost requested = (request.begin.position(l), request.end.position(l));
        let end = remaining_states_allocation_blocks_index_range.end;
        let mut cur = remaining_states_allocation_blocks_index_range.begin;
        // The batch found so far, if any.
        let mut batch: Option<
            (
                AuthTreeDataBlocksUpdateStatesAllocationBlockIndex,
                AuthTreeDataBlocksUpdateStatesAllocationBlockIndex,
            ),
        > = None;
        let mut can_read_from_target: bool = true;
        let mut can_read_from_journal: bool = true;
        let ghost e = end.position(l);
        let ghost result = transaction.next_batch(cur.position(l), e, requested);
        proof {
            states_index::lemma_position_injective(cur, end, l);
            states.lemma_valid_range_positions(*remaining_states_allocation_blocks_index_range);
        }
        // Loop over Minimum Read Blocks, searching for the first maximal subsequence of those
        // needing data reads and which can get processed in one go.
        while cur != end
            invariant_except_break
                batch is None ==> result == transaction.next_batch(cur.position(l), e, requested),
                batch matches Some((first, last)) ==> result == Some(
                    (
                        first.position(l),
                        transaction.extended_batch(
                            last.position(l),
                            can_read_from_target,
                            can_read_from_journal,
                            cur.position(l),
                            e,
                            requested,
                        ),
                    ),
                ),
            invariant
                transaction.wf(),
                *states == transaction.auth_tree_data_blocks_update_states,
                l == states.auth_log2(),
                auth_log2 == l,
                e == end.position(l),
                requested == (request.begin.position(l), request.end.position(l)),
                states.valid_blocks_range(request),
                states.valid_blocks_range(
                    &(AuthTreeDataBlocksUpdateStatesAllocationBlocksIndexRange { begin: cur, end }),
                ),
                batch matches Some((first, last)) ==> {
                    &&& states.valid_block_index(&first)
                    &&& states.valid_block_index(&last)
                    &&& first.position(l) <= last.position(l) < cur.position(l)
                },
            ensures
                batch is None ==> result is None,
                batch matches Some((first, last)) ==> result == Some(
                    (first.position(l), (last.position(l) + 1, can_read_from_target, cur.position(l))),
                ),
            decreases e - cur.position(l),
        {
            let ghost p = cur.position(l);
            proof {
                states_index::lemma_position_injective(cur, end, l);
                states.lemma_valid_range_positions(
                    AuthTreeDataBlocksUpdateStatesAllocationBlocksIndexRange { begin: cur, end },
                );
                states.lemma_position(cur);
                states.lemma_run_end_bounds(p, e, transaction.min_read_log2());
            }
            match batch {
                Some((_, last)) => {
                    if !Self::test_read_block_adjoins(transaction, &last, &cur) {
                        break;
                    }
                },
                None => (),
            }
            let read_block: ReadBlockInfo = transaction.inspect_read_block(cur, end, request);
            if read_block.any_uninitialized || !read_block.any_needs_data_read {
                // Never ever request the storage device to read uninitialized data. Also, if
                // everything's there, skip over the current Minimum Read Block.
                cur = read_block.end;
                if batch.is_some() {
                    break;
                } else {
                    continue ;
                }
            }
            match batch {
                Some((first, last)) => {
                    // If Journal Staging Copy disguising is enabled, prefer reads from the target
                    // location in order to save some undisguise operations.
                    if transaction.journal_staging_copy_disguise_enabled && can_read_from_target
                        != read_block.can_read_from_target {
                        break;
                    }
                    let from_target: bool = can_read_from_target && read_block.can_read_from_target;
                    // For potential reads from the journal, verify that the associated Journal Data
                    // Staging Copy area extends contiguously from the previously found batch to the
                    // current Minimum Read Block. Otherwise reading from the journal in one go is
                    // not possible and the request must get split up.
                    let from_journal: bool = can_read_from_journal && read_block.can_read_from_journal
                        && Self::test_journal_adjoins(transaction, &last, &cur);
                    if !from_target && !from_journal {
                        break;
                    }
                    can_read_from_target = from_target;
                    can_read_from_journal = from_journal;
                    batch = Some((first, read_block.last));
                },
                None => {
                    can_read_from_target = read_block.can_read_from_target;
                    can_read_from_journal = read_block.can_read_from_journal;
                    batch = Some((cur, read_block.last));
                },
            }
            cur = read_block.end;
        }
        match batch {
            Some((first, last)) => {
                let batch_end = last.step(auth_log2);
                proof {
                    states_index::lemma_position_injective(first, batch_end, l);
                    states_index::lemma_position_injective(batch_end, cur, l);
                }
                (
                    Some(
                        (
                            AuthTreeDataBlocksUpdateStatesAllocationBlocksIndexRange { begin: first, end: batch_end },
                            can_read_from_target,
                        ),
                    ),
                    AuthTreeDataBlocksUpdateStatesAllocationBlocksIndexRange { begin: cur, end },
                )
            },
            None => (None, AuthTreeDataBlocksUpdateStatesAllocationBlocksIndexRange { begin: end, end }),
        }
    }
}

impl Transaction {
    /// The position is the first one from a Minimum Read Block in a range.
    pub open spec fn starts_read_block(&self, begin: int, p: int) -> bool {
        let states = self.auth_tree_data_blocks_update_states;
        p == begin || !align::same_block(states.target_at(p - 1), states.target_at(p), self.min_read_log2())
    }

    /// The storage locations at a position and the one following it are in the
    /// same or in adjacent Minimum Read Blocks.
    pub open spec fn successive(&self, p: int) -> bool {
        let states = self.auth_tree_data_blocks_update_states;
        align::align_down(states.target_at(p + 1), self.min_read_log2()) - align::align_down(
            states.target_at(p),
            self.min_read_log2(),
        ) <= align::block_size(self.min_read_log2())
    }

    /// A range extends over a contiguous sequence of Minimum Read Blocks, with
    /// possibly not all of it tracked.
    pub open spec fn read_blocks_contiguous(&self, begin: int, end: int) -> bool {
        forall|p: int| begin <= p && p + 1 < end ==> #[trigger] self.successive(p)
    }

    /// There's requested data missing in the Minimum Read Block at a position.
    pub open spec fn read_needed_at(&self, begin: int, end: int, request: (int, int), p: int) -> bool {
        let states = self.auth_tree_data_blocks_update_states;
        exists|q: int|
            begin <= q < end && request.0 <= q < request.1 && align::same_block(
                states.target_at(p),
                states.target_at(q),
                self.min_read_log2(),
            ) && #[trigger] self.info_at(q) is NeedsDataRead
    }

    /// There's requested data missing in each of a range's Minimum Read Blocks.
    pub open spec fn read_needed_throughout(&self, begin: int, end: int, request: (int, int)) -> bool {
        forall|p: int| begin <= p < end ==> #[trigger] self.read_needed_at(begin, end, request, p)
    }

    /// A range extends over a contiguous sequence of completely tracked Minimum
    /// Read Blocks.
    pub open spec fn read_blocks_complete(&self, begin: int, end: int) -> bool {
        let states = self.auth_tree_data_blocks_update_states;
        &&& align::aligned(states.target_at(begin), self.min_read_log2())
        &&& align::aligned(states.target_at(begin) + (end - begin), self.min_read_log2())
        &&& forall|p: int|
            begin <= p < end ==> #[trigger] states.target_at(p) == states.target_at(begin) + (p - begin)
    }

    /// At all boundaries between Minimum Read Blocks, the Journal Staging Copies
    /// are not too far apart.
    pub open spec fn journal_chained(&self, begin: int, end: int) -> bool {
        forall|p: int|
            begin < p < end && #[trigger] self.starts_read_block(begin, p) ==> self.journal_adjoins(p - 1, p)
    }

    /// A range of Minimum Read Blocks is suitable for getting read in one go,
    /// from the target location if `target`, and from the Journal Staging Copy
    /// if `journal`.
    pub open spec fn is_batch(
        &self,
        begin: int,
        end: int,
        target: bool,
        journal: bool,
        request: (int, int),
    ) -> bool {
        &&& begin < end
        &&& target || journal
        &&& target == self.all_readable_from_target(begin, end)
        &&& journal ==> {
            &&& self.all_readable_from_journal(begin, end)
            &&& self.read_blocks_complete(begin, end)
            &&& self.journal_chained(begin, end)
        }
        &&& self.read_blocks_contiguous(begin, end)
        &&& self.read_needed_throughout(begin, end, request)
    }

    /// No requested data is missing in a range.
    pub open spec fn nothing_missing(&self, begin: int, end: int, request: (int, int)) -> bool {
        forall|p: int|
            begin <= p < end && request.0 <= p < request.1 ==> !(#[trigger] self.info_at(p) is NeedsDataRead)
    }

    /// A Minimum Read Block with as many entries as it has Allocation Blocks is
    /// tracked completely.
    proof fn lemma_complete_read_block(&self, begin: int, end: int)
        requires
            self.wf(),
            0 <= begin < end <= self.auth_tree_data_blocks_update_states.blocks_count(),
            end - begin == align::block_size(self.min_read_log2()),
            forall|p: int|
                begin <= p < end ==> align::same_block(
                    self.auth_tree_data_blocks_update_states.target_at(begin),
                    #[trigger] self.auth_tree_data_blocks_update_states.target_at(p),
                    self.min_read_log2(),
                ),
        ensures
            self.read_blocks_complete(begin, end),
    {
        let states = self.auth_tree_data_blocks_update_states;
        let m = self.min_read_log2();
        let t = states.target_at(begin);
        align::lemma_align_down_bounds(t, m);
        align::lemma_align_down_bounds(states.target_at(end - 1), m);
        states.lemma_target_at_distance(begin, end - 1);
        assert(align::same_block(t, states.target_at(end - 1), m));
        align::lemma_aligned_next(t, m);
        assert forall|p: int| begin <= p < end implies #[trigger] states.target_at(p) == t + (p - begin) by {
            states.lemma_target_at_distance(begin, p);
            states.lemma_target_at_distance(p, end - 1);
        }
    }

    /// A single Minimum Read Block with requested data missing.
    proof fn lemma_batch_single(&self, first: int, begin: int, end: int, request: (int, int))
        requires
            self.wf(),
            0 <= first <= begin < end <= self.auth_tree_data_blocks_update_states.blocks_count(),
            self.read_blocks_consistent(first, end),
            self.starts_read_block(first, begin),
            !self.read_block_skipped(begin, self.read_block_end(begin, end), request),
        ensures
            self.is_batch(
                begin,
                self.read_block_end(begin, end),
                self.all_readable_from_target(begin, self.read_block_end(begin, end)),
                self.read_block_readable_from_journal(begin, self.read_block_end(begin, end)),
                request,
            ),
    {
        let states = self.auth_tree_data_blocks_update_states;
        let m = self.min_read_log2();
        let q = self.read_block_end(begin, end);
        states.lemma_run_end(begin, end, m);
        assert(self.read_block_consistent(begin, q));
        if self.read_block_readable_from_journal(begin, q) {
            self.lemma_complete_read_block(begin, q);
        }
        assert forall|p: int| begin <= p && p + 1 < q implies #[trigger] self.successive(p) by {
            assert(align::same_block(states.target_at(begin), states.target_at(p), m));
            assert(align::same_block(states.target_at(begin), states.target_at(p + 1), m));
            align::lemma_block_size_pos(m);
        }
        assert forall|p: int| begin < p < q && #[trigger] self.starts_read_block(begin, p) implies self.journal_adjoins(
            p - 1,
            p,
        ) by {
            assert(align::same_block(states.target_at(begin), states.target_at(p), m));
            assert(align::same_block(states.target_at(begin), states.target_at(p - 1), m));
        }
        let x = choose|x: int| begin <= x < q && request.0 <= x < request.1 && #[trigger] self.info_at(x) is NeedsDataRead;
        assert forall|p: int| begin <= p < q implies #[trigger] self.read_needed_at(begin, q, request, p) by {
            assert(align::same_block(states.target_at(begin), states.target_at(x), m));
            assert(align::same_block(states.target_at(begin), states.target_at(p), m));
            assert(self.info_at(x) is NeedsDataRead);
        }
    }

    /// Append a Minimum Read Block to a batch.
    proof fn lemma_batch_append(
        &self,
        begin: int,
        mid: int,
        end: int,
        target: bool,
        journal: bool,
        block_target: bool,
        block_journal: bool,
        request: (int, int),
    )
        requires
            self.wf(),
            0 <= begin < mid < end <= self.auth_tree_data_blocks_update_states.blocks_count(),
            self.is_batch(begin, mid, target, journal, request),
            self.is_batch(mid, end, block_target, block_journal, request),
            self.read_block_adjoins(mid - 1, mid),
            target && block_target || journal && block_journal && self.journal_adjoins(mid - 1, mid),
            !align::same_block(
                self.auth_tree_data_blocks_update_states.target_at(mid - 1),
                self.auth_tree_data_blocks_update_states.target_at(mid),
                self.min_read_log2(),
            ),
            forall|p: int|
                mid <= p < end ==> align::same_block(
                    self.auth_tree_data_blocks_update_states.target_at(mid),
                    #[trigger] self.auth_tree_data_blocks_update_states.target_at(p),
                    self.min_read_log2(),
                ),
        ensures
            self.is_batch(
                begin,
                end,
                target && block_target,
                journal && block_journal && self.journal_adjoins(mid - 1, mid),
                request,
            ),
    {
        let states = self.auth_tree_data_blocks_update_states;
        let m = self.min_read_log2();
        assert forall|p: int| begin <= p && p + 1 < end implies #[trigger] self.successive(p) by {
            if p + 1 < mid {
            } else if p + 1 == mid {
            } else {
                assert(mid <= p);
            }
        }
        assert(self.all_readable_from_target(begin, end) == (target && block_target)) by {
            if self.all_readable_from_target(begin, end) {
                assert(self.all_readable_from_target(begin, mid));
                assert(self.all_readable_from_target(mid, end));
            }
        }
        if journal && block_journal && self.journal_adjoins(mid - 1, mid) {
            // Both parts are tracked completely.
            let t = states.target_at(begin);
            let u = states.target_at(mid);
            let w = states.target_at(mid - 1);
            assert(w == t + (mid - 1 - begin));
            states.lemma_target_at_distance(mid - 1, mid);
            align::lemma_align_down_bounds(w, m);
            align::lemma_align_down_bounds(u, m);
            align::lemma_align_down_mono(w, u, m);
            align::lemma_align_down_unique(u, u, m);
            assert(u == align::align_down(w, m) + align::block_size(m)) by {
                align::lemma_aligned_gap(align::align_down(w, m), u, m);
            }
            assert(u == w + 1) by {
                align::lemma_align_down_bounds(w + 1, m);
                align::lemma_align_down_unique(w + 1, w + 1, m);
                align::lemma_aligned_gap(align::align_down(w, m), w + 1, m);
            }
            assert forall|p: int| begin <= p < end implies #[trigger] states.target_at(p) == t + (p - begin) by {
                if p >= mid {
                    assert(states.target_at(p) == u + (p - mid));
                }
            }
            assert(t + (end - begin) == u + (end - mid));
            assert forall|p: int| begin < p < end && #[trigger] self.starts_read_block(begin, p) implies self.journal_adjoins(
                p - 1,
                p,
            ) by {
                if p > mid {
                    assert(self.starts_read_block(mid, p));
                }
            }
        }
        assert forall|p: int| begin <= p < end implies #[trigger] self.read_needed_at(begin, end, request, p) by {
            if p < mid {
                assert(self.read_needed_at(begin, mid, request, p));
            } else {
                assert(self.read_needed_at(mid, end, request, p));
            }
        }
    }

    /// Extension of a batch.
    proof fn lemma_extended_batch(
        &self,
        first: int,
        begin: int,
        target: bool,
        journal: bool,
        cur: int,
        end: int,
        request: (int, int),
    )
        requires
            self.wf(),
            0 <= first <= begin < cur <= end <= self.auth_tree_data_blocks_update_states.blocks_count(),
            self.read_blocks_consistent(first, end),
            cur < end ==> self.starts_read_block(first, cur),
            self.is_batch(begin, cur, target, journal, request),
        ensures
            ({
                let (e, t, rest) = self.extended_batch(cur - 1, target, journal, cur, end, request);
                &&& cur <= e <= rest <= end
                &&& self.is_batch(begin, e, t, true, request) || self.is_batch(begin, e, t, false, request)
                &&& self.nothing_missing(e, rest, request)
                &&& e < end ==> self.starts_read_block(first, e)
                &&& rest < end ==> self.starts_read_block(first, rest)
            }),
        decreases end - cur,
    {
        let states = self.auth_tree_data_blocks_update_states;
        let m = self.min_read_log2();
        if cur < end {
            let q = self.read_block_end(cur, end);
            states.lemma_run_end(cur, end, m);
            if q < end {
                assert(align::same_block(states.target_at(cur), states.target_at(q - 1), m));
                assert(self.starts_read_block(first, q));
            }
            if self.read_block_skipped(cur, q, request) {
                assert(self.read_block_consistent(cur, q));
                assert(self.nothing_missing(cur, q, request)) by {
                    if !self.any_uninitialized(cur, q) {
                    } else {
                        assert forall|p: int| cur <= p < q implies !(#[trigger] self.info_at(p) is NeedsDataRead) by {}
                    }
                }
            } else {
                self.lemma_batch_single(first, cur, end, request);
                let bt = self.all_readable_from_target(cur, q);
                let bj = self.read_block_readable_from_journal(cur, q);
                let aj = self.journal_adjoins(cur - 1, cur);
                if self.read_block_adjoins(cur - 1, cur) && !(self.journal_staging_copy_disguise_enabled && target
                    != bt) && (target && bt || journal && bj && aj) {
                    self.lemma_batch_append(begin, cur, q, target, journal, bt, bj, request);
                    self.lemma_extended_batch(first, begin, target && bt, journal && bj && aj, q, end, request);
                }
            }
        }
    }

    /// Determination of a batch.
    pub proof fn lemma_next_batch(&self, first: int, begin: int, end: int, request: (int, int))
        requires
            self.wf(),
            0 <= first <= begin <= end <= self.auth_tree_data_blocks_update_states.blocks_count(),
            self.read_blocks_consistent(first, end),
            begin < end ==> self.starts_read_block(first, begin),
        ensures
            match self.next_batch(begin, end, request) {
                None => self.nothing_missing(begin, end, request),
                Some((b, (e, t, rest))) => {
                    &&& begin <= b < e <= rest <= end
                    &&& self.is_batch(b, e, t, true, request) || self.is_batch(b, e, t, false, request)
                    &&& self.nothing_missing(begin, b, request)
                    &&& self.nothing_missing(e, rest, request)
                    &&& self.starts_read_block(first, b)
                    &&& e < end ==> self.starts_read_block(first, e)
                    &&& rest < end ==> self.starts_read_block(first, rest)
                },
            },
        decreases end - begin,
    {
        let states = self.auth_tree_data_blocks_update_states;
        let m = self.min_read_log2();
        if begin < end {
            let q = self.read_block_end(begin, end);
            states.lemma_run_end(begin, end, m);
            if q < end {
                assert(align::same_block(states.target_at(begin), states.target_at(q - 1), m));
                assert(self.starts_read_block(first, q));
            }
            if self.read_block_skipped(begin, q, request) {
                assert(self.read_block_consistent(begin, q));
                assert(self.nothing_missing(begin, q, request)) by {
                    if self.any_uninitialized(begin, q) {
                        assert forall|p: int| begin <= p < q implies !(#[trigger] self.info_at(p) is NeedsDataRead) by {}
                    }
                }
                self.lemma_next_batch(first, q, end, request);
            } else {
                self.lemma_batch_single(first, begin, end, request);
                self.lemma_extended_batch(
                    first,
                    begin,
                    self.all_readable_from_target(begin, q),
                    self.read_block_readable_from_journal(begin, q),
                    q,
                    end,
                    request,
                );
            }
        }
    }

    /// Nothing gets missed when determining what to read: any requested data
    /// missing is either found within the region to read next, or in what's
    /// left for the next iteration.
    pub proof fn law_read_regions_cover_missing_data(&self, begin: int, end: int, request: (int, int), p: int)
        requires
            self.wf(),
            0 <= begin <= end <= self.auth_tree_data_blocks_update_states.blocks_count(),
            self.read_blocks_consistent(begin, end),
            begin <= p < end,
            request.0 <= p < request.1,
            self.info_at(p) is NeedsDataRead,
        ensures
            self.next_batch(begin, end, request) matches Some((b, (e, _, rest))) && (b <= p < e || rest <= p),
    {
        self.lemma_next_batch(begin, begin, end, request);
    }

    /// What's left for the next iteration is always less than before.
    pub proof fn law_read_regions_progress(&self, begin: int, end: int, request: (int, int))
        requires
            self.wf(),
            0 <= begin <= end <= self.auth_tree_data_blocks_update_states.blocks_count(),
            self.read_blocks_consistent(begin, end),
        ensures
            self.next_batch(begin, end, request) matches Some((b, (e, _, rest))) ==> begin <= b < e <= rest <= end,
    {
        self.lemma_next_batch(begin, begin, end, request);
    }

    /// Only what is needed and available gets read: regions to read don't have
    /// any uninitialized data in them, all missing data can get read from the
    /// place indicated, it's one contiguous region and there's some requested
    /// data missing in each of its Minimum Read Blocks.
    pub proof fn law_read_regions_are_readable(&self, begin: int, end: int, request: (int, int))
        requires
            self.wf(),
            0 <= begin <= end <= self.auth_tree_data_blocks_update_states.blocks_count(),
            self.read_blocks_consistent(begin, end),
        ensures
            self.next_batch(begin, end, request) matches Some((b, (e, from_target, _))) ==> {
                &&& !self.any_uninitialized(b, e)
                &&& from_target ==> self.all_readable_from_target(b, e)
                &&& !from_target ==> self.all_readable_from_journal(b, e) && self.read_blocks_complete(b, e)
                &&& self.read_blocks_contiguous(b, e)
                &&& self.read_needed_throughout(b, e, request)
            },
    {
        self.lemma_next_batch(begin, begin, end, request);
    }

    /// Journal Staging Copies have been assigned wherever there's anything to
    /// read from them, and no two are at the same location.
    pub open spec fn journal_assigned(&self) -> bool {
        let states = self.auth_tree_data_blocks_update_states;
        &&& forall|p: int|
            0 <= p < states.blocks_count() && (#[trigger] self.info_at(p) matches AllocationBlockNvSyncStateInfo::NeedsDataRead {
                can_read_from_journal,
                ..
            } && can_read_from_journal) ==> states.states@[p
                / states.block_len()].journal_staging_copy_allocation_blocks_begin is Some
        &&& forall|i: int, j: int|
            0 <= i < j < states.states@.len() ==> !((
            #[trigger] states.states@[i]).journal_staging_copy_allocation_blocks_begin matches Some(a) && (
            #[trigger] states.states@[j]).journal_staging_copy_allocation_blocks_begin matches Some(b) && a == b)
    }

    /// There's a Journal Staging Copy for anything in a batch to be read from
    /// there.
    proof fn lemma_batch_journal_assigned(&self, begin: int, end: int, request: (int, int), p: int)
        requires
            self.wf(),
            self.journal_assigned(),
            0 <= begin <= p < end <= self.auth_tree_data_blocks_update_states.blocks_count(),
            self.is_batch(begin, end, false, true, request),
        ensures
            ({
                let states = self.auth_tree_data_blocks_update_states;
                states.states@[p / states.block_len()].journal_staging_copy_allocation_blocks_begin is Some
            }),
    {
        let states = self.auth_tree_data_blocks_update_states;
        let (l, m, jl) = (states.auth_log2(), self.min_read_log2(), states.journal_log2());
        assert(self.read_needed_at(begin, end, request, p));
        let q = choose|q: int|
            begin <= q < end && request.0 <= q < request.1 && align::same_block(
                states.target_at(p),
                states.target_at(q),
                m,
            ) && #[trigger] self.info_at(q) is NeedsDataRead;
        states.lemma_target_at_distance(p, p);
        states.lemma_target_at_distance(q, q);
        let (i, j) = (p / states.block_len(), q / states.block_len());
        assert(states.states@[i].wf(l) && states.states@[j].wf(l));
        align::lemma_align_down_unique(states.target_at(p), states.states@[i].target(), l);
        align::lemma_align_down_unique(states.target_at(q), states.states@[j].target(), l);
        align::lemma_same_block_coarser(states.target_at(p), states.states@[i].target(), l, jl);
        align::lemma_same_block_coarser(states.target_at(q), states.states@[j].target(), l, jl);
        align::lemma_same_block_coarser(states.target_at(p), states.target_at(q), m, jl);
        assert(states.states@[i].journal_agrees(&states.states@[j], jl));
    }

    /// The Journal Staging Copies of successive entries in a batch are
    /// successive as well.
    proof fn lemma_batch_journal_step(&self, begin: int, end: int, request: (int, int), i: int)
        requires
            self.wf(),
            self.journal_assigned(),
            0 <= begin < end <= self.auth_tree_data_blocks_update_states.blocks_count(),
            self.is_batch(begin, end, false, true, request),
            begin / self.auth_tree_data_blocks_update_states.block_len() <= i,
            i + 1 <= (end - 1) / self.auth_tree_data_blocks_update_states.block_len(),
        ensures
            ({
                let states = self.auth_tree_data_blocks_update_states;
                &&& states.states@[i].journal_staging_copy_allocation_blocks_begin matches Some(a)
                &&& states.states@[i + 1].journal_staging_copy_allocation_blocks_begin matches Some(b)
                &&& b.index == a.index + states.block_len()
            }),
    {
        let states = self.auth_tree_data_blocks_update_states;
        let (l, m, jl) = (states.auth_log2(), self.min_read_log2(), states.journal_log2());
        let (n, size, unit) = (states.states@.len() as int, states.block_len(), align::block_size(jl));
        align::lemma_block_size_pos(l);
        align::lemma_block_size_pos(jl);
        vstd::arithmetic::div_mod::lemma_fundamental_div_mod(begin, size);
        vstd::arithmetic::div_mod::lemma_fundamental_div_mod(end - 1, size);
        states.lemma_target_at_distance(begin, end - 1);
        let (b, e) = (begin / size, (end - 1) / size);
        let p = (i + 1) * size;
        assert(begin < p < end) by (nonlinear_arith)
            requires
                p == (i + 1) * size,
                begin == size * b + begin % size,
                end - 1 == size * e + (end - 1) % size,
                0 <= begin % size < size,
                0 <= (end - 1) % size,
                b <= i,
                i + 1 <= e,
                size >= 1,
        ;
        vstd::arithmetic::div_mod::lemma_fundamental_div_mod_converse(p, size, i + 1, 0);
        assert(p - 1 == i * size + (size - 1)) by (nonlinear_arith)
            requires
                p == (i + 1) * size,
        ;
        vstd::arithmetic::div_mod::lemma_fundamental_div_mod_converse(p - 1, size, i, size - 1);
        self.lemma_batch_journal_assigned(begin, end, request, p - 1);
        self.lemma_batch_journal_assigned(begin, end, request, p);
        let (x, y) = (states.states@[i], states.states@[i + 1]);
        assert(x.wf(l) && y.wf(l) && x.journal_wf(jl) && y.journal_wf(jl));
        assert(states.target_at(p) == states.target_at(p - 1) + 1);
        assert(y.target() == x.target() + size);
        let a = x.journal_staging_copy_allocation_blocks_begin->Some_0.index as int;
        let c = y.journal_staging_copy_allocation_blocks_begin->Some_0.index as int;
        assert(a != c);
        assert(x.journal_agrees(&y, jl));
        if !align::same_block(x.target(), y.target(), jl) {
            // The two are from different units of allocation.
            if align::same_block(states.target_at(p - 1), states.target_at(p), m) {
                align::lemma_align_down_unique(states.target_at(p - 1), x.target(), l);
                align::lemma_same_block_coarser(states.target_at(p - 1), x.target(), l, jl);
                align::lemma_same_block_coarser(states.target_at(p - 1), states.target_at(p), m, jl);
            }
            assert(self.starts_read_block(begin, p));
            assert(self.journal_adjoins(p - 1, p));
            let (t, u) = (align::align_down(x.target(), jl), align::align_down(y.target(), jl));
            let (aj, cj) = (align::align_down(a, jl), align::align_down(c, jl));
            align::lemma_align_down_bounds(x.target(), jl);
            align::lemma_align_down_bounds(y.target(), jl);
            align::lemma_align_down_bounds(a, jl);
            align::lemma_align_down_bounds(c, jl);
            align::lemma_align_down_mono(x.target(), y.target(), jl);
            align::lemma_aligned_gap(t, u, jl);
            // As the blocks don't cross any boundary, the second one is at the beginning of its
            // unit of allocation.
            align::lemma_aligned_finer(u, l, jl);
            assert(u == y.target()) by {
                if u < y.target() {
                    align::lemma_aligned_gap(u, y.target(), l);
                    if u > x.target() {
                        align::lemma_aligned_gap(x.target(), u, l);
                    }
                }
            }
            align::lemma_block_size_split(l, jl);
            align::lemma_aligned_next(t, jl);
            if t + unit < u {
                align::lemma_aligned_gap(t + unit, u, jl);
            }
            assert(u == t + unit);
            // Likewise for the Journal Staging Copies.
            if aj < cj {
                align::lemma_aligned_gap(aj, cj, jl);
                align::lemma_aligned_next(aj, jl);
                if aj + unit < cj {
                    align::lemma_aligned_gap(aj + unit, cj, jl);
                }
            }
            if cj < aj {
                align::lemma_aligned_gap(cj, aj, jl);
            }
        }
    }

    /// Regions to get read from the Journal Staging Copy are contiguous there.
    pub proof fn law_journal_read_regions_are_contiguous(&self, begin: int, end: int, request: (int, int))
        requires
            self.wf(),
            self.journal_assigned(),
            0 <= begin <= end <= self.auth_tree_data_blocks_update_states.blocks_count(),
            self.read_blocks_consistent(begin, end),
        ensures
            self.next_batch(begin, end, request) matches Some((b, (e, from_target, _))) ==> (!from_target ==> {
                let states = self.auth_tree_data_blocks_update_states;
                states.journal_contiguous(b / states.block_len(), (e - 1) / states.block_len() + 1)
            }),
    {
        self.lemma_next_batch(begin, begin, end, request);
        let states = self.auth_tree_data_blocks_update_states;
        let size = states.block_len();
        match self.next_batch(begin, end, request) {
            Some((b, (e, false, _))) => {
                self.lemma_batch_journal_assigned(b, e, request, b);
                let (first, last) = (b / size, (e - 1) / size);
                states.lemma_target_at_distance(b, e - 1);
                self.lemma_batch_journal_run(b, e, request, last);
                assert forall|i: int| first <= i < last + 1 implies ((#[trigger] states.states@[i]).journal_staging_copy_allocation_blocks_begin matches Some(
                    j,
                ) && states.states@[first].journal_staging_copy_allocation_blocks_begin matches Some(j0) && j.index
                    == j0.index + (i - first) * size) by {
                    self.lemma_batch_journal_run(b, e, request, i);
                }
            },
            _ => {},
        }
    }

    /// Distance of an entry's Journal Staging Copy from that of the batch's
    /// first one.
    proof fn lemma_batch_journal_run(&self, begin: int, end: int, request: (int, int), i: int)
        requires
            self.wf(),
            self.journal_assigned(),
            0 <= begin < end <= self.auth_tree_data_blocks_update_states.blocks_count(),
            self.is_batch(begin, end, false, true, request),
            begin / self.auth_tree_data_blocks_update_states.block_len() <= i,
            i <= (end - 1) / self.auth_tree_data_blocks_update_states.block_len(),
        ensures
            ({
                let states = self.auth_tree_data_blocks_update_states;
                let first = begin / states.block_len();
                &&& states.states@[first].journal_staging_copy_allocation_blocks_begin matches Some(a)
                &&& states.states@[i].journal_staging_copy_allocation_blocks_begin matches Some(b)
                &&& b.index == a.index + (i - first) * states.block_len()
            }),
        decreases i,
    {
        let states = self.auth_tree_data_blocks_update_states;
        let size = states.block_len();
        let first = begin / size;
        states.lemma_target_at_distance(begin, end - 1);
        self.lemma_batch_journal_assigned(begin, end, request, begin);
        if i == first {
            assert(0 * size == 0) by (nonlinear_arith);
        } else {
            self.lemma_batch_journal_run(begin, end, request, i - 1);
            self.lemma_batch_journal_step(begin, end, request, i - 1);
            let k = i - first;
            assert(k * size == (k - 1) * size + size) by (nonlinear_arith);
        }
    }
}

} // verus!
