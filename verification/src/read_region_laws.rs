//! Relations between the regions determined to get read and the states of the entries
//! therein.
use crate::align;
use crate::alloc_bitmap::AllocBitmap;
use crate::block_state::{AllocationBlockUpdateNvSyncState, AllocationBlockUpdateNvSyncStateAllocated};
use crate::block_state_laws;
use crate::fs::NvFsError;
use crate::offsets::AuthTreeDataBlocksUpdateStatesFillAlignmentGapsRangeOffsets;
use crate::read_missing_data::TransactionReadMissingDataFuture;
use crate::read_poll;
use crate::read_poll::TransactionReadMissingDataFuturePoll;
use crate::read_progress;
use crate::states;
use crate::states::{AuthTreeDataBlockUpdateState, AuthTreeDataBlocksUpdateStates};
use crate::states_index::AuthTreeDataBlocksUpdateStatesAllocationBlocksIndexRange;
use crate::transaction::Transaction;
use vstd::prelude::*;

verus! {

/// There's something for an Allocation Block at its target location, and it's the most
/// recent there is.
pub open spec fn is_at_target(nv_sync_state: AllocationBlockUpdateNvSyncState) -> bool {
    match nv_sync_state {
        AllocationBlockUpdateNvSyncState::Unallocated(unallocated) => block_state_laws::target_initialized(
            unallocated.target_state,
        ),
        AllocationBlockUpdateNvSyncState::Allocated(AllocationBlockUpdateNvSyncStateAllocated::Unmodified(_)) => true,
        AllocationBlockUpdateNvSyncState::Allocated(AllocationBlockUpdateNvSyncStateAllocated::Modified(_)) => false,
    }
}

/// There's something for an Allocation Block in its Journal Staging Copy.
pub open spec fn is_in_journal(nv_sync_state: AllocationBlockUpdateNvSyncState) -> bool {
    match nv_sync_state {
        AllocationBlockUpdateNvSyncState::Unallocated(unallocated) => unallocated.copied_to_journal,
        AllocationBlockUpdateNvSyncState::Allocated(
            AllocationBlockUpdateNvSyncStateAllocated::Unmodified(unmodified),
        ) => unmodified.copied_to_journal,
        AllocationBlockUpdateNvSyncState::Allocated(
            AllocationBlockUpdateNvSyncStateAllocated::Modified(modified),
        ) => modified is JournalClean,
    }
}

/// Missing data is read from where it is: the target location is read from only if it
/// has the most recent data, and the Journal Staging Copy only if the data had been
/// written to it.
pub proof fn law_data_is_read_from_where_it_is(t: Transaction, begin: int, end: int, request: (int, int), p: int)
    requires
        t.wf(),
        0 <= begin <= end <= t.auth_tree_data_blocks_update_states.blocks_count(),
        t.read_blocks_consistent(begin, end),
        t.next_batch(begin, end, request) matches Some((b, (e, _, _))) && b <= p < e,
        t.auth_tree_data_blocks_update_states.block_at(p).nv_sync_state.lacks_data(),
    ensures
        ({
            let nv_sync_state = t.auth_tree_data_blocks_update_states.block_at(p).nv_sync_state;
            let read_from_target = t.next_batch(begin, end, request)->Some_0.1.1;
            if read_from_target {
                is_at_target(nv_sync_state)
            } else {
                is_in_journal(nv_sync_state)
            }
        }),
{
    t.law_read_regions_are_readable(begin, end, request);
    let _ = t.info_at(p);
}

/// Determining what to read ends only once there's nothing requested missing anymore,
/// with the exception of what's never been initialized.
pub proof fn law_nothing_requested_is_missed(t: Transaction, begin: int, end: int, request: (int, int), p: int)
    requires
        t.wf(),
        0 <= begin <= end <= t.auth_tree_data_blocks_update_states.blocks_count(),
        t.read_blocks_consistent(begin, end),
        t.next_batch(begin, end, request) is None,
        begin <= p < end,
        request.0 <= p < request.1,
    ensures
        ({
            let nv_sync_state = t.auth_tree_data_blocks_update_states.block_at(p).nv_sync_state;
            nv_sync_state.lacks_data() ==> !is_at_target(nv_sync_state) && !is_in_journal(nv_sync_state)
        }),
{
    t.lemma_next_batch(begin, begin, end, request);
    let _ = t.info_at(p);
}

/// What's to be read at once does not cross any of the preferred read blocks'
/// boundaries, unless those are within a single Authentication Tree Data Block.
pub proof fn law_batches_stay_within_preferred_blocks(t: Transaction, begin: int, end: int, request: (int, int), p: int)
    requires
        t.wf(),
        0 <= begin <= end <= t.auth_tree_data_blocks_update_states.blocks_count(),
        t.next_batch(begin, end, request) matches Some((b, (e, _, _))) && b <= p && p + 1 < e,
    ensures
        ({
            let states = t.auth_tree_data_blocks_update_states;
            let (read_size, preferred_size) = (
                align::block_size(t.min_read_log2()),
                align::block_size(t.preferred_read_log2()),
            );
            let (x, y) = (states.target_at(p), states.target_at(p + 1));
            &&& p / states.block_len() == (p + 1) / states.block_len() || (x - x % read_size) / preferred_size == (y - y
                % read_size) / preferred_size
            // There's no gap in between.
            &&& y / read_size <= x / read_size + 1
        }),
    decreases end - begin,
{
    let states = t.auth_tree_data_blocks_update_states;
    let q = t.read_block_end(begin, end);
    let m = t.min_read_log2();
    if begin < end {
        states.lemma_run_end(begin, end, m);
        if t.read_block_skipped(begin, q, request) {
            law_batches_stay_within_preferred_blocks(t, q, end, request, p);
        } else if p < q - 1 {
            lemma_within_read_block(t, begin, end, p);
        } else {
            lemma_extension_stays_within_preferred_blocks(
                t,
                q - 1,
                t.all_readable_from_target(begin, q),
                t.read_block_readable_from_journal(begin, q),
                q,
                end,
                request,
                p,
            );
        }
    }
}

proof fn lemma_within_read_block(t: Transaction, begin: int, end: int, p: int)
    requires
        t.wf(),
        0 <= begin < end <= t.auth_tree_data_blocks_update_states.blocks_count(),
        begin <= p,
        p + 1 < t.read_block_end(begin, end),
    ensures
        ({
            let states = t.auth_tree_data_blocks_update_states;
            let read_size = align::block_size(t.min_read_log2());
            let (x, y) = (states.target_at(p), states.target_at(p + 1));
            x - x % read_size == y - y % read_size && x / read_size == y / read_size
        }),
{
    let states = t.auth_tree_data_blocks_update_states;
    let m = t.min_read_log2();
    states.lemma_run_end(begin, end, m);
    let (x, y) = (states.target_at(p), states.target_at(p + 1));
    reveal(align::align_down);
    assert(align::same_block(x, y, m));
    align::lemma_blocks_align_down(x, m);
    align::lemma_blocks_align_down(y, m);
    reveal(align::blocks);
}

proof fn lemma_extension_stays_within_preferred_blocks(
    t: Transaction,
    last: int,
    target: bool,
    journal: bool,
    begin: int,
    end: int,
    request: (int, int),
    p: int,
)
    requires
        t.wf(),
        0 <= last,
        begin == last + 1,
        begin <= end <= t.auth_tree_data_blocks_update_states.blocks_count(),
        last <= p,
        p + 1 < t.extended_batch(last, target, journal, begin, end, request).0,
    ensures
        ({
            let states = t.auth_tree_data_blocks_update_states;
            let (read_size, preferred_size) = (
                align::block_size(t.min_read_log2()),
                align::block_size(t.preferred_read_log2()),
            );
            let (x, y) = (states.target_at(p), states.target_at(p + 1));
            &&& p / states.block_len() == (p + 1) / states.block_len() || (x - x % read_size) / preferred_size == (y - y
                % read_size) / preferred_size
            &&& y / read_size <= x / read_size + 1
        }),
    decreases end - begin,
{
    let states = t.auth_tree_data_blocks_update_states;
    let q = t.read_block_end(begin, end);
    let (m, n) = (t.min_read_log2(), t.preferred_read_log2());
    if begin < end {
        states.lemma_run_end(begin, end, m);
        if p == last {
            let (x, y) = (states.target_at(last), states.target_at(begin));
            let (a, b) = (align::align_down(x, m), align::align_down(y, m));
            align::lemma_block_size_pos(m);
            align::lemma_blocks_align_down(x, m);
            align::lemma_blocks_align_down(y, m);
            align::lemma_blocks_align_down(a, n);
            align::lemma_blocks_align_down(b, n);
            reveal(align::blocks);
            reveal(align::align_down);
            let (i, j, s) = (x / align::block_size(m), y / align::block_size(m), align::block_size(m));
            assert(j <= i + 1) by (nonlinear_arith)
                requires
                    j * s - i * s <= s,
                    s > 0,
            ;
        } else if p < q - 1 {
            lemma_within_read_block(t, begin, end, p);
        } else {
            lemma_extension_stays_within_preferred_blocks(
                t,
                q - 1,
                target && t.all_readable_from_target(begin, q),
                journal && t.read_block_readable_from_journal(begin, q) && t.journal_adjoins(last, begin),
                q,
                end,
                request,
                p,
            );
        }
    }
}

/// With Journal Staging Copies being disguised, reading from the target location is
/// preferred: what's to be read at once is read from the Journal Staging Copy only if its
/// first Minimum Read Block cannot get read from the target location.
pub proof fn law_undisguising_is_avoided(t: Transaction, begin: int, end: int, request: (int, int))
    requires
        t.wf(),
        0 <= begin <= end <= t.auth_tree_data_blocks_update_states.blocks_count(),
        t.journal_staging_copy_disguise_enabled,
    ensures
        t.next_batch(begin, end, request) matches Some((b, (_, read_from_target, _))) ==> read_from_target
            == t.all_readable_from_target(b, t.read_block_end(b, end)),
    decreases end - begin,
{
    let states = t.auth_tree_data_blocks_update_states;
    let q = t.read_block_end(begin, end);
    if begin < end {
        states.lemma_run_end(begin, end, t.min_read_log2());
        if t.read_block_skipped(begin, q, request) {
            law_undisguising_is_avoided(t, q, end, request);
        } else {
            lemma_extension_retains_source(
                t,
                q - 1,
                t.all_readable_from_target(begin, q),
                t.read_block_readable_from_journal(begin, q),
                q,
                end,
                request,
            );
        }
    }
}

proof fn lemma_extension_retains_source(
    t: Transaction,
    last: int,
    target: bool,
    journal: bool,
    begin: int,
    end: int,
    request: (int, int),
)
    requires
        t.wf(),
        0 <= begin <= end <= t.auth_tree_data_blocks_update_states.blocks_count(),
        t.journal_staging_copy_disguise_enabled,
    ensures
        t.extended_batch(last, target, journal, begin, end, request).1 == target,
    decreases end - begin,
{
    let states = t.auth_tree_data_blocks_update_states;
    let q = t.read_block_end(begin, end);
    if begin < end {
        states.lemma_run_end(begin, end, t.min_read_log2());
        lemma_extension_retains_source(
            t,
            q - 1,
            target && t.all_readable_from_target(begin, q),
            journal && t.read_block_readable_from_journal(begin, q) && t.journal_adjoins(last, begin),
            q,
            end,
            request,
        );
    }
}

/// Having entries inserted in the course of preparing a read, the request still refers to
/// the same entries, and what remains to be considered is the same as well. All insertions
/// are accounted for.
pub proof fn law_corrected_ranges_refer_to_same_entries(
    old_future: TransactionReadMissingDataFuture,
    new_future: TransactionReadMissingDataFuture,
    old_states: AuthTreeDataBlocksUpdateStates,
    new_states: AuthTreeDataBlocksUpdateStates,
    alignment_log2: nat,
)
    requires
        old_future.request_states_allocation_blocks_index_range.begin
            != old_future.request_states_allocation_blocks_index_range.end,
        new_future.ranges_corrected(&old_future, &old_states, &new_states, alignment_log2),
    ensures
        ({
            let (o, f) = (old_states.states@, new_states.states@);
            let (old_request, new_request) = (
                old_future.request_states_allocation_blocks_index_range,
                new_future.request_states_allocation_blocks_index_range,
            );
            let (old_remaining, new_remaining) = (
                old_future.remaining_states_allocation_blocks_index_range,
                new_future.remaining_states_allocation_blocks_index_range,
            );
            let n = f.len() - o.len();
            // The first entry.
            &&& f[new_request.begin.block()] == o[old_request.begin.block()]
            &&& new_request.begin.offset() == old_request.begin.offset()
            // The last entry.
            &&& if old_request.end.offset() == 0 {
                f[new_request.end.block() - 1] == o[old_request.end.block() - 1]
            } else {
                f[new_request.end.block()] == o[old_request.end.block()]
            }
            &&& new_request.end.offset() == old_request.end.offset()
            // The remainder is at the same distance from the end.
            &&& f.len() - new_remaining.begin.block() == o.len() - old_remaining.begin.block()
            &&& f.len() - new_remaining.end.block() == o.len() - old_remaining.end.block()
            &&& new_remaining.begin.offset() == old_remaining.begin.offset()
            &&& new_remaining.end.offset() == old_remaining.end.offset()
            // The number of entries inserted in front of, and within the request is as reported.
            &&& n > 0 ==> {
                let old_offsets = read_progress::accumulated(old_future.request_states_index_range_offsets);
                &&& new_future.request_states_index_range_offsets matches Some(offsets)
                &&& offsets.inserted_states_before_range_count - old_offsets.inserted_states_before_range_count
                    == new_request.begin.block() - old_request.begin.block()
                &&& offsets.inserted_states_before_range_count + offsets.inserted_states_within_range_count
                    - old_offsets.inserted_states_before_range_count - old_offsets.inserted_states_within_range_count
                    == new_request.end.block() - old_request.end.block()
                &&& offsets.inserted_states_before_range_count + offsets.inserted_states_within_range_count
                    + offsets.inserted_states_after_range_count == old_offsets.inserted_states_before_range_count
                    + old_offsets.inserted_states_within_range_count + old_offsets.inserted_states_after_range_count + n
                &&& offsets.max_target_allocations_blocks_alignment_log2 >= alignment_log2
                &&& offsets.max_target_allocations_blocks_alignment_log2
                    >= old_offsets.max_target_allocations_blocks_alignment_log2
            }
            // Counting starts from zero.
            &&& n > 0 && old_future.request_states_index_range_offsets is None ==> {
                &&& new_future.request_states_index_range_offsets matches Some(offsets)
                &&& offsets.inserted_states_before_range_count == new_request.begin.block() - old_request.begin.block()
                &&& offsets.inserted_states_within_range_count == (new_request.end.block()
                    - new_request.begin.block()) - (old_request.end.block() - old_request.begin.block())
                &&& offsets.inserted_states_before_range_count + offsets.inserted_states_within_range_count
                    + offsets.inserted_states_after_range_count == n
            }
            &&& n == 0 ==> new_future.request_states_index_range_offsets
                == old_future.request_states_index_range_offsets && new_request == old_request
        }),
{
}

/// An entry's Journal Staging Copy is directly followed by another one's.
pub open spec fn is_followed_in_journal(states: AuthTreeDataBlocksUpdateStates, i: int, j: int) -> bool {
    &&& states.states@[i].journal_staging_copy_allocation_blocks_begin matches Some(a)
    &&& states.states@[j].journal_staging_copy_allocation_blocks_begin matches Some(b)
    &&& b.index == a.index + align::block_size(states.auth_tree_data_block_allocation_blocks_log2 as nat)
}

/// What can get read at once is read at once: a batch is followed by another Minimum Read
/// Block with requested data missing only if that one isn't adjoining or isn't available
/// from where the batch is to be read from.
pub proof fn law_adjoining_blocks_are_read_together(t: Transaction, begin: int, end: int, request: (int, int))
    requires
        t.wf(),
        0 <= begin <= end <= t.auth_tree_data_blocks_update_states.blocks_count(),
        t.read_blocks_consistent(begin, end),
    ensures
        t.next_batch(begin, end, request) matches Some((_, (e, read_from_target, _))) ==> e < end ==> {
            let states = t.auth_tree_data_blocks_update_states;
            let (read_size, preferred_size) = (
                align::block_size(t.min_read_log2()),
                align::block_size(t.preferred_read_log2()),
            );
            let block_end = t.read_block_end(e, end);
            let (x, y) = (states.target_at(e - 1), states.target_at(e));
            !{
                &&& y / read_size <= x / read_size + 1
                &&& (x - x % read_size) / preferred_size == (y - y % read_size) / preferred_size
                &&& !t.any_uninitialized(e, block_end) && t.any_needs_read(e, block_end, request)
                &&& if read_from_target {
                    t.all_readable_from_target(e, block_end)
                } else {
                    &&& block_end - e == read_size && t.all_readable_from_journal(e, block_end)
                    &&& (e - 1) / states.block_len() == e / states.block_len() || is_followed_in_journal(
                        states,
                        (e - 1) / states.block_len(),
                        e / states.block_len(),
                    )
                    &&& t.journal_staging_copy_disguise_enabled ==> !t.all_readable_from_target(e, block_end)
                }
            }
        },
{
    t.lemma_next_batch(begin, begin, end, request);
    lemma_next_batch_is_maximal(t, begin, begin, end, request);
    match t.next_batch(begin, end, request) {
        Some((_, (e, _, _))) => {
            if e < end {
                let states = t.auth_tree_data_blocks_update_states;
                let (m, n) = (t.min_read_log2(), t.preferred_read_log2());
                let (x, y) = (states.target_at(e - 1), states.target_at(e));
                align::lemma_block_size_split(states.auth_log2(), states.journal_log2());
                let (a, b) = (align::align_down(x, m), align::align_down(y, m));
                align::lemma_block_size_pos(m);
                align::lemma_blocks_align_down(x, m);
                align::lemma_blocks_align_down(y, m);
                align::lemma_blocks_align_down(a, n);
                align::lemma_blocks_align_down(b, n);
                reveal(align::blocks);
                reveal(align::align_down);
                let (i, j, s) = (x / align::block_size(m), y / align::block_size(m), align::block_size(m));
                if j <= i + 1 {
                    assert(j * s - i * s <= s) by (nonlinear_arith)
                        requires
                            j <= i + 1,
                            s > 0,
                    ;
                }
            }
        },
        None => {},
    }
}

/// The block at a batch's end could have been made part of it.
spec fn could_extend(t: Transaction, e: int, end: int, request: (int, int), read_from_target: bool) -> bool {
    let block_end = t.read_block_end(e, end);
    &&& t.read_block_adjoins(e - 1, e)
    &&& !t.read_block_skipped(e, block_end, request)
    &&& if read_from_target {
        t.all_readable_from_target(e, block_end)
    } else {
        &&& t.read_block_readable_from_journal(e, block_end)
        &&& t.journal_adjoins(e - 1, e)
        &&& t.journal_staging_copy_disguise_enabled ==> !t.all_readable_from_target(e, block_end)
    }
}

proof fn lemma_next_batch_is_maximal(t: Transaction, first: int, begin: int, end: int, request: (int, int))
    requires
        t.wf(),
        0 <= first <= begin <= end <= t.auth_tree_data_blocks_update_states.blocks_count(),
        t.read_blocks_consistent(first, end),
        begin < end ==> t.starts_read_block(first, begin),
    ensures
        t.next_batch(begin, end, request) matches Some((_, (e, read_from_target, _))) ==> e < end ==> !could_extend(
            t,
            e,
            end,
            request,
            read_from_target,
        ),
    decreases end - begin,
{
    let states = t.auth_tree_data_blocks_update_states;
    let m = t.min_read_log2();
    if begin < end {
        let q = t.read_block_end(begin, end);
        states.lemma_run_end(begin, end, m);
        assert(t.read_block_consistent(begin, q));
        if q < end {
            assert(align::same_block(states.target_at(begin), states.target_at(q - 1), m));
            assert(t.starts_read_block(first, q));
        }
        if t.read_block_skipped(begin, q, request) {
            lemma_next_batch_is_maximal(t, first, q, end, request);
        } else {
            lemma_extended_batch_is_maximal(
                t,
                q - 1,
                t.all_readable_from_target(begin, q),
                t.read_block_readable_from_journal(begin, q),
                q,
                end,
                request,
            );
        }
    }
}

proof fn lemma_extended_batch_is_maximal(
    t: Transaction,
    last: int,
    target: bool,
    journal: bool,
    begin: int,
    end: int,
    request: (int, int),
)
    requires
        t.wf(),
        0 <= last,
        begin == last + 1,
        begin <= end <= t.auth_tree_data_blocks_update_states.blocks_count(),
        target || journal,
    ensures
        ({
            let (e, read_from_target, _) = t.extended_batch(last, target, journal, begin, end, request);
            e < end ==> !could_extend(t, e, end, request, read_from_target)
        }),
    decreases end - begin,
{
    let states = t.auth_tree_data_blocks_update_states;
    if begin < end {
        let q = t.read_block_end(begin, end);
        states.lemma_run_end(begin, end, t.min_read_log2());
        let block_target = t.all_readable_from_target(begin, q);
        let block_journal = t.read_block_readable_from_journal(begin, q) && t.journal_adjoins(last, begin);
        if (target && block_target) || (journal && block_journal) {
            lemma_extended_batch_is_maximal(
                t,
                q - 1,
                target && block_target,
                journal && block_journal,
                q,
                end,
                request,
            );
        }
    }
}


/// All insertions made in the course of reading missing data are accounted for upon
/// completion, successful or not. Success is reported only once there's nothing left to
/// get read, and without any further change.
pub proof fn law_insertions_are_reported_upon_completion(
    old_future: TransactionReadMissingDataFuture,
    new_future: TransactionReadMissingDataFuture,
    t: Transaction,
    u: Transaction,
    alloc_bitmap: &AllocBitmap,
    offsets: Option<AuthTreeDataBlocksUpdateStatesFillAlignmentGapsRangeOffsets>,
    result: Result<(), NvFsError>,
)
    requires
        old_future.request_states_allocation_blocks_index_range.begin
            != old_future.request_states_allocation_blocks_index_range.end,
        read_poll::polled(
            &old_future,
            &new_future,
            &t,
            &u,
            &TransactionReadMissingDataFuturePoll::Ready { offsets, result },
            alloc_bitmap,
        ),
    ensures
        ({
            let n = u.auth_tree_data_blocks_update_states.states@.len()
                - t.auth_tree_data_blocks_update_states.states@.len();
            let (old_offsets, new_offsets) = (
                read_progress::accumulated(old_future.request_states_index_range_offsets),
                read_progress::accumulated(offsets),
            );
            &&& new_offsets.inserted_states_before_range_count + new_offsets.inserted_states_within_range_count
                + new_offsets.inserted_states_after_range_count == old_offsets.inserted_states_before_range_count
                + old_offsets.inserted_states_within_range_count + old_offsets.inserted_states_after_range_count + n
            &&& result is Ok ==> u == t && old_future.next_batch(&t) is None && offsets
                == old_future.request_states_index_range_offsets
            &&& result is Err ==> old_future.next_batch(&t) is Some
        }),
{
    match old_future.next_batch(&t) {
        None => {},
        Some((_, (_, read_from_target, _))) => {
            let (range, advanced, corrected) = choose|
                range: AuthTreeDataBlocksUpdateStatesAllocationBlocksIndexRange,
                advanced: TransactionReadMissingDataFuture,
                corrected: TransactionReadMissingDataFuture,
            |
                {
                    &&& #[trigger] advanced.advanced_past(&old_future, &t, range)
                    &&& #[trigger] corrected.ranges_corrected(
                        &advanced,
                        &t.auth_tree_data_blocks_update_states,
                        &u.auth_tree_data_blocks_update_states,
                        t.min_read_log2(),
                    )
                    &&& offsets == corrected.request_states_index_range_offsets
                    &&& result matches Err(e) && read_progress::preparation_failed(
                        &t,
                        &u,
                        range,
                        read_from_target,
                        e,
                        alloc_bitmap,
                    )
                };
            law_corrected_ranges_refer_to_same_entries(
                advanced,
                corrected,
                t.auth_tree_data_blocks_update_states,
                u.auth_tree_data_blocks_update_states,
                t.min_read_log2(),
            );
        },
    }
}

/// There's a gap in between an entry and its predecessor, in units of some block size,
/// exactly if these aren't located in the same or in successive blocks.
pub proof fn law_gaps_are_by_blocks(s: Seq<AuthTreeDataBlockUpdateState>, i: int, log2: nat)
    requires
        0 < i < s.len(),
    ensures
        states::adjoins_predecessor(s, i, log2) <==> s[i].target_allocation_blocks_begin.index as int
            / align::block_size(log2) <= s[i - 1].target_allocation_blocks_begin.index as int / align::block_size(log2)
            + 1,
{
    let size = align::block_size(log2);
    let (x, y) = (s[i - 1].target() / size, s[i].target() / size);
    align::lemma_block_size_pos(log2);
    align::lemma_blocks_align_down(s[i - 1].target(), log2);
    align::lemma_blocks_align_down(s[i].target(), log2);
    reveal(align::blocks);
    if y <= x + 1 {
        assert(y * size <= x * size + size) by (nonlinear_arith)
            requires
                y <= x + 1,
                size > 0,
        ;
    } else {
        assert(y * size > x * size + size) by (nonlinear_arith)
            requires
                y > x + 1,
                size > 0,
        ;
    }
}

} // verus!
