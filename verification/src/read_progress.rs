//! Progress of reading missing data from storage.
use crate::align;
use crate::alloc_bitmap::{AllocBitmap, SparseAllocBitmap};
use crate::fill;
use crate::fs::NvFsError;
use crate::insert;
use crate::layout::PhysicalAllocBlockIndex;
use crate::offsets;
use crate::offsets::AuthTreeDataBlocksUpdateStatesFillAlignmentGapsRangeOffsets;
use crate::read_missing_data::TransactionReadMissingDataFuture;
use crate::read_request;
use crate::read_request::TransactionReadMissingDataFutureNvChipReadRequest;
use crate::states;
use crate::states::AuthTreeDataBlocksUpdateStates;
use crate::states_index;
use crate::states_index::{
    AuthTreeDataBlocksUpdateStatesAllocationBlocksIndexRange, AuthTreeDataBlocksUpdateStatesIndexRange,
};
use crate::transaction::Transaction;
use vstd::prelude::*;

verus! {

/// The entry found at a position in one transaction is the same as that found a
/// given distance apart in another.
pub open spec fn shifted_at(t: &Transaction, u: &Transaction, distance: int, p: int) -> bool {
    let (o, f) = (t.auth_tree_data_blocks_update_states, u.auth_tree_data_blocks_update_states);
    &&& f.target_at(p + distance) == o.target_at(p)
    &&& f.block_at(p + distance) == o.block_at(p)
}

/// The entries in a range are the same as those found a given distance apart in
/// another transaction.
pub open spec fn shifted(t: &Transaction, u: &Transaction, distance: int, begin: int, end: int) -> bool {
    &&& u.same_environment(t)
    &&& forall|p: int| begin <= p < end ==> #[trigger] shifted_at(t, u, distance, p)
}

/// Runs of entries from a common block move alongside.
proof fn lemma_run_end_shifted(t: Transaction, u: Transaction, distance: int, begin: int, end: int, log2: nat)
    requires
        shifted(&t, &u, distance, begin, end),
        begin < end,
    ensures
        u.auth_tree_data_blocks_update_states.run_end(begin + distance, end + distance, log2)
            == t.auth_tree_data_blocks_update_states.run_end(begin, end, log2) + distance,
    decreases end - begin,
{
    assert(shifted_at(&t, &u, distance, begin));
    if begin + 1 < end {
        assert(shifted_at(&t, &u, distance, begin + 1));
        lemma_run_end_shifted(t, u, distance, begin + 1, end, log2);
    }
}

/// Consistency of Minimum Read Blocks is not affected by moving them.
pub proof fn lemma_consistent_shifted(t: Transaction, u: Transaction, distance: int, begin: int, end: int)
    requires
        shifted(&t, &u, distance, begin, end),
        t.read_blocks_consistent(begin, end),
    ensures
        u.read_blocks_consistent(begin + distance, end + distance),
{
    assert forall|q: int|
        begin + distance <= q < end + distance && u.starts_read_block(
            begin + distance,
            q,
        ) implies u.read_block_consistent(q, #[trigger] u.read_block_end(q, end + distance)) by {
        let p = q - distance;
        let e = t.read_block_end(p, end);
        t.auth_tree_data_blocks_update_states.lemma_run_end_bounds(p, end, t.min_read_log2());
        lemma_run_end_shifted(t, u, distance, p, end, t.min_read_log2());
        assert(shifted_at(&t, &u, distance, p));
        if p > begin {
            assert(shifted_at(&t, &u, distance, p - 1));
        }
        assert(t.starts_read_block(begin, p));
        assert(t.read_block_consistent(p, e));
        assert forall|x: int| p <= x < e implies t.info_at(x) == #[trigger] u.info_at(x + distance) by {
            assert(shifted_at(&t, &u, distance, x));
        }
        assert forall|y: int| q <= y < e + distance implies #[trigger] u.info_at(y) == t.info_at(y - distance) by {
            assert(shifted_at(&t, &u, distance, y - distance));
        }
        if t.any_uninitialized(p, e) {
            let x = choose|x: int| p <= x < e && #[trigger] t.info_at(x) is Uninitialized;
            assert(u.info_at(x + distance) is Uninitialized);
        }
        if u.any_uninitialized(q, e + distance) {
            let y = choose|y: int| q <= y < e + distance && #[trigger] u.info_at(y) is Uninitialized;
            assert(t.info_at(y - distance) is Uninitialized);
        }
    }
}

/// Location of insertions relative to existing entries.
proof fn lemma_insertions_precede(
    o: AuthTreeDataBlocksUpdateStates,
    f: AuthTreeDataBlocksUpdateStates,
    begin: int,
    end: int,
    m: nat,
    j: int,
    alloc_bitmap: &AllocBitmap,
    pending_frees: &SparseAllocBitmap,
)
    requires
        o.wf(),
        f.grown(&o, alloc_bitmap, pending_frees),
        0 <= begin < end <= j < o.states@.len(),
        forall|t: int| #[trigger] f.present(t) ==> o.present(t) || o.within_alignment(begin, end, m, t),
        align::align_down(o.states@[j].target(), m) > align::align_down(o.states@[end - 1].target(), m),
    ensures
        f.states@.len() >= o.states@.len(),
        f.states@[j + (f.states@.len() - o.states@.len())] == o.states@[j],
{
    let s = o.states@;
    fill::lemma_grown_facts(o, f, alloc_bitmap, pending_frees);
    let p = offsets::lemma_kept_position(o, f, j, alloc_bitmap, pending_frees);
    assert forall|t: int| #[trigger] f.present(t) && t > s[j].target() implies o.present(t) by {
        if !o.present(t) {
            let i = choose|i: int| begin <= i < end && align::same_block((#[trigger] s[i]).target(), t, m);
            if i < end - 1 {
                assert(s[i].target() < s[end - 1].target());
            }
            align::lemma_align_down_mono(s[i].target(), s[end - 1].target(), m);
            align::lemma_align_down_mono(s[j].target(), t, m);
        }
    }
    offsets::lemma_position_without_insertions_after(o, f, j, p);
    let last = s.len() - 1;
    let q = offsets::lemma_kept_position(o, f, last, alloc_bitmap, pending_frees);
    fill::lemma_grown_positions(o, f, j, p, last, q, alloc_bitmap, pending_frees);
    let r = offsets::lemma_kept_position(o, f, 0, alloc_bitmap, pending_frees);
    fill::lemma_grown_positions(o, f, 0, r, last, q, alloc_bitmap, pending_frees);
}

/// Entries moved at Authentication Tree Data Block level.
proof fn lemma_shifted(t: Transaction, u: Transaction, n: int, first: int, begin: int, end: int)
    requires
        u.same_environment(&t),
        t.auth_tree_data_blocks_update_states.wf(),
        n >= 0,
        0 <= first,
        first * t.auth_tree_data_blocks_update_states.block_len() <= begin,
        end <= t.auth_tree_data_blocks_update_states.blocks_count(),
        forall|j: int|
            first <= j < t.auth_tree_data_blocks_update_states.states@.len()
                ==> u.auth_tree_data_blocks_update_states.states@[j + n]
                == #[trigger] t.auth_tree_data_blocks_update_states.states@[j],
    ensures
        shifted(&t, &u, n * t.auth_tree_data_blocks_update_states.block_len(), begin, end),
{
    let (o, f) = (t.auth_tree_data_blocks_update_states, u.auth_tree_data_blocks_update_states);
    let size = o.block_len();
    align::lemma_block_size_pos(o.auth_log2());
    assert(first * size >= 0) by (nonlinear_arith)
        requires
            first >= 0,
            size >= 1,
    ;
    assert forall|p: int| begin <= p < end implies #[trigger] shifted_at(&t, &u, n * size, p) by {
        o.lemma_target_at_distance(p, p);
        vstd::arithmetic::div_mod::lemma_fundamental_div_mod(p, size);
        let (j, k) = (p / size, p % size);
        assert(j >= first) by (nonlinear_arith)
            requires
                first * size <= p,
                p == size * j + k,
                k < size,
                size >= 1,
        ;
        assert((j + n) * size + k == p + n * size) by (nonlinear_arith)
            requires
                p == size * j + k,
        ;
        vstd::arithmetic::div_mod::lemma_fundamental_div_mod_converse(p + n * size, size, j + n, k);
        assert(f.states@[j + n] == o.states@[j]);
    }
}

/// Offsets accumulated so far.
pub open spec fn accumulated(
    offsets: Option<AuthTreeDataBlocksUpdateStatesFillAlignmentGapsRangeOffsets>,
) -> AuthTreeDataBlocksUpdateStatesFillAlignmentGapsRangeOffsets {
    match offsets {
        Some(offsets) => offsets,
        None => AuthTreeDataBlocksUpdateStatesFillAlignmentGapsRangeOffsets {
            inserted_states_before_range_count: 0,
            inserted_states_within_range_count: 0,
            inserted_states_after_range_count: 0,
            max_target_allocations_blocks_alignment_log2: 0,
        },
    }
}

impl TransactionReadMissingDataFuture {
    /// The index ranges are valid, the remaining one does not end amidst of a
    /// Minimum Read Block, and all Minimum Read Blocks therein are in a
    /// consistent state.
    pub open spec fn wf(&self, transaction: &Transaction) -> bool {
        let states = transaction.auth_tree_data_blocks_update_states;
        let l = states.auth_log2();
        let request = self.request_states_allocation_blocks_index_range;
        let remaining = self.remaining_states_allocation_blocks_index_range;
        &&& transaction.wf()
        &&& states.valid_blocks_range(&request)
        &&& states.valid_blocks_range(&remaining)
        &&& request.end.position(l) <= remaining.end.position(l)
        &&& remaining.begin != remaining.end && remaining.end.position(l) < states.blocks_count() ==> align::align_down(
            states.target_at(remaining.end.position(l)),
            transaction.min_read_log2(),
        ) > align::align_down(states.target_at(remaining.end.position(l) - 1), transaction.min_read_log2())
        &&& transaction.read_blocks_consistent(remaining.begin.position(l), remaining.end.position(l))
        &&& self.request_states_index_range_offsets matches Some(offsets) ==> offsets.total() <= states.states.len()
    }

    /// The remaining range is located after the Minimum Read Blocks of a range
    /// to read.
    pub open spec fn remaining_follows(
        &self,
        transaction: &Transaction,
        range: AuthTreeDataBlocksUpdateStatesAllocationBlocksIndexRange,
    ) -> bool {
        let states = transaction.auth_tree_data_blocks_update_states;
        let l = states.auth_log2();
        let p = self.remaining_states_allocation_blocks_index_range.begin.position(l);
        &&& range.end.position(l) <= p
        &&& p < states.blocks_count() ==> align::align_down(states.target_at(p), transaction.min_read_log2())
            > align::align_down(states.target_at(range.end.position(l) - 1), transaction.min_read_log2())
    }

    /// The index ranges have been corrected to still refer to the same entries
    /// after the insertion of additional ones.
    pub open spec fn ranges_corrected(
        &self,
        old_self: &Self,
        old_states: &AuthTreeDataBlocksUpdateStates,
        new_states: &AuthTreeDataBlocksUpdateStates,
        alignment_log2: nat,
    ) -> bool {
        let (o, f) = (old_states.states@, new_states.states@);
        let n = f.len() - o.len();
        let (old_request, new_request) = (
            old_self.request_states_allocation_blocks_index_range,
            self.request_states_allocation_blocks_index_range,
        );
        let (old_remaining, new_remaining) = (
            old_self.remaining_states_allocation_blocks_index_range,
            self.remaining_states_allocation_blocks_index_range,
        );
        let c = AuthTreeDataBlocksUpdateStatesIndexRange::covering(old_request);
        let before = new_request.begin.block() - old_request.begin.block();
        let moved = new_request.end.block() - old_request.end.block();
        // The request is for the same entries.
        &&& 0 <= before <= moved <= n
        &&& new_request.begin.offset() == old_request.begin.offset()
        &&& new_request.end.offset() == old_request.end.offset()
        &&& f[c.0 + before] == o[c.0]
        &&& f[c.1 - 1 + moved] == o[c.1 - 1]
        // All insertions have been made before what's remaining.
        &&& new_remaining.begin.block() == old_remaining.begin.block() + n
        &&& new_remaining.begin.offset() == old_remaining.begin.offset()
        &&& new_remaining.end.block() == old_remaining.end.block() + n
        &&& new_remaining.end.offset() == old_remaining.end.offset()
        // The insertions are accounted for.
        &&& if n == 0 {
            self.request_states_index_range_offsets == old_self.request_states_index_range_offsets
        } else {
            let old_offsets = accumulated(old_self.request_states_index_range_offsets);
            &&& self.request_states_index_range_offsets matches Some(offsets)
            &&& offsets.inserted_states_before_range_count == old_offsets.inserted_states_before_range_count + before
            &&& offsets.inserted_states_within_range_count == old_offsets.inserted_states_within_range_count + (moved
                - before)
            &&& offsets.inserted_states_after_range_count == old_offsets.inserted_states_after_range_count + (n
                - moved)
            &&& offsets.max_target_allocations_blocks_alignment_log2 == align::coarser(
                old_offsets.max_target_allocations_blocks_alignment_log2 as nat,
                alignment_log2,
            )
        }
    }

    /// Correct the index ranges to account for insertions.
    fn account_for_insertions(
        &mut self,
        states: &AuthTreeDataBlocksUpdateStates,
        first_target: PhysicalAllocBlockIndex,
        last_target: PhysicalAllocBlockIndex,
        total: usize,
        min_read_log2: u32,
        Ghost(o): Ghost<AuthTreeDataBlocksUpdateStates>,
        Ghost(alloc_bitmap): Ghost<&AllocBitmap>,
        Ghost(pending_frees): Ghost<&SparseAllocBitmap>,
    )
        requires
            o.wf(),
            states.grown(&o, alloc_bitmap, pending_frees),
            states.states.len() == o.states@.len() + total,
            total > 0,
            ({
                let request = old(self).request_states_allocation_blocks_index_range;
                let c = AuthTreeDataBlocksUpdateStatesIndexRange::covering(request);
                &&& o.valid_blocks_range(&request)
                &&& o.valid_blocks_range(&old(self).remaining_states_allocation_blocks_index_range)
                &&& c.0 < c.1
                &&& first_target == o.states@[c.0].target_allocation_blocks_begin
                &&& last_target == o.states@[c.1 - 1].target_allocation_blocks_begin
            }),
            old(self).request_states_index_range_offsets matches Some(offsets) ==> offsets.total() <= o.states@.len(),
        ensures
            final(self).ranges_corrected(old(self), &o, states, min_read_log2 as nat),
    {
        let ghost l = o.auth_log2();
        let request = self.request_states_allocation_blocks_index_range;
        let c = AuthTreeDataBlocksUpdateStatesIndexRange::from(request);
        let ghost (cb, ce) = (c.begin.index as int, c.end.index - 1);
        proof {
            fill::lemma_grown_facts(o, *states, alloc_bitmap, pending_frees);
            assert(o.states@[cb].wf(l) && o.states@[ce].wf(l));
        }
        let first: usize = match states.lookup_auth_tree_data_block_update_state_index(first_target) {
            Ok(i) => i.index,
            Err(i) => i.index,
        };
        let last: usize = match states.lookup_auth_tree_data_block_update_state_index(last_target) {
            Ok(i) => i.index,
            Err(i) => i.index,
        };
        proof {
            let (f, s) = (*states, o.states@);
            let p = offsets::lemma_kept_position(o, f, cb, alloc_bitmap, pending_frees);
            let q = offsets::lemma_kept_position(o, f, ce, alloc_bitmap, pending_frees);
            fill::lemma_lookup_position(f.states@, l, p, first as int);
            fill::lemma_lookup_position(f.states@, l, q, last as int);
            let head = offsets::lemma_kept_position(o, f, 0, alloc_bitmap, pending_frees);
            let tail = offsets::lemma_kept_position(o, f, s.len() - 1, alloc_bitmap, pending_frees);
            fill::lemma_grown_positions(o, f, 0, head, cb, p, alloc_bitmap, pending_frees);
            fill::lemma_grown_positions(o, f, cb, p, ce, q, alloc_bitmap, pending_frees);
            fill::lemma_grown_positions(o, f, ce, q, s.len() - 1, tail, alloc_bitmap, pending_frees);
        }
        let before: usize = first - c.begin.index;
        let within: usize = last - (c.end.index - 1) - before;
        let cur_offsets = AuthTreeDataBlocksUpdateStatesFillAlignmentGapsRangeOffsets {
            inserted_states_before_range_count: before,
            inserted_states_within_range_count: within,
            inserted_states_after_range_count: total - before - within,
            max_target_allocations_blocks_alignment_log2: min_read_log2,
        };
        self.request_states_allocation_blocks_index_range = request.apply_states_insertions_offsets(before, within);
        self.request_states_index_range_offsets = match self.request_states_index_range_offsets {
            Some(prev) => Some(prev.accumulate(&cur_offsets)),
            None => Some(cur_offsets),
        };
        // Update the internally tracked index range of remaining regions to process.
        self.remaining_states_allocation_blocks_index_range =
        self.remaining_states_allocation_blocks_index_range.apply_states_insertions_offsets(total, 0);
    }

    /// Complete a region to read to Minimum Read Block boundaries.
    pub(crate) fn fill_read_region(
        &mut self,
        transaction: &mut Transaction,
        alloc_bitmap: &AllocBitmap,
        range: &AuthTreeDataBlocksUpdateStatesAllocationBlocksIndexRange,
    ) -> (r: Result<AuthTreeDataBlocksUpdateStatesAllocationBlocksIndexRange, NvFsError>)
        requires
            old(self).wf(old(transaction)),
            old(self).request_states_allocation_blocks_index_range.begin
                != old(self).request_states_allocation_blocks_index_range.end,
            old(transaction).auth_tree_data_blocks_update_states.valid_blocks_range(range),
            range.begin != range.end,
            old(self).remaining_follows(old(transaction), *range),
        ensures
            final(transaction).auth_tree_data_blocks_update_states.wf(),
            final(transaction).same_environment(old(transaction)),
            final(transaction).auth_tree_data_blocks_update_states.blocks_alignment_gaps_filled(
                &old(transaction).auth_tree_data_blocks_update_states,
                *range,
                old(transaction).min_read_log2(),
                r,
                alloc_bitmap,
                &old(transaction).pending_frees,
            ),
            r matches Ok(aligned_range)
                ==> final(transaction).auth_tree_data_blocks_update_states.valid_blocks_range(&aligned_range),
            final(self).ranges_corrected(
                old(self),
                &old(transaction).auth_tree_data_blocks_update_states,
                &final(transaction).auth_tree_data_blocks_update_states,
                old(transaction).min_read_log2(),
            ),
    {
        let ghost o = transaction.auth_tree_data_blocks_update_states;
        let ghost l = o.auth_log2();
        let ghost pending_frees = transaction.pending_frees;
        let min_read_log2: u32 = transaction.get_min_read_log2();
        let request = self.request_states_allocation_blocks_index_range;
        proof {
            align::lemma_block_size_pos(l);
        }
        let c = AuthTreeDataBlocksUpdateStatesIndexRange::from(request);
        // Before doing the fill (and invalidating the index ranges), save away some information
        // needed to fixup the original input request index range later.
        let first_target = transaction.auth_tree_data_blocks_update_states.states[c.begin.index].target_allocation_blocks_begin;
        let last_target = transaction.auth_tree_data_blocks_update_states.states[c.end.index
            - 1].target_allocation_blocks_begin;
        let (r, read_states_range_offsets) =
            transaction.auth_tree_data_blocks_update_states.fill_states_allocation_blocks_index_range_regions_alignment_gaps(
            range,
            min_read_log2,
            alloc_bitmap,
            &transaction.pending_frees,
        );
        match read_states_range_offsets {
            Some(read_states_range_offsets) => {
                // If some states had been inserted, adjust the index ranges accordingly in order to
                // account for the new offsets in the states array.
                let states = &transaction.auth_tree_data_blocks_update_states;
        assert(states.states.len() <= usize::MAX);
                let total: usize = read_states_range_offsets.total_inserted_states_count();
                self.account_for_insertions(
                    states,
                    first_target,
                    last_target,
                    total,
                    min_read_log2,
                    Ghost(o),
                    Ghost(alloc_bitmap),
                    Ghost(&pending_frees),
                );
            },
            None => (),
        }
        r
    }
}

/// A region to read has been completed to Minimum Read Block boundaries.
pub open spec fn read_region_filled(
    t: &Transaction,
    u: &Transaction,
    range: AuthTreeDataBlocksUpdateStatesAllocationBlocksIndexRange,
    r: Result<AuthTreeDataBlocksUpdateStatesAllocationBlocksIndexRange, NvFsError>,
    alloc_bitmap: &AllocBitmap,
) -> bool {
    &&& u.same_environment(t)
    &&& u.auth_tree_data_blocks_update_states.wf()
    &&& u.auth_tree_data_blocks_update_states.blocks_alignment_gaps_filled(
        &t.auth_tree_data_blocks_update_states,
        range,
        t.min_read_log2(),
        r,
        alloc_bitmap,
        &t.pending_frees,
    )
}

/// Minimum Read Blocks remain addressable.
proof fn lemma_filled_transaction_wf(
    t: Transaction,
    u: Transaction,
    range: AuthTreeDataBlocksUpdateStatesAllocationBlocksIndexRange,
    r: Result<AuthTreeDataBlocksUpdateStatesAllocationBlocksIndexRange, NvFsError>,
    alloc_bitmap: &AllocBitmap,
)
    requires
        t.wf(),
        t.auth_tree_data_blocks_update_states.valid_blocks_range(&range),
        read_region_filled(&t, &u, range, r, alloc_bitmap),
    ensures
        u.wf(),
{
    let (o, f) = (t.auth_tree_data_blocks_update_states, u.auth_tree_data_blocks_update_states);
    let m = t.min_read_log2();
    assert forall|i: int| 0 <= i < f.states@.len() implies align::align_down((#[trigger] f.states@[i]).target(), m)
        + align::block_size(m) <= u64::MAX by {
        let x = f.states@[i].target();
        if m >= o.auth_log2() {
            let c = fill::covering_range(range);
            assert(f.present(x));
            if o.present(x) {
                let j = choose|j: int| 0 <= j < o.states@.len() && (#[trigger] o.states@[j]).target() == x;
                assert(o.states@[j].target() == x);
            } else {
                let j = choose|j: int|
                    c.begin.index <= j < c.end.index && align::same_block((#[trigger] o.states@[j]).target(), x, m);
                assert(align::same_block(o.states@[j].target(), x, m));
            }
        } else {
            assert(f.states@[i] == o.states@[i]);
        }
    }
}

/// Entries not yet processed are only moved.
proof fn lemma_remaining_shifted(
    t: Transaction,
    u: Transaction,
    future: TransactionReadMissingDataFuture,
    range: AuthTreeDataBlocksUpdateStatesAllocationBlocksIndexRange,
    r: Result<AuthTreeDataBlocksUpdateStatesAllocationBlocksIndexRange, NvFsError>,
    alloc_bitmap: &AllocBitmap,
)
    requires
        t.wf(),
        t.auth_tree_data_blocks_update_states.valid_blocks_range(&range),
        t.auth_tree_data_blocks_update_states.valid_blocks_range(
            &future.remaining_states_allocation_blocks_index_range,
        ),
        range.begin != range.end,
        future.remaining_follows(&t, range),
        read_region_filled(&t, &u, range, r, alloc_bitmap),
    ensures
        ({
            let (o, f) = (t.auth_tree_data_blocks_update_states, u.auth_tree_data_blocks_update_states);
            let n = f.states@.len() - o.states@.len();
            let remaining = future.remaining_states_allocation_blocks_index_range;
            &&& n >= 0
            &&& shifted(&t, &u, n * o.block_len(), remaining.begin.position(o.auth_log2()), o.blocks_count())
            &&& forall|j: int|
                remaining.begin.block() <= j < o.states@.len() ==> f.states@[j + n] == #[trigger] o.states@[j]
        }),
{
    let (o, f) = (t.auth_tree_data_blocks_update_states, u.auth_tree_data_blocks_update_states);
    let n = f.states@.len() - o.states@.len();
    let (l, m, size) = (o.auth_log2(), t.min_read_log2(), o.block_len());
    let remaining = future.remaining_states_allocation_blocks_index_range;
    let first = remaining.begin.block();
    let p = remaining.begin.position(l);
    let c = fill::covering_range(range);
    align::lemma_block_size_pos(l);
    states_index::lemma_position_injective(range.begin, range.end, l);
    o.lemma_position(remaining.begin);
    o.lemma_valid_range_positions(range);
    o.lemma_valid_range_positions(remaining);
    let last = range.end.position(l) - 1;
    o.lemma_target_at_distance(last, last);
    let (cb, ce) = (c.begin.index as int, c.end.index as int);
    assert(last / size == ce - 1 && cb < ce <= o.states@.len()) by {
        o.lemma_position(range.end);
        if range.end.offset() == 0 {
            let b = range.end.block();
            assert(b * size - 1 == (b - 1) * size + (size - 1)) by (nonlinear_arith);
            vstd::arithmetic::div_mod::lemma_fundamental_div_mod_converse(last, size, b - 1, size - 1);
        } else {
            vstd::arithmetic::div_mod::lemma_fundamental_div_mod_converse(
                last,
                size,
                range.end.block(),
                range.end.offset() - 1,
            );
        }
    }
    if m >= l {
        fill::lemma_grown_facts(o, f, alloc_bitmap, &t.pending_frees);
        assert forall|j: int| first <= j < o.states@.len() implies f.states@[j + n] == #[trigger] o.states@[j] by {
            // The entry is from a later Minimum Read Block.
            o.lemma_target_at_distance(p, p);
            assert(o.states@[first].wf(l) && o.states@[ce - 1].wf(l));
            align::lemma_align_down_unique(o.target_at(p), o.states@[first].target(), l);
            align::lemma_align_down_unique(o.target_at(last), o.states@[ce - 1].target(), l);
            align::lemma_same_block_coarser(o.target_at(p), o.states@[first].target(), l, m);
            align::lemma_same_block_coarser(o.target_at(last), o.states@[ce - 1].target(), l, m);
            if first < j {
                assert(o.states@[first].target() < o.states@[j].target());
            }
            align::lemma_align_down_mono(o.states@[first].target(), o.states@[j].target(), m);
            if j < ce {
                if j < ce - 1 {
                    assert(o.states@[j].target() < o.states@[ce - 1].target());
                }
                align::lemma_align_down_mono(o.states@[j].target(), o.states@[ce - 1].target(), m);
            }
            lemma_insertions_precede(o, f, cb, ce, m, j, alloc_bitmap, &t.pending_frees);
        }
        // Nothing gets lost.
        let head = offsets::lemma_kept_position(o, f, 0, alloc_bitmap, &t.pending_frees);
        let tail = offsets::lemma_kept_position(o, f, o.states@.len() - 1, alloc_bitmap, &t.pending_frees);
        fill::lemma_grown_positions(o, f, 0, head, o.states@.len() - 1, tail, alloc_bitmap, &t.pending_frees);
    }
    lemma_shifted(t, u, n, first, p, o.blocks_count());
}

/// A future remains in a valid state upon completing a region to read.
proof fn lemma_filled_wf(
    t: Transaction,
    u: Transaction,
    old_future: TransactionReadMissingDataFuture,
    new_future: TransactionReadMissingDataFuture,
    range: AuthTreeDataBlocksUpdateStatesAllocationBlocksIndexRange,
    r: Result<AuthTreeDataBlocksUpdateStatesAllocationBlocksIndexRange, NvFsError>,
    alloc_bitmap: &AllocBitmap,
)
    requires
        old_future.wf(&t),
        t.auth_tree_data_blocks_update_states.valid_blocks_range(&range),
        range.begin != range.end,
        old_future.remaining_follows(&t, range),
        read_region_filled(&t, &u, range, r, alloc_bitmap),
        new_future.ranges_corrected(
            &old_future,
            &t.auth_tree_data_blocks_update_states,
            &u.auth_tree_data_blocks_update_states,
            t.min_read_log2(),
        ),
    ensures
        new_future.wf(&u),
{
    let (o, f) = (t.auth_tree_data_blocks_update_states, u.auth_tree_data_blocks_update_states);
    let n = f.states@.len() - o.states@.len();
    let (l, m, size) = (o.auth_log2(), t.min_read_log2(), o.block_len());
    assert(f.states.len() <= usize::MAX);
    lemma_filled_transaction_wf(t, u, range, r, alloc_bitmap);
    lemma_remaining_shifted(t, u, old_future, range, r, alloc_bitmap);
    let (old_request, new_request) = (
        old_future.request_states_allocation_blocks_index_range,
        new_future.request_states_allocation_blocks_index_range,
    );
    let (old_remaining, new_remaining) = (
        old_future.remaining_states_allocation_blocks_index_range,
        new_future.remaining_states_allocation_blocks_index_range,
    );
    align::lemma_block_size_pos(l);
    let (b, e) = (old_remaining.begin.position(l), old_remaining.end.position(l));
    let d = n * size;
    let (rb, re) = (old_remaining.begin.block(), old_remaining.end.block());
    assert((rb + n) * size == rb * size + d && (re + n) * size == re * size + d) by (nonlinear_arith)
        requires
            d == n * size,
    ;
    o.lemma_valid_range_positions(old_remaining);
    o.lemma_valid_range_positions(old_request);
    let len = o.states@.len() as int;
    assert((len + n) * size == len * size + d) by (nonlinear_arith)
        requires
            d == n * size,
    ;
    // Request range.
    let moved = new_request.end.block() - old_request.end.block();
    let qe = old_request.end.block();
    assert((qe + moved) * size <= qe * size + d) by (nonlinear_arith)
        requires
            d == n * size,
            moved <= n,
            size >= 1,
    ;
    // Remaining range.
    states_index::lemma_position_injective(old_remaining.begin, old_remaining.end, l);
    states_index::lemma_position_injective(new_remaining.begin, new_remaining.end, l);
    if b < e && e < o.blocks_count() {
        assert(shifted_at(&t, &u, d, e));
        assert(shifted_at(&t, &u, d, e - 1));
    }
    lemma_consistent_shifted(t, u, d, b, e);
}

impl TransactionReadMissingDataFuture {
    /// Any requested data missing is either within the region currently being
    /// read or the part of the range not processed yet.
    pub open spec fn missing_confined(&self, transaction: &Transaction, pending: (int, int)) -> bool {
        let l = transaction.auth_tree_data_blocks_update_states.auth_log2();
        let request = self.request_states_allocation_blocks_index_range;
        let remaining = self.remaining_states_allocation_blocks_index_range;
        forall|p: int|
            request.begin.position(l) <= p < request.end.position(l) && #[trigger] transaction.info_at(
                p,
            ) is NeedsDataRead ==> pending.0 <= p < pending.1 || remaining.begin.position(l) <= p
                < remaining.end.position(l)
    }
}

/// The Authentication Tree Data Block level entry containing the last
/// Allocation Block in a range.
proof fn lemma_range_end_block(
    o: AuthTreeDataBlocksUpdateStates,
    range: AuthTreeDataBlocksUpdateStatesAllocationBlocksIndexRange,
)
    requires
        o.wf(),
        o.valid_blocks_range(&range),
        range.begin != range.end,
    ensures
        ({
            let l = o.auth_log2();
            let c = fill::covering_range(range);
            &&& c.begin.index < c.end.index <= o.states@.len()
            &&& c.begin.index == range.begin.block()
            &&& range.begin.position(l) < range.end.position(l) <= o.blocks_count()
            &&& c.begin.index * o.block_len() <= range.begin.position(l)
            &&& range.begin.position(l) < (c.begin.index + 1) * o.block_len()
            &&& (c.end.index - 1) * o.block_len() < range.end.position(l) <= c.end.index * o.block_len()
        }),
{
    let l = o.auth_log2();
    let size = o.block_len();
    align::lemma_block_size_pos(l);
    states_index::lemma_position_injective(range.begin, range.end, l);
    o.lemma_valid_range_positions(range);
    let (b, e) = (range.begin.block(), range.end.block());
    assert((b + 1) * size == b * size + size) by (nonlinear_arith);
    assert((e + 1) * size == e * size + size) by (nonlinear_arith);
    assert((e - 1) * size == e * size - size) by (nonlinear_arith);
}

/// Entries in a contiguous sequence of Minimum Read Blocks.
proof fn lemma_contiguous_entries(
    t: Transaction,
    range: AuthTreeDataBlocksUpdateStatesAllocationBlocksIndexRange,
    i: int,
)
    requires
        t.wf(),
        t.auth_tree_data_blocks_update_states.valid_blocks_range(&range),
        range.begin != range.end,
        ({
            let l = t.auth_tree_data_blocks_update_states.auth_log2();
            t.read_blocks_contiguous(range.begin.position(l), range.end.position(l))
        }),
        fill::covering_range(range).begin.index <= i,
        i + 1 < fill::covering_range(range).end.index,
    ensures
        ({
            let o = t.auth_tree_data_blocks_update_states;
            let (l, m) = (o.auth_log2(), t.min_read_log2());
            let (x, y) = (o.states@[i].target(), o.states@[i + 1].target());
            if m >= l {
                align::align_down(y, m) <= align::align_down(x, m) + align::block_size(m)
            } else {
                y == x + o.block_len()
            }
        }),
{
    let o = t.auth_tree_data_blocks_update_states;
    let (l, m, size) = (o.auth_log2(), t.min_read_log2(), o.block_len());
    let c = fill::covering_range(range);
    let (cb, ce) = (c.begin.index as int, c.end.index as int);
    lemma_range_end_block(o, range);
    align::lemma_block_size_pos(l);
    let p = (i + 1) * size;
    assert((cb + 1) * size <= p <= (ce - 1) * size && p - 1 == i * size + (size - 1)) by (nonlinear_arith)
        requires
            p == (i + 1) * size,
            cb <= i,
            i + 1 <= ce - 1,
            size >= 1,
    ;
    assert(t.successive(p - 1));
    vstd::arithmetic::div_mod::lemma_fundamental_div_mod_converse(p, size, i + 1, 0);
    vstd::arithmetic::div_mod::lemma_fundamental_div_mod_converse(p - 1, size, i, size - 1);
    let (x, y) = (o.states@[i].target(), o.states@[i + 1].target());
    assert(o.states@[i].wf(l) && o.states@[i + 1].wf(l));
    assert(o.target_at(p) == y && o.target_at(p - 1) == x + size - 1);
    if m >= l {
        align::lemma_align_down_unique(x + size - 1, x, l);
        align::lemma_same_block_coarser(x + size - 1, x, l, m);
    } else {
        align::lemma_aligned_finer(x, m, l);
        align::lemma_aligned_finer(y, m, l);
        align::lemma_block_size_split(m, l);
        align::lemma_aligned_sum(x, size, m);
        align::lemma_aligned_next(x + size, m);
        align::lemma_block_size_pos(m);
        align::lemma_align_down_unique(x + size - 1, x + size - align::block_size(m), m);
        align::lemma_aligned_gap(x, y, l);
    }
}

/// All of a contiguous sequence of Minimum Read Blocks is within alignment.
proof fn lemma_contiguous_within_alignment(
    t: Transaction,
    range: AuthTreeDataBlocksUpdateStatesAllocationBlocksIndexRange,
    i: int,
    x: int,
)
    requires
        t.wf(),
        t.auth_tree_data_blocks_update_states.valid_blocks_range(&range),
        range.begin != range.end,
        t.min_read_log2() >= t.auth_tree_data_blocks_update_states.auth_log2(),
        ({
            let l = t.auth_tree_data_blocks_update_states.auth_log2();
            t.read_blocks_contiguous(range.begin.position(l), range.end.position(l))
        }),
        fill::covering_range(range).begin.index <= i < fill::covering_range(range).end.index,
        ({
            let o = t.auth_tree_data_blocks_update_states;
            let (l, m) = (o.auth_log2(), t.min_read_log2());
            let first = o.states@[fill::covering_range(range).begin.index as int].target();
            &&& align::aligned(x, l)
            &&& align::align_down(first, m) <= x < align::align_down(o.states@[i].target(), m) + align::block_size(m)
        }),
    ensures
        ({
            let o = t.auth_tree_data_blocks_update_states;
            let c = fill::covering_range(range);
            o.within_alignment(c.begin.index as int, c.end.index as int, t.min_read_log2(), x)
        }),
    decreases i,
{
    let o = t.auth_tree_data_blocks_update_states;
    let m = t.min_read_log2();
    let c = fill::covering_range(range);
    let cb = c.begin.index as int;
    lemma_range_end_block(o, range);
    let cur = align::align_down(o.states@[i].target(), m);
    align::lemma_align_down_bounds(o.states@[i].target(), m);
    if x >= cur {
        align::lemma_align_down_unique(x, cur, m);
        assert(align::same_block(o.states@[i].target(), x, m));
    } else {
        if i == cb {
        } else {
            lemma_contiguous_entries(t, range, i - 1);
            lemma_contiguous_within_alignment(t, range, i - 1, x);
        }
    }
}

/// Entries at successive target locations.
proof fn lemma_contiguous_run(
    t: Transaction,
    range: AuthTreeDataBlocksUpdateStatesAllocationBlocksIndexRange,
    i: int,
)
    requires
        t.wf(),
        t.auth_tree_data_blocks_update_states.valid_blocks_range(&range),
        range.begin != range.end,
        t.min_read_log2() < t.auth_tree_data_blocks_update_states.auth_log2(),
        ({
            let l = t.auth_tree_data_blocks_update_states.auth_log2();
            t.read_blocks_contiguous(range.begin.position(l), range.end.position(l))
        }),
        fill::covering_range(range).begin.index <= i < fill::covering_range(range).end.index,
    ensures
        ({
            let o = t.auth_tree_data_blocks_update_states;
            let cb = fill::covering_range(range).begin.index as int;
            o.states@[i].target() == o.states@[cb].target() + (i - cb) * o.block_len()
        }),
    decreases i,
{
    let o = t.auth_tree_data_blocks_update_states;
    let size = o.block_len();
    let cb = fill::covering_range(range).begin.index as int;
    if i == cb {
        assert(0 * size == 0) by (nonlinear_arith);
    } else {
        lemma_contiguous_entries(t, range, i - 1);
        lemma_contiguous_run(t, range, i - 1);
        let k = i - cb;
        assert(k * size == (k - 1) * size + size) by (nonlinear_arith);
    }
}

/// A region completed to Minimum Read Block boundaries is contiguous.
proof fn lemma_filled_contiguous(
    t: Transaction,
    u: Transaction,
    range: AuthTreeDataBlocksUpdateStatesAllocationBlocksIndexRange,
    aligned_range: AuthTreeDataBlocksUpdateStatesAllocationBlocksIndexRange,
    alloc_bitmap: &AllocBitmap,
)
    requires
        t.wf(),
        t.auth_tree_data_blocks_update_states.valid_blocks_range(&range),
        range.begin != range.end,
        ({
            let l = t.auth_tree_data_blocks_update_states.auth_log2();
            t.read_blocks_contiguous(range.begin.position(l), range.end.position(l))
        }),
        read_region_filled(&t, &u, range, Ok(aligned_range), alloc_bitmap),
        u.auth_tree_data_blocks_update_states.valid_blocks_range(&aligned_range),
    ensures
        ({
            let f = u.auth_tree_data_blocks_update_states;
            let c = AuthTreeDataBlocksUpdateStatesIndexRange::covering(aligned_range);
            &&& aligned_range.begin != aligned_range.end
            &&& states::contiguous(f.states@, f.auth_log2(), c.0, c.1)
        }),
{
    let (o, f) = (t.auth_tree_data_blocks_update_states, u.auth_tree_data_blocks_update_states);
    let (l, m, size) = (o.auth_log2(), t.min_read_log2(), o.block_len());
    let c = fill::covering_range(range);
    let (cb, ce) = (c.begin.index as int, c.end.index as int);
    lemma_range_end_block(o, range);
    align::lemma_block_size_pos(l);
    if m >= l {
        let (ab, ae) = (aligned_range.begin.block(), aligned_range.end.block());
        let (first, last) = (o.states@[cb].target(), o.states@[ce - 1].target());
        let begin = align::align_down(first, m);
        let end = align::align_down(last, m) + align::block_size(m);
        align::lemma_align_down_bounds(first, m);
        align::lemma_align_down_bounds(last, m);
        align::lemma_aligned_next(align::align_down(last, m), m);
        align::lemma_aligned_finer(begin, l, m);
        align::lemma_aligned_finer(end, l, m);
        if cb < ce - 1 {
            assert(first < last);
        }
        align::lemma_align_down_mono(first, last, m);
        assert forall|x: int| begin <= x < end && align::aligned(x, l) implies #[trigger] f.present(x) by {
            lemma_contiguous_within_alignment(t, range, ce - 1, x);
        }
        insert::lemma_present_populated(f, begin, end, ab);
        let n = align::blocks(end - begin, l);
        align::lemma_aligned_sum(end, begin, l);
        align::lemma_aligned_is_multiple(end - begin, l);
        // The range does not extend past what's been populated.
        assert(ab < ae) by {
            assert(o.states@[cb].wf(l));
            assert(f.present(first));
            let k = choose|k: int| 0 <= k < f.states@.len() && (#[trigger] f.states@[k]).target() == first;
            if k < ab {
                assert(f.states@[k].target() < begin);
            }
            if k >= ae {
                assert(f.states@[k].target() >= end);
            }
        }
        assert(ae <= ab + n) by {
            assert(n >= 1) by (nonlinear_arith)
                requires
                    n * size > 0,
                    size >= 1,
            ;
            if ae > ab + n {
                let (y, z) = (f.states@[ab + n - 1], f.states@[ab + n]);
                assert(y.target() == begin + (ab + n - 1 - ab) * size);
                assert((n - 1) * size == n * size - size) by (nonlinear_arith);
                assert(y.target() < z.target() && z.target() < end);
                assert(y.wf(l) && z.wf(l));
                align::lemma_aligned_gap(y.target(), z.target(), l);
            }
        }
        assert forall|i: int| ab <= i < ae implies (#[trigger] f.states@[i]).target() == f.states@[ab].target() + (i - ab)
            * size by {
            assert(f.states@[ab].target() == begin + (ab - ab) * size);
            assert(0 * size == 0) by (nonlinear_arith);
        }
    } else {
        let a = AuthTreeDataBlocksUpdateStatesIndexRange::covering(aligned_range);
        let (e, ea) = (range.end.position(l), aligned_range.end.position(l));
        align::lemma_block_size_pos(m);
        states_index::lemma_position_injective(aligned_range.begin, aligned_range.end, l);
        states_index::lemma_position_injective(aligned_range.begin, range.begin, l);
        align::lemma_align_down_bounds(range.begin.offset(), m);
        // Extension within the alignment does not cross any Authentication Tree Data Block
        // boundary.
        assert(a.1 <= ce) by {
            if a.1 > ce {
                let (eb, eo) = (aligned_range.end.block(), aligned_range.end.offset());
                if eo > 0 {
                    align::lemma_aligned_unit(m);
                    align::lemma_aligned_gap(0, eo, m);
                    assert(eb * size >= ce * size) by (nonlinear_arith)
                        requires
                            eb >= ce,
                            size >= 1,
                    ;
                } else {
                    align::lemma_block_size_split(m, l);
                    assert(eb * size >= ce * size + size) by (nonlinear_arith)
                        requires
                            eb >= ce + 1,
                            size >= 1,
                    ;
                }
            }
        }
        assert forall|i: int| a.0 <= i < a.1 implies (#[trigger] f.states@[i]).target() == f.states@[a.0].target() + (i
            - a.0) * size by {
            lemma_contiguous_run(t, range, i);
        }
    }
}

/// Any requested data missing is within the completed region or what's
/// remaining.
proof fn lemma_filled_confined(
    t: Transaction,
    u: Transaction,
    old_future: TransactionReadMissingDataFuture,
    new_future: TransactionReadMissingDataFuture,
    range: AuthTreeDataBlocksUpdateStatesAllocationBlocksIndexRange,
    aligned_range: AuthTreeDataBlocksUpdateStatesAllocationBlocksIndexRange,
    alloc_bitmap: &AllocBitmap,
)
    requires
        old_future.wf(&t),
        new_future.wf(&u),
        old_future.request_states_allocation_blocks_index_range.begin
            != old_future.request_states_allocation_blocks_index_range.end,
        t.auth_tree_data_blocks_update_states.valid_blocks_range(&range),
        range.begin != range.end,
        old_future.remaining_follows(&t, range),
        read_region_filled(&t, &u, range, Ok(aligned_range), alloc_bitmap),
        u.auth_tree_data_blocks_update_states.valid_blocks_range(&aligned_range),
        new_future.ranges_corrected(
            &old_future,
            &t.auth_tree_data_blocks_update_states,
            &u.auth_tree_data_blocks_update_states,
            t.min_read_log2(),
        ),
        ({
            let l = t.auth_tree_data_blocks_update_states.auth_log2();
            old_future.missing_confined(&t, (range.begin.position(l), range.end.position(l)))
        }),
    ensures
        ({
            let l = t.auth_tree_data_blocks_update_states.auth_log2();
            new_future.missing_confined(&u, (aligned_range.begin.position(l), aligned_range.end.position(l)))
        }),
{
    let (o, f) = (t.auth_tree_data_blocks_update_states, u.auth_tree_data_blocks_update_states);
    let (l, m, size) = (o.auth_log2(), t.min_read_log2(), o.block_len());
    let n = f.states@.len() - o.states@.len();
    let request = new_future.request_states_allocation_blocks_index_range;
    f.lemma_valid_range_positions(request);
    align::lemma_block_size_pos(l);
    assert forall|p: int|
        request.begin.position(l) <= p < request.end.position(l) && #[trigger] u.info_at(
            p,
        ) is NeedsDataRead implies aligned_range.begin.position(l) <= p < aligned_range.end.position(l)
        || new_future.remaining_states_allocation_blocks_index_range.begin.position(l) <= p
        < new_future.remaining_states_allocation_blocks_index_range.end.position(l) by {
        if m >= l {
            lemma_filled_confined_at(t, u, old_future, new_future, range, aligned_range, alloc_bitmap, p);
        } else {
            assert(u.info_at(p) == t.info_at(p));
            assert(0 * size == 0) by (nonlinear_arith);
            lemma_range_end_block(o, range);
            align::lemma_align_down_bounds(range.begin.offset(), m);
        }
    }
}

proof fn lemma_filled_confined_at(
    t: Transaction,
    u: Transaction,
    old_future: TransactionReadMissingDataFuture,
    new_future: TransactionReadMissingDataFuture,
    range: AuthTreeDataBlocksUpdateStatesAllocationBlocksIndexRange,
    aligned_range: AuthTreeDataBlocksUpdateStatesAllocationBlocksIndexRange,
    alloc_bitmap: &AllocBitmap,
    p: int,
)
    requires
        old_future.wf(&t),
        new_future.wf(&u),
        old_future.request_states_allocation_blocks_index_range.begin
            != old_future.request_states_allocation_blocks_index_range.end,
        t.auth_tree_data_blocks_update_states.valid_blocks_range(&range),
        range.begin != range.end,
        old_future.remaining_follows(&t, range),
        read_region_filled(&t, &u, range, Ok(aligned_range), alloc_bitmap),
        u.auth_tree_data_blocks_update_states.valid_blocks_range(&aligned_range),
        t.min_read_log2() >= t.auth_tree_data_blocks_update_states.auth_log2(),
        new_future.ranges_corrected(
            &old_future,
            &t.auth_tree_data_blocks_update_states,
            &u.auth_tree_data_blocks_update_states,
            t.min_read_log2(),
        ),
        ({
            let l = t.auth_tree_data_blocks_update_states.auth_log2();
            let request = new_future.request_states_allocation_blocks_index_range;
            &&& old_future.missing_confined(&t, (range.begin.position(l), range.end.position(l)))
            &&& request.begin.position(l) <= p < request.end.position(l)
            &&& u.info_at(p) is NeedsDataRead
        }),
    ensures
        ({
            let l = t.auth_tree_data_blocks_update_states.auth_log2();
            let remaining = new_future.remaining_states_allocation_blocks_index_range;
            ||| aligned_range.begin.position(l) <= p < aligned_range.end.position(l)
            ||| remaining.begin.position(l) <= p < remaining.end.position(l)
        }),
{
    let (o, f) = (t.auth_tree_data_blocks_update_states, u.auth_tree_data_blocks_update_states);
    let (l, m, size) = (o.auth_log2(), t.min_read_log2(), o.block_len());
    let n = f.states@.len() - o.states@.len();
    let (old_request, request) = (
        old_future.request_states_allocation_blocks_index_range,
        new_future.request_states_allocation_blocks_index_range,
    );
    let c = fill::covering_range(range);
    let (cb, ce) = (c.begin.index as int, c.end.index as int);
    lemma_range_end_block(o, range);
    align::lemma_block_size_pos(l);
    f.lemma_valid_range_positions(request);
    f.lemma_target_at_distance(p, p);
    vstd::arithmetic::div_mod::lemma_fundamental_div_mod(p, size);
    let (j, k) = (p / size, p % size);
    assert(size * j == j * size) by (nonlinear_arith);
    let x = f.states@[j].target();
    assert(f.present(x));
    let (first, last) = (o.states@[cb].target(), o.states@[ce - 1].target());
    align::lemma_align_down_bounds(first, m);
    align::lemma_align_down_bounds(last, m);
    let (ab, ae) = (aligned_range.begin.block(), aligned_range.end.block());
    if align::align_down(first, m) <= x < align::align_down(last, m) + align::block_size(m) {
        // In the completed region.
        if j < ab {
            assert(f.states@[j].target() < align::align_down(first, m));
        }
        if j >= ae {
            assert(f.states@[j].target() >= align::align_down(last, m) + align::block_size(m));
        }
        assert(ab * size <= j * size && j * size + size <= ae * size) by (nonlinear_arith)
            requires
                ab <= j,
                j + 1 <= ae,
                size >= 1,
        ;
    } else {
        // Not newly inserted.
        if !o.present(x) {
            fill::lemma_within_region(o, m, cb, ce, x);
        }
        let i = choose|i: int| 0 <= i < o.states@.len() && (#[trigger] o.states@[i]).target() == x;
        fill::law_insertion_retains_entries(o, f, alloc_bitmap, &t.pending_frees, i, j);
        let q = i * size + k;
        vstd::arithmetic::div_mod::lemma_fundamental_div_mod_converse(q, size, i, k);
        assert(t.info_at(q) == u.info_at(p));
        // It had been part of the request before.
        let rc = AuthTreeDataBlocksUpdateStatesIndexRange::covering(old_request);
        lemma_range_end_block(o, old_request);
        lemma_range_end_block(f, request);
        let before = request.begin.block() - old_request.begin.block();
        let moved = request.end.block() - old_request.end.block();
        let (fb, fe) = (rc.0 + before, rc.1 - 1 + moved);
        states_index::lemma_position_injective(request.begin, request.end, l);
        assert(fb <= j <= fe) by (nonlinear_arith)
            requires
                fb * size <= request.begin.position(l),
                request.begin.position(l) <= p,
                p == j * size + k,
                p < request.end.position(l),
                request.end.position(l) <= (fe + 1) * size,
                0 <= k < size,
                size >= 1,
        ;
        assert(rc.0 <= i < rc.1) by {
            if i < rc.0 {
                assert(o.states@[i].target() < o.states@[rc.0].target());
                if fb < j {
                    assert(f.states@[fb].target() < f.states@[j].target());
                }
            }
            if i >= rc.1 {
                assert(o.states@[rc.1 - 1].target() < o.states@[i].target());
                if j < fe {
                    assert(f.states@[j].target() < f.states@[fe].target());
                }
            }
        }
        assert(old_request.begin.position(l) <= q < old_request.end.position(l)) by {
            lemma_request_position(o, f, old_request, before, moved, request, i, j, k);
        }
        let remaining = old_future.remaining_states_allocation_blocks_index_range;
        if range.begin.position(l) <= q < range.end.position(l) {
            // The region has been completed, contradiction.
            assert(cb <= i < ce) by (nonlinear_arith)
                requires
                    cb * size <= range.begin.position(l),
                    range.begin.position(l) <= q,
                    q == i * size + k,
                    q < range.end.position(l),
                    range.end.position(l) <= ce * size,
                    0 <= k < size,
                    size >= 1,
            ;
            if cb < i {
                assert(o.states@[cb].target() < o.states@[i].target());
            }
            if i < ce - 1 {
                assert(o.states@[i].target() < o.states@[ce - 1].target());
            }
        } else {
            lemma_remaining_shifted(t, u, old_future, range, Ok(aligned_range), alloc_bitmap);
            o.lemma_valid_range_positions(remaining);
            let rb = remaining.begin.block();
            let re = remaining.end.block();
            assert(rb <= i) by (nonlinear_arith)
                requires
                    rb * size <= remaining.begin.position(l),
                    remaining.begin.position(l) <= q,
                    q == i * size + k,
                    k < size,
                    size >= 1,
            ;
            assert(f.states@[i + n] == o.states@[i]);
            if j < i + n {
                assert(f.states@[j].target() < f.states@[i + n].target());
            }
            if i + n < j {
                assert(f.states@[i + n].target() < f.states@[j].target());
            }
            assert(p == q + n * size) by (nonlinear_arith)
                requires
                    p == j * size + k,
                    q == i * size + k,
                    j == i + n,
            ;
            assert((rb + n) * size == rb * size + n * size) by (nonlinear_arith);
            assert((re + n) * size == re * size + n * size) by (nonlinear_arith);
        }
    }
}

/// Position of a requested entry before insertions.
proof fn lemma_request_position(
    o: AuthTreeDataBlocksUpdateStates,
    f: AuthTreeDataBlocksUpdateStates,
    old_request: AuthTreeDataBlocksUpdateStatesAllocationBlocksIndexRange,
    before: int,
    moved: int,
    request: AuthTreeDataBlocksUpdateStatesAllocationBlocksIndexRange,
    i: int,
    j: int,
    k: int,
)
    requires
        o.wf(),
        f.wf(),
        f.same_layout(&o),
        o.valid_blocks_range(&old_request),
        f.valid_blocks_range(&request),
        request.begin.block() == old_request.begin.block() + before,
        request.begin.offset() == old_request.begin.offset(),
        request.end.block() == old_request.end.block() + moved,
        request.end.offset() == old_request.end.offset(),
        ({
            let rc = AuthTreeDataBlocksUpdateStatesIndexRange::covering(old_request);
            let l = o.auth_log2();
            &&& 0 <= rc.0 <= i < rc.1 <= o.states@.len()
            &&& 0 <= rc.0 + before < f.states@.len()
            &&& 0 <= rc.1 - 1 + moved < f.states@.len()
            &&& f.states@[rc.0 + before] == o.states@[rc.0]
            &&& f.states@[rc.1 - 1 + moved] == o.states@[rc.1 - 1]
            &&& request.begin.position(l) <= j * o.block_len() + k < request.end.position(l)
        }),
        0 <= j < f.states@.len(),
        0 <= k < o.block_len(),
        f.states@[j] == o.states@[i],
    ensures
        old_request.begin.position(o.auth_log2()) <= i * o.block_len() + k < old_request.end.position(o.auth_log2()),
{
    let (l, size) = (o.auth_log2(), o.block_len());
    let rc = AuthTreeDataBlocksUpdateStatesIndexRange::covering(old_request);
    let (fb, fe) = (rc.0 + before, rc.1 - 1 + moved);
    align::lemma_block_size_pos(l);
    let (b, e) = (old_request.begin.block(), old_request.end.block());
    if i == rc.0 {
        if j < fb {
            assert(f.states@[j].target() < f.states@[fb].target());
        }
        if fb < j {
            assert(f.states@[fb].target() < f.states@[j].target());
        }
    } else {
        assert(b * size + size <= i * size) by (nonlinear_arith)
            requires
                b + 1 <= i,
                size >= 1,
        ;
    }
    if old_request.end.offset() == 0 {
        assert(i * size + size <= e * size) by (nonlinear_arith)
            requires
                i + 1 <= e,
                size >= 1,
        ;
    } else if i == rc.1 - 1 {
        if j < fe {
            assert(f.states@[j].target() < f.states@[fe].target());
        }
        if fe < j {
            assert(f.states@[fe].target() < f.states@[j].target());
        }
    } else {
        assert(i * size + size <= e * size) by (nonlinear_arith)
            requires
                i + 1 <= e,
                size >= 1,
        ;
    }
}

/// A range's bounds are extended to Minimum Read Block boundaries.
proof fn lemma_extended_bounds(
    t: Transaction,
    range: AuthTreeDataBlocksUpdateStatesAllocationBlocksIndexRange,
    r: AuthTreeDataBlocksUpdateStatesAllocationBlocksIndexRange,
)
    requires
        t.wf(),
        t.auth_tree_data_blocks_update_states.valid_blocks_range(&range),
        t.auth_tree_data_blocks_update_states.valid_blocks_range(&r),
        t.auth_tree_data_blocks_update_states.extended_blocks_range(range, t.min_read_log2(), r),
    ensures
        ({
            let o = t.auth_tree_data_blocks_update_states;
            let (l, m) = (o.auth_log2(), t.min_read_log2());
            let (b, e) = (r.begin.position(l), r.end.position(l));
            &&& 0 <= b <= range.begin.position(l) <= range.end.position(l) <= e <= o.blocks_count()
            &&& b < e ==> t.starts_read_block(0, b)
            &&& b < e && e < o.blocks_count() ==> align::align_down(o.target_at(e), m) > align::align_down(
                o.target_at(e - 1),
                m,
            )
        }),
{
    let o = t.auth_tree_data_blocks_update_states;
    let (l, m, size) = (o.auth_log2(), t.min_read_log2(), o.block_len());
    let s = o.states@;
    let (b, e) = (r.begin.position(l), r.end.position(l));
    let (rb, re) = (r.begin.block(), r.end.block());
    let c = fill::covering_range(range);
    let (cb, ce) = (c.begin.index as int, c.end.index as int);
    align::lemma_block_size_pos(l);
    o.lemma_valid_range_positions(range);
    o.lemma_valid_range_positions(r);
    o.lemma_position(r.begin);
    o.lemma_position(r.end);
    if range.begin != range.end {
        lemma_range_end_block(o, range);
    }
    if b == e && range.begin == range.end && m >= l && range.begin.offset() == 0 {
    } else if m >= l {
        assert(ce * size >= range.end.position(l)) by {
            let x = range.end.block();
            assert((x + 1) * size == x * size + size) by (nonlinear_arith);
        }
        assert(rb * size <= cb * size && ce * size <= re * size) by (nonlinear_arith)
            requires
                rb <= cb,
                ce <= re,
                size >= 1,
        ;
        if b > 0 {
            assert(b - 1 == (rb - 1) * size + (size - 1)) by (nonlinear_arith)
                requires
                    b == rb * size,
            ;
            assert(rb > 0) by (nonlinear_arith)
                requires
                    b == rb * size,
                    b > 0,
                    rb >= 0,
            ;
            vstd::arithmetic::div_mod::lemma_fundamental_div_mod_converse(b - 1, size, rb - 1, size - 1);
            let (x, y) = (s[rb - 1], s[rb]);
            assert(x.wf(l) && y.wf(l));
            align::lemma_align_down_unique(o.target_at(b - 1), x.target(), l);
            align::lemma_same_block_coarser(o.target_at(b - 1), x.target(), l, m);
            if rb < cb {
                assert(align::same_block(s[rb].target(), s[cb].target(), m));
            }
        }
        if e < o.blocks_count() {
            assert(e - 1 == (re - 1) * size + (size - 1)) by (nonlinear_arith)
                requires
                    e == re * size,
            ;
            vstd::arithmetic::div_mod::lemma_fundamental_div_mod_converse(e - 1, size, re - 1, size - 1);
            let (x, y) = (s[re - 1], s[re]);
            assert(x.wf(l) && y.wf(l));
            align::lemma_align_down_unique(o.target_at(e - 1), x.target(), l);
            align::lemma_same_block_coarser(o.target_at(e - 1), x.target(), l, m);
            if re > ce {
                assert(align::same_block(s[re - 1].target(), s[ce - 1].target(), m));
            }
        }
    } else {
        align::lemma_align_down_bounds(range.begin.offset(), m);
        if b < e {
            o.lemma_target_at_distance(b, b);
            assert(s[rb].wf(l));
            align::lemma_aligned_finer(s[rb].target(), m, l);
            align::lemma_aligned_sum(s[rb].target(), r.begin.offset(), m);
        }
        if 0 < b < e {
            o.lemma_target_at_distance(b - 1, b);
            align::lemma_align_down_bounds(o.target_at(b - 1), m);
        }
        if b < e && e < o.blocks_count() {
            assert(s[re].wf(l));
            align::lemma_aligned_finer(s[re].target(), m, l);
            align::lemma_aligned_sum(s[re].target(), r.end.offset(), m);
            o.lemma_target_at_distance(e - 1, e);
            align::lemma_align_down_bounds(o.target_at(e - 1), m);
        }
    }
}

/// Runs don't extend past a Minimum Read Block boundary.
proof fn lemma_run_end_bounded(t: Transaction, begin: int, mid: int, end: int)
    requires
        t.wf(),
        0 <= begin < mid <= end <= t.auth_tree_data_blocks_update_states.blocks_count(),
        mid < end ==> !align::same_block(
            t.auth_tree_data_blocks_update_states.target_at(mid - 1),
            t.auth_tree_data_blocks_update_states.target_at(mid),
            t.min_read_log2(),
        ),
    ensures
        t.read_block_end(begin, mid) == t.read_block_end(begin, end),
    decreases mid - begin,
{
    if begin + 1 < mid {
        lemma_run_end_bounded(t, begin + 1, mid, end);
    }
}

/// Consistency of Minimum Read Blocks in a subrange.
proof fn lemma_consistent_subrange(t: Transaction, begin: int, end: int)
    requires
        t.wf(),
        0 <= begin <= end <= t.auth_tree_data_blocks_update_states.blocks_count(),
        t.read_blocks_consistent(0, t.auth_tree_data_blocks_update_states.blocks_count()),
        begin < end ==> t.starts_read_block(0, begin),
        begin < end && end < t.auth_tree_data_blocks_update_states.blocks_count() ==> !align::same_block(
            t.auth_tree_data_blocks_update_states.target_at(end - 1),
            t.auth_tree_data_blocks_update_states.target_at(end),
            t.min_read_log2(),
        ),
    ensures
        t.read_blocks_consistent(begin, end),
{
    let count = t.auth_tree_data_blocks_update_states.blocks_count();
    assert forall|p: int| begin <= p < end && t.starts_read_block(begin, p) implies t.read_block_consistent(
        p,
        #[trigger] t.read_block_end(p, end),
    ) by {
        lemma_run_end_bounded(t, p, end, count);
        assert(t.starts_read_block(0, p));
        assert(t.read_block_consistent(p, t.read_block_end(p, count)));
    }
}

/// If all entries' states are mutually consistent, then data may get read for any
/// requested index range.
pub proof fn law_consistent_states_serve_any_request(
    transaction: &Transaction,
    range: AuthTreeDataBlocksUpdateStatesAllocationBlocksIndexRange,
)
    requires
        transaction.wf(),
        transaction.read_blocks_consistent(0, transaction.auth_tree_data_blocks_update_states.blocks_count()),
        transaction.auth_tree_data_blocks_update_states.valid_blocks_range(&range),
    ensures
        transaction.request_consistent(range),
{
    let states = transaction.auth_tree_data_blocks_update_states;
    let l = states.auth_log2();
    assert forall|extended: AuthTreeDataBlocksUpdateStatesAllocationBlocksIndexRange|
        states.valid_blocks_range(&extended) && #[trigger] states.extended_blocks_range(
            range,
            transaction.min_read_log2(),
            extended,
        ) implies transaction.read_blocks_consistent(extended.begin.position(l), extended.end.position(l)) by {
        lemma_extended_bounds(*transaction, range, extended);
        lemma_consistent_subrange(*transaction, extended.begin.position(l), extended.end.position(l));
    }
}

impl Transaction {
    /// Determine whether data may get read for a requested index range, i.e.
    /// whether all the Minimum Read Blocks it extends to are in a consistent
    /// state.
    pub fn test_request_consistent(
        &self,
        states_allocation_blocks_index_range: &AuthTreeDataBlocksUpdateStatesAllocationBlocksIndexRange,
    ) -> (r: bool)
        requires
            self.wf(),
            self.auth_tree_data_blocks_update_states.valid_blocks_range(states_allocation_blocks_index_range),
        ensures
            r == self.request_consistent(*states_allocation_blocks_index_range),
    {
        let states = &self.auth_tree_data_blocks_update_states;
        let extended = states.extend_states_allocation_blocks_index_range_within_alignment(
            states_allocation_blocks_index_range,
            self.get_min_read_log2(),
        );
        let ghost (l, m) = (states.auth_log2(), self.min_read_log2());
        let ghost (b, e) = (extended.begin.position(l), extended.end.position(l));
        let mut cur = extended.begin;
        proof {
            states.lemma_valid_range_positions(extended);
        }
        while cur != extended.end
            invariant
                self.wf(),
                *states == self.auth_tree_data_blocks_update_states,
                states.valid_blocks_range(&extended),
                states.extended_blocks_range(*states_allocation_blocks_index_range, m, extended),
                (l, m) == (states.auth_log2(), self.min_read_log2()),
                (b, e) == (extended.begin.position(l), extended.end.position(l)),
                0 <= b <= cur.position(l) <= e <= states.blocks_count(),
                cur.position(l) < e ==> self.starts_read_block(b, cur.position(l)),
                states.valid_blocks_range(
                    &(AuthTreeDataBlocksUpdateStatesAllocationBlocksIndexRange { begin: cur, end: extended.end }),
                ),
                forall|p: int|
                    b <= p < cur.position(l) && self.starts_read_block(b, p) ==> self.read_block_consistent(
                        p,
                        #[trigger] self.read_block_end(p, e),
                    ),
            decreases e - cur.position(l),
        {
            let ghost p = cur.position(l);
            proof {
                states_index::lemma_position_injective(cur, extended.end, l);
                states.lemma_run_end(p, e, m);
            }
            let read_block = self.inspect_read_block(cur, extended.end, &extended);
            let ghost q = read_block.end.position(l);
            assert(self.any_needs_read(p, q, (b, e)) == self.any_needs_read(p, q, (p, q)));
            let consistent: bool = if read_block.any_uninitialized {
                !read_block.any_needs_data_read
            } else {
                read_block.can_read_from_target || read_block.can_read_from_journal
            };
            if !consistent {
                assert(!self.read_block_consistent(p, self.read_block_end(p, e)));
                return false;
            }
            proof {
                assert forall|i: int|
                    b <= i < q && self.starts_read_block(b, i) implies self.read_block_consistent(
                    i,
                    #[trigger] self.read_block_end(i, e),
                ) by {
                    if p < i {
                        assert(align::same_block(states.target_at(i - 1), states.target_at(i), m));
                    }
                }
                if q < e {
                    assert(align::same_block(states.target_at(p), states.target_at(q - 1), m));
                    assert(!align::same_block(states.target_at(q - 1), states.target_at(q), m));
                }
            }
            cur = read_block.end;
        }
        proof {
            assert(self.read_blocks_consistent(b, e));
            assert forall|other: AuthTreeDataBlocksUpdateStatesAllocationBlocksIndexRange|
                states.valid_blocks_range(&other) && #[trigger] states.extended_blocks_range(
                    *states_allocation_blocks_index_range,
                    m,
                    other,
                ) implies self.read_blocks_consistent(other.begin.position(l), other.end.position(l)) by {
                states.lemma_extended_blocks_range_unique(*states_allocation_blocks_index_range, m, extended, other);
            }
        }
        true
    }
}

impl TransactionReadMissingDataFuture {
    /// Instantiate a [`TransactionReadMissingDataFuture`].
    ///
    /// # Arguments:
    ///
    /// * `transaction` - The [`Transaction`] whose storage tracking states'
    ///   buffers to populate.
    /// * `states_allocation_blocks_index_range` - The Allocation Block level
    ///   entry index range to populate the storage tracking states' buffers
    ///   within. Applicable correction offsets will get returned upon
    ///   completion in case additional state entries had to get inserted in
    ///   order to fill alignment gaps.
    pub fn new(
        transaction: &Transaction,
        states_allocation_blocks_index_range: &AuthTreeDataBlocksUpdateStatesAllocationBlocksIndexRange,
    ) -> (r: Self)
        requires
            transaction.wf(),
            transaction.request_consistent(*states_allocation_blocks_index_range),
            transaction.auth_tree_data_blocks_update_states.valid_blocks_range(states_allocation_blocks_index_range),
        ensures
            r.wf(transaction),
            r.request_states_allocation_blocks_index_range == *states_allocation_blocks_index_range,
            r.request_states_index_range_offsets is None,
            transaction.auth_tree_data_blocks_update_states.extended_blocks_range(
                *states_allocation_blocks_index_range,
                transaction.min_read_log2(),
                r.remaining_states_allocation_blocks_index_range,
            ),
            r.missing_confined(transaction, (0, 0)),
    {
        let range = states_allocation_blocks_index_range;
        // Possibly extend the range to also cover all already present states within the reach of
        // its Minimum Read Block alignment padding, if any.
        let min_read_log2: u32 = transaction.get_min_read_log2();
        let remaining =
            transaction.auth_tree_data_blocks_update_states.extend_states_allocation_blocks_index_range_within_alignment(
            range,
            min_read_log2,
        );
        proof {
            let o = transaction.auth_tree_data_blocks_update_states;
            let (l, m) = (o.auth_log2(), transaction.min_read_log2());
            align::lemma_block_size_pos(l);
            o.lemma_valid_range_positions(remaining);
            o.lemma_valid_range_positions(*range);
            states_index::lemma_position_injective(remaining.begin, remaining.end, l);
            lemma_extended_bounds(*transaction, *range, remaining);
        }
        TransactionReadMissingDataFuture {
            request_states_allocation_blocks_index_range: *range,
            request_states_index_range_offsets: None,
            remaining_states_allocation_blocks_index_range: remaining,
        }
    }
}

/// A storage read request has been prepared for a region.
pub open spec fn request_prepared(
    t: &Transaction,
    u: &Transaction,
    range: AuthTreeDataBlocksUpdateStatesAllocationBlocksIndexRange,
    read_from_target: bool,
    request: &TransactionReadMissingDataFutureNvChipReadRequest,
    alloc_bitmap: &AllocBitmap,
) -> bool {
    let states = u.auth_tree_data_blocks_update_states;
    let l = states.auth_log2();
    let region = request.read_region_states_allocation_blocks_index_range;
    let len = region.end.position(l) - region.begin.position(l);
    let unit = align::block_size(states.allocation_block_size_128b_log2 as nat);
    &&& read_region_filled(t, u, range, Ok(region), alloc_bitmap)
    &&& request.set_up_for(&states)
    &&& request.buffers_zeroed(align::block_size((states.allocation_block_size_128b_log2 + 7) as nat))
    &&& request.read_from_target == read_from_target
    &&& read_request::read_source(&states, region, read_from_target) matches Some(begin) && {
        &&& request.request_io_region.physical_begin_128b == begin * unit
        &&& request.request_io_region.physical_end_128b == (begin + len) * unit
    }
    &&& request.request_io_region.chunk_size_128b_log2 == states.allocation_block_size_128b_log2
}

/// No storage read request could get prepared for a region.
pub open spec fn preparation_failed(
    t: &Transaction,
    u: &Transaction,
    range: AuthTreeDataBlocksUpdateStatesAllocationBlocksIndexRange,
    read_from_target: bool,
    e: NvFsError,
    alloc_bitmap: &AllocBitmap,
) -> bool {
    let states = u.auth_tree_data_blocks_update_states;
    ||| read_region_filled(t, u, range, Err(e), alloc_bitmap)
    ||| exists|region: AuthTreeDataBlocksUpdateStatesAllocationBlocksIndexRange|
        {
            &&& #[trigger] read_region_filled(t, u, range, Ok(region), alloc_bitmap)
            &&& e == if read_request::read_impossible(&states, region, read_from_target) {
                NvFsError::Internal
            } else {
                NvFsError::MemoryAllocationFailure
            }
        }
}

impl TransactionReadMissingDataFuture {
    /// Prepare a storage read request.
    ///
    /// # Arguments:
    ///
    /// * `transaction` - The [`Transaction`].
    /// * `fs_sync_state_alloc_bitmap` - The filesystem instance's allocation
    ///   bitmap.
    /// * `read_region_states_allocation_blocks_index_range` - Allocation Block
    ///   level entry index range to read in.
    /// * `read_from_target` - Where to read from -- either from the update
    ///   states' associated target location on storage if true, or from the
    ///   Journal Staging Copy otherwise.
    pub fn prepare_read_request(
        &mut self,
        transaction: &mut Transaction,
        fs_sync_state_alloc_bitmap: &AllocBitmap,
        read_region_states_allocation_blocks_index_range: AuthTreeDataBlocksUpdateStatesAllocationBlocksIndexRange,
        read_from_target: bool,
    ) -> (r: Result<TransactionReadMissingDataFutureNvChipReadRequest, NvFsError>)
        requires
            old(self).wf(old(transaction)),
            old(self).request_states_allocation_blocks_index_range.begin
                != old(self).request_states_allocation_blocks_index_range.end,
            ({
                let states = old(transaction).auth_tree_data_blocks_update_states;
                let l = states.auth_log2();
                let range = read_region_states_allocation_blocks_index_range;
                &&& states.valid_blocks_range(&range)
                &&& range.begin != range.end
                &&& old(transaction).read_blocks_contiguous(range.begin.position(l), range.end.position(l))
                &&& old(self).remaining_follows(old(transaction), range)
            }),
        ensures
            final(self).wf(final(transaction)),
            final(transaction).same_environment(old(transaction)),
            final(self).ranges_corrected(
                old(self),
                &old(transaction).auth_tree_data_blocks_update_states,
                &final(transaction).auth_tree_data_blocks_update_states,
                old(transaction).min_read_log2(),
            ),
            match r {
                Ok(request) => request_prepared(
                    old(transaction),
                    final(transaction),
                    read_region_states_allocation_blocks_index_range,
                    read_from_target,
                    &request,
                    fs_sync_state_alloc_bitmap,
                ),
                Err(e) => preparation_failed(
                    old(transaction),
                    final(transaction),
                    read_region_states_allocation_blocks_index_range,
                    read_from_target,
                    e,
                    fs_sync_state_alloc_bitmap,
                ),
            },
            r matches Ok(request) ==> final(self).region_precedes(final(transaction), &request),
            // Nothing gets missed.
            ({
                let l = old(transaction).auth_tree_data_blocks_update_states.auth_log2();
                let range = read_region_states_allocation_blocks_index_range;
                old(self).missing_confined(old(transaction), (range.begin.position(l), range.end.position(l))) ==> (
                r matches Ok(request) ==> final(self).missing_confined(
                    final(transaction),
                    request.positions(final(transaction)),
                ))
            }),
    {
        let range = read_region_states_allocation_blocks_index_range;
        let ghost t = *transaction;
        let ghost old_self = *self;
        let filled = self.fill_read_region(transaction, fs_sync_state_alloc_bitmap, &range);
        assert(transaction.auth_tree_data_blocks_update_states.states.len() <= usize::MAX);
        proof {
            lemma_filled_wf(t, *transaction, old_self, *self, range, filled, fs_sync_state_alloc_bitmap);
        }
        // Return upon failure only after the index ranges have been updated (it could have failed
        // midways).
        let region = match filled {
            Ok(region) => region,
            Err(e) => {
                return Err(e);
            },
        };
        proof {
            lemma_filled_contiguous(t, *transaction, range, region, fs_sync_state_alloc_bitmap);
            lemma_filled_precedes(t, *transaction, old_self, *self, range, region, fs_sync_state_alloc_bitmap);
            let l = t.auth_tree_data_blocks_update_states.auth_log2();
            if old_self.missing_confined(&t, (range.begin.position(l), range.end.position(l))) {
                lemma_filled_confined(
                    t,
                    *transaction,
                    old_self,
                    *self,
                    range,
                    region,
                    fs_sync_state_alloc_bitmap,
                );
            }
            assert(read_region_filled(&t, transaction, range, Ok(region), fs_sync_state_alloc_bitmap));
        }
        read_request::set_up_read_request(
            &transaction.auth_tree_data_blocks_update_states,
            region,
            read_from_target,
        )
    }

    /// A storage read request's region is located before what's remaining.
    pub open spec fn region_precedes(
        &self,
        transaction: &Transaction,
        request: &TransactionReadMissingDataFutureNvChipReadRequest,
    ) -> bool {
        let l = transaction.auth_tree_data_blocks_update_states.auth_log2();
        request.positions(transaction).1 <= self.remaining_states_allocation_blocks_index_range.begin.position(l)
    }
}

impl TransactionReadMissingDataFutureNvChipReadRequest {
    /// The region's positions in the sequence of all Allocation Block level
    /// entries.
    pub open spec fn positions(&self, transaction: &Transaction) -> (int, int) {
        let l = transaction.auth_tree_data_blocks_update_states.auth_log2();
        let range = self.read_region_states_allocation_blocks_index_range;
        (range.begin.position(l), range.end.position(l))
    }
}

/// A completed region does not extend into what's remaining.
proof fn lemma_filled_precedes(
    t: Transaction,
    u: Transaction,
    old_future: TransactionReadMissingDataFuture,
    new_future: TransactionReadMissingDataFuture,
    range: AuthTreeDataBlocksUpdateStatesAllocationBlocksIndexRange,
    region: AuthTreeDataBlocksUpdateStatesAllocationBlocksIndexRange,
    alloc_bitmap: &AllocBitmap,
)
    requires
        old_future.wf(&t),
        new_future.wf(&u),
        t.auth_tree_data_blocks_update_states.valid_blocks_range(&range),
        range.begin != range.end,
        old_future.remaining_follows(&t, range),
        read_region_filled(&t, &u, range, Ok(region), alloc_bitmap),
        u.auth_tree_data_blocks_update_states.valid_blocks_range(&region),
        new_future.ranges_corrected(
            &old_future,
            &t.auth_tree_data_blocks_update_states,
            &u.auth_tree_data_blocks_update_states,
            t.min_read_log2(),
        ),
    ensures
        ({
            let l = t.auth_tree_data_blocks_update_states.auth_log2();
            region.end.position(l) <= new_future.remaining_states_allocation_blocks_index_range.begin.position(l)
        }),
{
    let (o, f) = (t.auth_tree_data_blocks_update_states, u.auth_tree_data_blocks_update_states);
    let (l, m, size) = (o.auth_log2(), t.min_read_log2(), o.block_len());
    let n = f.states@.len() - o.states@.len();
    let c = fill::covering_range(range);
    let (cb, ce) = (c.begin.index as int, c.end.index as int);
    let remaining = old_future.remaining_states_allocation_blocks_index_range;
    let (rb, p) = (remaining.begin.block(), remaining.begin.position(l));
    align::lemma_block_size_pos(l);
    lemma_range_end_block(o, range);
    o.lemma_valid_range_positions(remaining);
    f.lemma_valid_range_positions(region);
    o.lemma_position(remaining.begin);
    let last = range.end.position(l) - 1;
    o.lemma_target_at_distance(last, last);
    assert((rb + n) * size == rb * size + n * size) by (nonlinear_arith);
    let len = o.states@.len() as int;
    assert((len + n) * size == len * size + n * size) by (nonlinear_arith);
    if p >= o.blocks_count() {
    } else {
        o.lemma_target_at_distance(p, p);
        assert(o.states@[rb].wf(l) && o.states@[ce - 1].wf(l));
        vstd::arithmetic::div_mod::lemma_fundamental_div_mod(last, size);
        let j = last / size;
        assert(j == ce - 1) by (nonlinear_arith)
            requires
                last == size * j + last % size,
                0 <= last % size < size,
                (ce - 1) * size <= last < ce * size,
                size >= 1,
        ;
        if m >= l {
            lemma_remaining_shifted(t, u, old_future, range, Ok(region), alloc_bitmap);
            let e = align::align_down(o.states@[ce - 1].target(), m) + align::block_size(m);
            align::lemma_align_down_unique(o.target_at(p), o.states@[rb].target(), l);
            align::lemma_align_down_unique(o.target_at(last), o.states@[ce - 1].target(), l);
            align::lemma_same_block_coarser(o.target_at(p), o.states@[rb].target(), l, m);
            align::lemma_same_block_coarser(o.target_at(last), o.states@[ce - 1].target(), l, m);
            align::lemma_align_down_bounds(o.states@[rb].target(), m);
            align::lemma_align_down_bounds(o.states@[ce - 1].target(), m);
            align::lemma_aligned_gap(
                align::align_down(o.states@[ce - 1].target(), m),
                align::align_down(o.states@[rb].target(), m),
                m,
            );
            assert(f.states@[rb + n] == o.states@[rb]);
            let ae = region.end.block();
            if ae > rb + n {
                assert(f.states@[rb + n].target() < e);
            }
            assert(ae * size <= (rb + n) * size) by (nonlinear_arith)
                requires
                    ae <= rb + n,
                    size >= 1,
            ;
        } else {
            // Extending the end within the alignment does not reach into another Minimum Read
            // Block.
            assert(0 * size == 0) by (nonlinear_arith);
            lemma_extended_end(t, range, region, p);
        }
    }
}

/// Extending a range's end within an alignment less than the Authentication
/// Tree Data Block size does not reach into another Minimum Read Block.
proof fn lemma_extended_end(
    t: Transaction,
    range: AuthTreeDataBlocksUpdateStatesAllocationBlocksIndexRange,
    region: AuthTreeDataBlocksUpdateStatesAllocationBlocksIndexRange,
    p: int,
)
    requires
        t.wf(),
        t.auth_tree_data_blocks_update_states.valid_blocks_range(&range),
        t.auth_tree_data_blocks_update_states.valid_blocks_range(&region),
        range.begin != range.end,
        t.min_read_log2() < t.auth_tree_data_blocks_update_states.auth_log2(),
        t.auth_tree_data_blocks_update_states.extended_blocks_range(range, t.min_read_log2(), region),
        ({
            let o = t.auth_tree_data_blocks_update_states;
            let e = range.end.position(o.auth_log2());
            &&& e <= p < o.blocks_count()
            &&& align::align_down(o.target_at(p), t.min_read_log2()) > align::align_down(
                o.target_at(e - 1),
                t.min_read_log2(),
            )
        }),
    ensures
        region.end.position(t.auth_tree_data_blocks_update_states.auth_log2()) <= p,
{
    let o = t.auth_tree_data_blocks_update_states;
    let (l, m, size) = (o.auth_log2(), t.min_read_log2(), o.block_len());
    let (e, x) = (range.end.position(l), region.end.position(l));
    align::lemma_block_size_pos(l);
    align::lemma_block_size_pos(m);
    lemma_range_end_block(o, range);
    o.lemma_valid_range_positions(region);
    if p < x {
        // Both are from the same, aligned group of positions.
        o.lemma_target_at_distance(e - 1, p);
        let (i, j) = ((e - 1) / size, p / size);
        vstd::arithmetic::div_mod::lemma_fundamental_div_mod(e - 1, size);
        vstd::arithmetic::div_mod::lemma_fundamental_div_mod(p, size);
        let (xb, xo) = (region.end.block(), region.end.offset());
        align::lemma_block_size_split(m, l);
        let g = align::block_size(m);
        // The group's beginning.
        let y = x - g;
        assert(y <= e - 1 && p < x);
        align::lemma_multiple_is_aligned(xb, l);
        align::lemma_aligned_finer(xb * size, m, l);
        align::lemma_aligned_sum(xb * size, xo, m);
        align::lemma_aligned_next(x, m);
        assert(align::aligned(y, m));
        // A group does not cross any Authentication Tree Data Block boundary.
        assert(i == j) by {
            if i < j {
                let z = j * size;
                assert(e - 1 < z <= p) by (nonlinear_arith)
                    requires
                        e - 1 == size * i + (e - 1) % size,
                        (e - 1) % size < size,
                        p == size * j + p % size,
                        0 <= p % size,
                        z == j * size,
                        i + 1 <= j,
                        size >= 1,
                ;
                align::lemma_multiple_is_aligned(j, l);
                align::lemma_aligned_finer(z, m, l);
                align::lemma_aligned_gap(y, z, m);
            }
        }
        let base = o.states@[i].target();
        assert(o.states@[i].wf(l));
        align::lemma_aligned_finer(base, m, l);
        align::lemma_multiple_is_aligned(i, l);
        align::lemma_aligned_finer(i * size, m, l);
        align::lemma_aligned_sum(y, i * size, m);
        align::lemma_aligned_sum(base, y - i * size, m);
        let b = base + (y - i * size);
        assert(size * i == i * size) by (nonlinear_arith);
        assert(o.target_at(e - 1) == base + (e - 1 - i * size));
        assert(o.target_at(p) == base + (p - i * size));
        align::lemma_align_down_unique(o.target_at(e - 1), b, m);
        align::lemma_align_down_unique(o.target_at(p), b, m);
    }
}

} // verus!
