//! Relations between what's tracked and the storage regions it's tracked for.
use crate::align;
use crate::alloc_bitmap::{AllocBitmap, SparseAllocBitmap};
use crate::block_state::{
    AllocationBlockUpdateNvSyncState, AllocationBlockUpdateNvSyncStateAllocated, AllocationBlockUpdateState,
};
use crate::fill;
use crate::insert;
use crate::layout::PhysicalAllocBlockRange;
use crate::states::{AuthTreeDataBlockUpdateState, AuthTreeDataBlocksUpdateStates};
use crate::states_index::{
    AuthTreeDataBlocksUpdateStatesAllocationBlocksIndexRange, AuthTreeDataBlocksUpdateStatesIndexRange,
};
use vstd::prelude::*;

verus! {

/// An Allocation Block's contents are going to be different from what's in its target
/// location.
pub open spec fn is_modified(state: AllocationBlockUpdateState) -> bool {
    ||| state.staged_update is Update
    ||| state.staged_update is FailedUpdate
    ||| state.nv_sync_state matches AllocationBlockUpdateNvSyncState::Allocated(
        AllocationBlockUpdateNvSyncStateAllocated::Modified(_),
    )
}

/// An entry is to be retained for its own sake.
pub open spec fn is_relevant(state: AuthTreeDataBlockUpdateState, image_header_end: int) -> bool {
    ||| state.target_allocation_blocks_begin.index < image_header_end
    ||| exists|k: int|
        0 <= k < state.allocation_blocks_states@.len() && is_modified(#[trigger] state.allocation_blocks_states@[k])
}

/// Entries are retained upon pruning exactly if there's something modified in the same
/// IO block, or if the image header extends into it.
pub proof fn law_io_blocks_are_pruned_as_a_whole(
    states: AuthTreeDataBlocksUpdateStates,
    image_header_end: int,
    i: int,
    j: int,
)
    requires
        0 <= i < states.states@.len(),
        0 <= j < states.states@.len(),
    ensures
        ({
            let size = align::block_size(states.io_block_allocation_blocks_log2 as nat);
            let target = states.states@[i].target_allocation_blocks_begin.index as int;
            &&& states.needed(i, image_header_end) <==> exists|k: int|
                0 <= k < states.states@.len() && is_relevant(#[trigger] states.states@[k], image_header_end)
                    && states.states@[k].target_allocation_blocks_begin.index as int / size == target / size
            &&& is_relevant(states.states@[i], image_header_end) ==> states.needed(i, image_header_end)
            &&& states.states@[j].target_allocation_blocks_begin.index as int / size == target / size
                ==> states.needed(i, image_header_end) == states.needed(j, image_header_end)
        }),
{
    let h = image_header_end;
    let l = states.io_log2();
    align::lemma_block_size_pos(l);
    reveal(align::blocks);
    assert forall|a: int, b: int|
        align::same_block(a, b, l) <==> #[trigger] (a / align::block_size(l)) == #[trigger] (b / align::block_size(l)) by {
        align::lemma_blocks_align_down(a, l);
        align::lemma_blocks_align_down(b, l);
    }
    assert forall|k: int| 0 <= k < states.states@.len() implies (is_relevant(#[trigger] states.states@[k], h) <==> (
    states.states@[k].modified_from(0) || states.states@[k].target() < h)) by {
        let state = states.states@[k];
        if state.modified_from(0) {
            let n = choose|n: int|
                0 <= n < state.allocation_blocks_states@.len() && (#[trigger] state.allocation_blocks_states@[n]).modified();
            assert(is_modified(state.allocation_blocks_states@[n]));
        }
        if exists|n: int|
            0 <= n < state.allocation_blocks_states@.len() && is_modified(#[trigger] state.allocation_blocks_states@[n]) {
            let n = choose|n: int|
                0 <= n < state.allocation_blocks_states@.len() && is_modified(#[trigger] state.allocation_blocks_states@[n]);
            assert(state.allocation_blocks_states@[n].modified());
        }
    }
    assert forall|x: int| 0 <= x < states.states@.len() implies (#[trigger] states.needed(x, h) <==> exists|k: int|
        0 <= k < states.states@.len() && is_relevant(#[trigger] states.states@[k], h) && states.states@[k].target()
            / align::block_size(l) == states.states@[x].target() / align::block_size(l)) by {
        if states.needed(x, h) {
            let k = choose|k: int| #[trigger] states.needed_by(x, k, h);
            assert(is_relevant(states.states@[k], h));
        }
        if exists|k: int|
            0 <= k < states.states@.len() && is_relevant(#[trigger] states.states@[k], h) && states.states@[k].target()
                / align::block_size(l) == states.states@[x].target() / align::block_size(l) {
            let k = choose|k: int|
                0 <= k < states.states@.len() && is_relevant(#[trigger] states.states@[k], h)
                    && states.states@[k].target() / align::block_size(l) == states.states@[x].target()
                    / align::block_size(l);
            assert(states.needed_by(x, k, h));
        }
    }
    assert(is_relevant(states.states@[i], h) ==> states.needed_by(i, i, h));
    let _ = states.needed(i, h);
    let _ = states.needed(j, h);
}

/// Distinct target blocks have been assigned distinct Journal Staging Copy blocks.
pub open spec fn journal_blocks_are_distinct(states: AuthTreeDataBlocksUpdateStates) -> bool {
    forall|i: int, j: int|
        #![trigger states.states@[i], states.states@[j]]
        0 <= i < states.states@.len() && 0 <= j < states.states@.len() && states.journal_block(i) is Some
            && states.journal_block(i) == states.journal_block(j) ==> align::same_block(
            states.states@[i].target(),
            states.states@[j].target(),
            states.journal_log2(),
        )
}

/// Journal Staging Copy blocks are reported as abandoned only if they had been assigned
/// to some entry pruned.
pub proof fn law_abandoned_blocks_are_from_pruned_entries(
    states: AuthTreeDataBlocksUpdateStates,
    n: int,
    image_header_end: int,
    m: int,
) -> (i: int)
    requires
        0 <= n <= states.states@.len(),
        0 <= m < states.abandoned(n, image_header_end).len(),
    ensures
        0 <= i < n,
        !states.needed(i, image_header_end),
        states.journal_block(i) == Some(states.abandoned(n, image_header_end)[m]),
        states.states@[i].journal_staging_copy_allocation_blocks_begin matches Some(j) && states.abandoned(
            n,
            image_header_end,
        )[m].index == j.index as int - j.index as int % align::block_size(states.journal_log2()),
    decreases n,
{
    let h = image_header_end;
    let q = states.abandoned(n - 1, h);
    reveal(align::align_down);
    align::lemma_block_size_pos(states.journal_log2());
    if m < q.len() {
        law_abandoned_blocks_are_from_pruned_entries(states, n - 1, h, m)
    } else {
        let j = states.states@[n - 1].journal_staging_copy_allocation_blocks_begin->Some_0.index as int;
        align::lemma_align_down_bounds(j, states.journal_log2());
        let b = align::block_size(states.journal_log2());
        vstd::arithmetic::div_mod::lemma_mod_decreases(j as nat, b as nat);
        n - 1
    }
}

/// No entry retained has had its Journal Staging Copy block abandoned.
pub proof fn law_retained_entries_keep_their_journal_block(
    states: AuthTreeDataBlocksUpdateStates,
    n: int,
    image_header_end: int,
    i: int,
    m: int,
)
    requires
        states.wf(),
        journal_blocks_are_distinct(states),
        0 <= n <= states.states@.len(),
        0 <= i < states.states@.len(),
        states.needed(i, image_header_end),
        0 <= m < states.abandoned(n, image_header_end).len(),
    ensures
        states.journal_block(i) != Some(states.abandoned(n, image_header_end)[m]),
{
    let h = image_header_end;
    let p = law_abandoned_blocks_are_from_pruned_entries(states, n, h, m);
    if states.journal_block(i) == Some(states.abandoned(n, h)[m]) {
        let (s, l, jl) = (states.states@, states.auth_log2(), states.journal_log2());
        assert(align::same_block(s[i].target(), s[p].target(), jl));
        if states.io_log2() >= l {
            lemma_needed_in_same_io_block(states, h, i, p);
        } else {
            assert(s[i].wf(l) && s[p].wf(l));
            assert(s[i].target() == s[p].target());
        }
    }
}

proof fn lemma_needed_in_same_io_block(states: AuthTreeDataBlocksUpdateStates, h: int, i: int, j: int)
    requires
        align::same_block(states.states@[i].target(), states.states@[j].target(), states.io_log2()),
        states.needed(i, h),
    ensures
        states.needed(j, h),
{
    let k = choose|k: int| #[trigger] states.needed_by(i, k, h);
    assert(states.needed_by(j, k, h));
}

/// Each Journal Staging Copy block is reported as abandoned once.
pub proof fn law_blocks_are_abandoned_once(
    states: AuthTreeDataBlocksUpdateStates,
    n: int,
    image_header_end: int,
    a: int,
    b: int,
)
    requires
        states.wf(),
        journal_blocks_are_distinct(states),
        0 <= n <= states.states@.len(),
        0 <= a < b < states.abandoned(n, image_header_end).len(),
    ensures
        states.abandoned(n, image_header_end)[a] != states.abandoned(n, image_header_end)[b],
    decreases n,
{
    let h = image_header_end;
    let q = states.abandoned(n - 1, h);
    if b < q.len() {
        law_blocks_are_abandoned_once(states, n - 1, h, a, b);
    } else {
        let (s, l, jl) = (states.states@, states.auth_log2(), states.journal_log2());
        let p = law_abandoned_blocks_are_from_pruned_entries(states, n - 1, h, a);
        if q[a] == states.abandoned(n, h)[b] {
            let (x, y, z) = (s[p], s[n - 2], s[n - 1]);
            assert(x.wf(l) && y.wf(l) && z.wf(l));
            assert(align::same_block(x.target(), z.target(), jl));
            assert(x.target() <= y.target() < z.target());
            align::lemma_align_down_mono(x.target(), y.target(), jl);
            align::lemma_align_down_mono(y.target(), z.target(), jl);
            assert(align::same_block(y.target(), z.target(), jl));
            assert(y.journal_agrees(&z, jl));
            if states.io_log2() >= l {
                if states.needed(n - 2, h) {
                    lemma_needed_in_same_io_block(states, h, n - 2, n - 1);
                }
                assert(states.last_abandoned(n - 1, h) == states.journal_block(n - 2));
                assert(states.journal_block(n - 2) == states.journal_block(n - 1));
            } else {
                assert(x.target() == z.target());
            }
        }
    }
}

/// With missing states inserted for a storage region, the index range returned refers to
/// exactly the entries for the requested locations, and any of these is found therein.
pub proof fn law_inserted_range_is_for_requested_locations(
    old_states: AuthTreeDataBlocksUpdateStates,
    new_states: AuthTreeDataBlocksUpdateStates,
    target_range: PhysicalAllocBlockRange,
    range: AuthTreeDataBlocksUpdateStatesAllocationBlocksIndexRange,
    inserted_states_count: int,
    alloc_bitmap: &AllocBitmap,
    pending_frees: &SparseAllocBitmap,
    b: int,
    k: int,
)
    requires
        old_states.wf(),
        new_states.wf(),
        target_range.wf(),
        old_states.insertion_region(target_range).0 < old_states.insertion_region(target_range).1,
        new_states.inserted(
            &old_states,
            target_range,
            range,
            inserted_states_count,
            alloc_bitmap,
            pending_frees,
        ),
        0 <= b < new_states.states@.len(),
        0 <= k < align::block_size(old_states.auth_tree_data_block_allocation_blocks_log2 as nat),
    ensures
        range.has(b, k) <==> target_range.begin.index <= new_states.states@[b].target_allocation_blocks_begin.index + k
            < target_range.end.index,
        (range.end.block() - range.begin.block()) * align::block_size(
            old_states.auth_tree_data_block_allocation_blocks_log2 as nat,
        ) + range.end.offset() - range.begin.offset() == target_range.end.index - target_range.begin.index,
{
    fill::law_inserted_region_is_tracked(
        old_states,
        new_states,
        target_range,
        range,
        inserted_states_count,
        alloc_bitmap,
        pending_frees,
    );
    reveal(AuthTreeDataBlocksUpdateStates::filled);
    let s = new_states.states@;
    let l = new_states.auth_log2();
    let size = align::block_size(l);
    let c = AuthTreeDataBlocksUpdateStatesIndexRange::covering(range);
    let (b0, b1) = (range.begin.block(), range.end.block());
    align::lemma_block_size_pos(l);
    assert((b1 - b0) * size == b1 * size - b0 * size) by (nonlinear_arith);
    assert(s[b].wf(l) && s[b0].wf(l));
    if b < b0 {
        assert(s[b].target() < s[b0].target());
        align::lemma_aligned_gap(s[b].target(), s[b0].target(), l);
    } else if b < c.1 {
        assert(s[b].target() == s[b0].target() + (b - b0) * size);
        if b < b1 {
            assert((b - b0) * size + size <= (b1 - b0) * size) by (nonlinear_arith)
                requires
                    b + 1 <= b1,
                    size > 0,
            ;
        }
        if b0 < b {
            assert((b - b0) * size >= size) by (nonlinear_arith)
                requires
                    b - b0 >= 1,
                    size > 0,
            ;
        } else {
            assert((b - b0) * size == 0) by (nonlinear_arith)
                requires
                    b == b0,
            ;
        }
    } else if c.1 > b0 {
        assert(s[c.1 - 1].wf(l));
        assert(s[c.1 - 1].target() == s[b0].target() + (c.1 - 1 - b0) * size);
        assert(s[c.1 - 1].target() < s[b].target());
        align::lemma_aligned_gap(s[c.1 - 1].target(), s[b].target(), l);
        assert((c.1 - 1 - b0) * size + size == (c.1 - b0) * size) by (nonlinear_arith);
        if c.1 == b1 + 1 {
            assert((c.1 - b0) * size == (b1 - b0) * size + size) by (nonlinear_arith)
                requires
                    c.1 == b1 + 1,
            ;
        }
    }
}

/// If interrupted, the insertion of missing states is incomplete, but all existing entries
/// are retained, missing ones have been inserted from the beginning up to some location, and
/// the number thereof is as reported.
pub proof fn law_interrupted_insertion_is_accounted_for(
    old_states: AuthTreeDataBlocksUpdateStates,
    new_states: AuthTreeDataBlocksUpdateStates,
    target_range: PhysicalAllocBlockRange,
    inserted_states_count: int,
    alloc_bitmap: &AllocBitmap,
    pending_frees: &SparseAllocBitmap,
)
    requires
        old_states.wf(),
        new_states.wf(),
        target_range.wf(),
        new_states.insertion_interrupted(
            &old_states,
            target_range,
            inserted_states_count,
            alloc_bitmap,
            pending_frees,
        ),
    ensures
        new_states.grown(&old_states, alloc_bitmap, pending_frees),
        new_states.states@.len() == old_states.states@.len() + inserted_states_count,
        exists|x: int|
            #![trigger align::aligned(x, old_states.auth_log2())]
            {
                let size = align::block_size(old_states.auth_tree_data_block_allocation_blocks_log2 as nat);
                let begin = target_range.begin.index - target_range.begin.index as int % size;
                &&& align::aligned(x, old_states.auth_log2())
                &&& begin <= x < target_range.end.index || x == begin
                &&& forall|t: int| #[trigger]
                    new_states.present(t) <==> old_states.present(t) || begin <= t < x && align::aligned(
                        t,
                        old_states.auth_log2(),
                    )
            },
{
    let l = old_states.auth_log2();
    let region = old_states.insertion_region(target_range);
    let (x, lo) = choose|x: int, lo: int| #[trigger]
        new_states.partially_inserted(
            &old_states,
            region.0,
            region.1,
            x,
            lo,
            inserted_states_count,
            alloc_bitmap,
            pending_frees,
        );
    reveal(align::align_down);
    align::lemma_block_size_pos(l);
    align::lemma_align_down_bounds(target_range.begin.index as int, l);
    align::lemma_align_down_bounds(target_range.end.index as int, l);
    fill::lemma_filled_grown(
        old_states,
        new_states,
        region.0,
        x,
        lo,
        lo + align::blocks(x - region.0, l) - inserted_states_count,
        alloc_bitmap,
        pending_frees,
    );
    align::lemma_aligned_next(align::align_down(target_range.end.index as int, l), l);
    if x >= target_range.end.index && x > region.0 {
        align::lemma_aligned_gap(x, region.1, l);
        assert(false);
    }
    assert(align::aligned(x, l));
}

/// Anything newly inserted starts out from what's on storage, with no authentication
/// digest.
pub proof fn law_inserted_entries_are_fresh(
    old_states: AuthTreeDataBlocksUpdateStates,
    new_states: AuthTreeDataBlocksUpdateStates,
    alloc_bitmap: &AllocBitmap,
    pending_frees: &SparseAllocBitmap,
    i: int,
    k: int,
)
    requires
        new_states.grown(&old_states, alloc_bitmap, pending_frees),
        0 <= i < new_states.states@.len(),
        0 <= k < new_states.states@[i].allocation_blocks_states@.len(),
        forall|j: int|
            0 <= j < old_states.states@.len() ==> (
            #[trigger] old_states.states@[j]).target_allocation_blocks_begin
                != new_states.states@[i].target_allocation_blocks_begin,
    ensures
        ({
            let state = new_states.states@[i];
            let location = state.target_allocation_blocks_begin.index + k;
            &&& state.auth_digest is None
            &&& state.allocation_blocks_states@[k] == insert::fresh_block(
                location,
                old_states.io_block_allocation_blocks_log2 as nat,
                alloc_bitmap,
                pending_frees,
            )
            &&& !is_modified(state.allocation_blocks_states@[k])
            &&& state.allocation_blocks_states@[k].nv_sync_state is Allocated <==> alloc_bitmap.allocated(location)
            &&& insert::inherits_journal(old_states.states@, state, old_states.journal_log2())
        }),
{
    reveal(AuthTreeDataBlocksUpdateStates::grown);
    let state = new_states.states@[i];
    if old_states.has_entry(state) {
        let j = choose|j: int| 0 <= j < old_states.states@.len() && #[trigger] old_states.states@[j] == state;
        assert(false);
    }
}

/// Alignment gaps are filled only within the aligned blocks of the entries from the
/// range.
pub proof fn law_only_alignment_gaps_are_filled(
    old_states: AuthTreeDataBlocksUpdateStates,
    new_states: AuthTreeDataBlocksUpdateStates,
    range: AuthTreeDataBlocksUpdateStatesIndexRange,
    alignment_log2: nat,
    r: Result<AuthTreeDataBlocksUpdateStatesIndexRange, crate::fs::NvFsError>,
    alloc_bitmap: &AllocBitmap,
    pending_frees: &SparseAllocBitmap,
    i: int,
)
    requires
        new_states.alignment_gaps_filled(&old_states, range, alignment_log2, r, alloc_bitmap, pending_frees),
        0 <= i < new_states.states@.len(),
        forall|j: int|
            0 <= j < old_states.states@.len() ==> (
            #[trigger] old_states.states@[j]).target_allocation_blocks_begin
                != new_states.states@[i].target_allocation_blocks_begin,
    ensures
        exists|j: int|
            range.begin.index <= j < range.end.index && (
            #[trigger] old_states.states@[j]).target_allocation_blocks_begin.index as int / align::block_size(
                alignment_log2,
            ) == new_states.states@[i].target_allocation_blocks_begin.index as int / align::block_size(alignment_log2),
{
    let t = new_states.states@[i].target();
    let (rb, re) = (range.begin.index as int, range.end.index as int);
    assert(new_states.present(t));
    if old_states.present(t) {
        let j = choose|j: int| 0 <= j < old_states.states@.len() && (#[trigger] old_states.states@[j]).target() == t;
        assert(old_states.states@[j].target_allocation_blocks_begin
            == new_states.states@[i].target_allocation_blocks_begin);
        assert(false);
    }
    assert(old_states.within_alignment(rb, re, alignment_log2, t));
    let j = choose|j: int|
        rb <= j < re && align::same_block((#[trigger] old_states.states@[j]).target(), t, alignment_log2);
    align::lemma_blocks_align_down(t, alignment_log2);
    align::lemma_blocks_align_down(old_states.states@[j].target(), alignment_log2);
    reveal(align::blocks);
}

/// Having alignment gaps filled, the index range returned refers to exactly the entries
/// located in between the beginning of the first one's and the end of the last one's
/// aligned block.
pub proof fn law_filled_range_is_by_alignment(
    old_states: AuthTreeDataBlocksUpdateStates,
    new_states: AuthTreeDataBlocksUpdateStates,
    range: AuthTreeDataBlocksUpdateStatesIndexRange,
    alignment_log2: nat,
    aligned_range: AuthTreeDataBlocksUpdateStatesIndexRange,
    alloc_bitmap: &AllocBitmap,
    pending_frees: &SparseAllocBitmap,
    i: int,
)
    requires
        range.begin.index < range.end.index <= old_states.states@.len(),
        new_states.alignment_gaps_filled(
            &old_states,
            range,
            alignment_log2,
            Ok(aligned_range),
            alloc_bitmap,
            pending_frees,
        ),
        0 <= i < new_states.states@.len(),
    ensures
        ({
            let alignment = align::block_size(alignment_log2);
            let (first, last) = (
                old_states.states@[range.begin.index as int].target_allocation_blocks_begin.index as int,
                old_states.states@[range.end.index - 1].target_allocation_blocks_begin.index as int,
            );
            let target = new_states.states@[i].target_allocation_blocks_begin.index as int;
            aligned_range.begin.index <= i < aligned_range.end.index <==> first - first % alignment <= target < last
                - last % alignment + alignment
        }),
{
    reveal(align::align_down);
    let _ = new_states.states@[i];
}

/// A region is populated exactly if there's an entry for each of its Authentication Tree
/// Data Blocks.
pub proof fn law_populated_regions_have_all_entries(
    states: AuthTreeDataBlocksUpdateStates,
    begin: int,
    end: int,
    lo: int,
)
    requires
        states.wf(),
        align::aligned(begin, states.auth_tree_data_block_allocation_blocks_log2 as nat),
        align::aligned(end, states.auth_tree_data_block_allocation_blocks_log2 as nat),
        begin <= end,
        0 <= lo <= states.states@.len(),
        forall|i: int|
            0 <= i < lo ==> (#[trigger] states.states@[i]).target_allocation_blocks_begin.index < begin,
        forall|i: int|
            lo <= i < states.states@.len() ==> (#[trigger] states.states@[i]).target_allocation_blocks_begin.index
                >= begin,
    ensures
        states.populated(begin, end, lo) <==> forall|t: int|
            begin <= t < end && #[trigger] align::aligned(
                t,
                states.auth_tree_data_block_allocation_blocks_log2 as nat,
            ) ==> exists|i: int|
                0 <= i < states.states@.len() && (#[trigger] states.states@[i]).target_allocation_blocks_begin.index
                    == t,
{
    let l = states.auth_log2();
    let size = states.block_len();
    let s = states.states@;
    let n = align::blocks(end - begin, l);
    align::lemma_block_size_pos(l);
    align::lemma_aligned_sum(end, begin, l);
    align::lemma_aligned_is_multiple(end - begin, l);
    if states.populated(begin, end, lo) {
        assert forall|t: int| begin <= t < end && #[trigger] align::aligned(t, l) implies exists|i: int|
            0 <= i < s.len() && (#[trigger] s[i]).target_allocation_blocks_begin.index == t by {
            align::lemma_aligned_sum(t, begin, l);
            align::lemma_aligned_is_multiple(t - begin, l);
            let j = align::blocks(t - begin, l);
            assert(0 <= j < n) by (nonlinear_arith)
                requires
                    0 <= j * size < n * size,
                    size > 0,
            ;
            assert(s[lo + j].target() == begin + j * size);
        }
    }
    if forall|t: int|
        begin <= t < end && #[trigger] align::aligned(t, l) ==> exists|i: int|
            0 <= i < s.len() && (#[trigger] s[i]).target_allocation_blocks_begin.index == t {
        lemma_populated(states, begin, end, lo, n);
    }
}

proof fn lemma_populated(states: AuthTreeDataBlocksUpdateStates, begin: int, end: int, lo: int, n: int)
    requires
        states.wf(),
        align::aligned(begin, states.auth_log2()),
        0 <= n <= align::blocks(end - begin, states.auth_log2()),
        end - begin == align::blocks(end - begin, states.auth_log2()) * states.block_len(),
        0 <= lo <= states.states@.len(),
        forall|i: int| 0 <= i < lo ==> (#[trigger] states.states@[i]).target() < begin,
        forall|i: int| lo <= i < states.states@.len() ==> (#[trigger] states.states@[i]).target() >= begin,
        forall|t: int|
            begin <= t < end && #[trigger] align::aligned(t, states.auth_log2()) ==> exists|i: int|
                0 <= i < states.states@.len() && (#[trigger] states.states@[i]).target_allocation_blocks_begin.index
                    == t,
    ensures
        lo + n <= states.states@.len(),
        forall|i: int|
            lo <= i < lo + n ==> (#[trigger] states.states@[i]).target() == begin + (i - lo) * states.block_len(),
    decreases n,
{
    let l = states.auth_log2();
    let size = states.block_len();
    let s = states.states@;
    align::lemma_block_size_pos(l);
    if n > 0 {
        lemma_populated(states, begin, end, lo, n - 1);
        let t = begin + (n - 1) * size;
        let m = align::blocks(end - begin, l);
        assert((n - 1) * size < m * size && 0 <= (n - 1) * size) by (nonlinear_arith)
            requires
                0 <= n - 1 < m,
                size > 0,
        ;
        align::lemma_multiple_is_aligned(n - 1, l);
        align::lemma_aligned_sum(begin, (n - 1) * size, l);
        let i = choose|i: int|
            0 <= i < s.len() && (#[trigger] s[i]).target_allocation_blocks_begin.index == t;
        let p = lo + n - 1;
        assert(i >= lo);
        if n > 1 {
            assert(s[p - 1].target() == begin + (n - 2) * size);
            assert((n - 2) * size + size == (n - 1) * size) by (nonlinear_arith);
            if i < p {
                assert(s[i].target() == begin + (i - lo) * size);
                assert((i - lo) * size <= (n - 2) * size) by (nonlinear_arith)
                    requires
                        i - lo <= n - 2,
                        size > 0,
                ;
            }
            if i > p {
                assert(s[p - 1].wf(l) && s[p].wf(l));
                assert(s[p - 1].target() < s[p].target());
                assert(s[p].target() < s[i].target());
                align::lemma_aligned_gap(s[p - 1].target(), s[p].target(), l);
            }
        } else {
            assert((n - 1) * size == 0) by (nonlinear_arith)
                requires
                    n == 1,
            ;
            if i > p {
                assert(s[p].target() < s[i].target());
            }
        }
        assert(i == p);
    }
}

/// Missing entries are inserted for all Authentication Tree Data Blocks from the one
/// containing the requested range's beginning up to the first boundary past its end.
pub proof fn law_insertion_region_is_aligned(states: AuthTreeDataBlocksUpdateStates, target_range: PhysicalAllocBlockRange)
    ensures
        ({
            let size = align::block_size(states.auth_tree_data_block_allocation_blocks_log2 as nat);
            let (begin, end) = states.insertion_region(target_range);
            &&& begin % size == 0
            &&& end % size == 0
            &&& begin <= target_range.begin.index < begin + size
            &&& target_range.end.index <= end < target_range.end.index + size
        }),
{
    let l = states.auth_log2();
    reveal(align::align_down);
    align::lemma_block_size_pos(l);
    align::lemma_align_down_bounds(target_range.begin.index as int, l);
    align::lemma_align_down_bounds(target_range.end.index as int, l);
    align::lemma_aligned_next(align::align_down(target_range.end.index as int, l), l);
}

} // verus!
