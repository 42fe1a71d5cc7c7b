//! Relations between what's on storage and what's loaded for a transaction.
use crate::align;
use crate::alloc_bitmap::AllocBitmap;
use crate::block_state::AllocationBlockUpdateNvSyncState;
use crate::block_state_laws;
use crate::fs::NvFsError;
use crate::layout::PhysicalAllocBlockIndex;
use crate::read_progress;
use crate::read_request;
use crate::read_request::TransactionReadMissingDataFutureNvChipReadRequest;
use crate::states::AuthTreeDataBlocksUpdateStates;
use crate::states_index::{
    AuthTreeDataBlocksUpdateStatesAllocationBlocksIndexRange, AuthTreeDataBlocksUpdateStatesIndexRange,
};
use crate::states_laws;
use crate::transaction::Transaction;
use vstd::prelude::*;

verus! {

/// Distance of an entry from the beginning of a range.
pub open spec fn distance(
    states: AuthTreeDataBlocksUpdateStates,
    range: AuthTreeDataBlocksUpdateStatesAllocationBlocksIndexRange,
    b: int,
    k: int,
) -> int {
    (b - range.begin.auth_tree_data_blocks_update_states_index.index) * align::block_size(
        states.auth_tree_data_block_allocation_blocks_log2 as nat,
    ) + (k - range.begin.allocation_block_index_in_auth_tree_data_block)
}

/// Target location of an entry.
pub open spec fn own_target(states: AuthTreeDataBlocksUpdateStates, b: int, k: int) -> int {
    states.states@[b].target_allocation_blocks_begin.index + k
}

/// Location of an entry's Journal Staging Copy.
pub open spec fn own_journal(states: AuthTreeDataBlocksUpdateStates, b: int, k: int) -> int {
    states.states@[b].journal_staging_copy_allocation_blocks_begin->Some_0.index + k
}

/// An entry's Journal Staging Copy is the target location itself.
pub open spec fn in_place(states: AuthTreeDataBlocksUpdateStates, b: int) -> bool {
    states.states@[b].journal_staging_copy_allocation_blocks_begin == Some(
        states.states@[b].target_allocation_blocks_begin,
    )
}

/// Relation of the `i`-th buffer of a request to the entry at that distance.
pub proof fn lemma_own_locations(
    states: AuthTreeDataBlocksUpdateStates,
    request: TransactionReadMissingDataFutureNvChipReadRequest,
    b: int,
    k: int,
)
    requires
        states.wf(),
        request.set_up_for(&states),
        request.read_region_states_allocation_blocks_index_range.has(b, k),
        0 <= k < align::block_size(states.auth_tree_data_block_allocation_blocks_log2 as nat),
    ensures
        ({
            let range = request.read_region_states_allocation_blocks_index_range;
            let i = distance(states, range, b, k);
            &&& 0 <= b < states.states@.len()
            &&& 0 <= i < request.dst_allocation_block_buffers@.len()
            &&& i == b * states.block_len() + k - range.begin.position(states.auth_log2())
            &&& states.block_target(range.begin) + i == own_target(states, b, k)
            &&& own_target(states, b, k) <= u64::MAX
            &&& states.block_at(range.begin.position(states.auth_log2()) + i) == states.block(b, k)
            &&& !request.read_from_target ==> {
                &&& states.states@[b].journal_staging_copy_allocation_blocks_begin is Some
                &&& states.block_journal(range.begin) == Some(own_journal(states, b, k) - i)
                &&& own_journal(states, b, k) <= u64::MAX
                &&& in_place(states, b) <==> states.block_journal(range.begin) == Some(
                    states.block_target(range.begin),
                )
            }
        }),
{
    let range = request.read_region_states_allocation_blocks_index_range;
    let c = AuthTreeDataBlocksUpdateStatesIndexRange::covering(range);
    let l = states.auth_log2();
    let s = align::block_size(l);
    let (b0, k0) = (range.begin.block(), range.begin.offset());
    let (b1, k1) = (range.end.block(), range.end.offset());
    align::lemma_block_size_pos(l);
    assert((b - b0) * s == b * s - b0 * s) by (nonlinear_arith);
    assert((b1 - b) * s == b1 * s - b * s) by (nonlinear_arith);
    if b < b1 {
        assert((b1 - b) * s >= s) by (nonlinear_arith)
            requires
                b1 - b >= 1,
                s > 0,
        ;
    }
    if b0 < b {
        assert((b - b0) * s >= s) by (nonlinear_arith)
            requires
                b - b0 >= 1,
                s > 0,
        ;
    }
    vstd::arithmetic::div_mod::lemma_fundamental_div_mod_converse(b * s + k, s, b, k);
    assert(b * s + k == s * b + k) by (nonlinear_arith);
    assert(c.0 <= b < c.1);
    assert(states.states@[b].target() == states.states@[b0].target() + (b - b0) * s);
    assert(states.states@[b].wf(l));
    if !request.read_from_target {
        let _ = states.states@[b0];
        states.lemma_journal_room(b);
    }
}

/// Journal Staging Copies are read back as what had been written to them.
///
/// With each block's Journal Staging Copy having been disguised for its own locations,
/// i.e. the Journal Staging Copy's and the target's, each block's data missing before is
/// loaded, and nothing else is changed.
pub proof fn law_disguised_staging_copies_are_read_back<
    F: Fn(PhysicalAllocBlockIndex, PhysicalAllocBlockIndex, Vec<u8>) -> Result<Vec<u8>, NvFsError>,
>(
    t: Transaction,
    u: Transaction,
    request: TransactionReadMissingDataFutureNvChipReadRequest,
    undisguise: F,
    data: Seq<Option<Vec<u8>>>,
    disguise: spec_fn(int, int, Seq<u8>) -> Seq<u8>,
    contents: spec_fn(int, int) -> Seq<u8>,
    b: int,
    k: int,
)
    requires
        t.auth_tree_data_blocks_update_states.wf(),
        request.set_up_for(&t.auth_tree_data_blocks_update_states),
        // The request has been completed.
        request.data_read(&t, undisguise, data),
        u.auth_tree_data_blocks_update_states.data_loaded(
            &t.auth_tree_data_blocks_update_states,
            request.read_region_states_allocation_blocks_index_range.begin.position(
                t.auth_tree_data_blocks_update_states.auth_log2(),
            ),
            data,
        ),
        // Undisguising reverts the disguise.
        forall|journal: PhysicalAllocBlockIndex, target: PhysicalAllocBlockIndex, buffer: Vec<u8>, plain: Vec<u8>, x: Seq<u8>|
            #![trigger call_ensures(undisguise, (journal, target, buffer), Ok::<Vec<u8>, NvFsError>(plain)), disguise(
                journal.index as int,
                target.index as int,
                x,
            )]
            call_ensures(undisguise, (journal, target, buffer), Ok::<Vec<u8>, NvFsError>(plain)) && buffer@ == disguise(
                journal.index as int,
                target.index as int,
                x,
            ) ==> plain@ == x,
        // Everything read is disguised for the respective block's own locations.
        forall|b: int, k: int|
            request.read_region_states_allocation_blocks_index_range.has(b, k) && 0 <= k < align::block_size(
                t.auth_tree_data_blocks_update_states.auth_tree_data_block_allocation_blocks_log2 as nat,
            ) ==> (request.dst_allocation_block_buffers@[#[trigger] distance(
                t.auth_tree_data_blocks_update_states,
                request.read_region_states_allocation_blocks_index_range,
                b,
                k,
            )] matches Some(buffer) ==> buffer@ == disguise(
                own_journal(t.auth_tree_data_blocks_update_states, b, k),
                own_target(t.auth_tree_data_blocks_update_states, b, k),
                contents(b, k),
            )),
        t.journal_staging_copy_disguise_enabled,
        !request.read_from_target,
        !in_place(t.auth_tree_data_blocks_update_states, b),
        request.read_region_states_allocation_blocks_index_range.has(b, k),
        0 <= k < align::block_size(
            t.auth_tree_data_blocks_update_states.auth_tree_data_block_allocation_blocks_log2 as nat,
        ),
    ensures
        ({
            let old_state = t.auth_tree_data_blocks_update_states.states@[b].allocation_blocks_states@[k];
            let new_state = u.auth_tree_data_blocks_update_states.states@[b].allocation_blocks_states@[k];
            if old_state.nv_sync_state.lacks_data() {
                &&& is_loaded_with(new_state.nv_sync_state, contents(b, k))
                &&& block_state_laws::dropped(new_state.nv_sync_state) == old_state.nv_sync_state
                &&& new_state.staged_update == old_state.staged_update
            } else {
                new_state == old_state
            }
        }),
{
    let states = t.auth_tree_data_blocks_update_states;
    let range = request.read_region_states_allocation_blocks_index_range;
    lemma_own_locations(states, request, b, k);
    let i = distance(states, range, b, k);
    let _ = u.auth_tree_data_blocks_update_states.block(b, k);
    let _ = data[i];
    let _ = request.dst_allocation_block_buffers@[i];
    if states.block(b, k).nv_sync_state.lacks_data() {
        let buffer = request.dst_allocation_block_buffers@[i]->Some_0;
        assert(data[i] is Some);
        let plain = data[i]->Some_0;
        let journal = PhysicalAllocBlockIndex { index: own_journal(states, b, k) as u64 };
        let target = PhysicalAllocBlockIndex { index: own_target(states, b, k) as u64 };
        assert(call_ensures(undisguise, (journal, target, buffer), Ok::<Vec<u8>, NvFsError>(plain)));
        assert(buffer@ == disguise(journal.index as int, target.index as int, contents(b, k)));
        assert(plain@ == contents(b, k));
        block_state_laws::law_data_read_is_loaded(states.block(b, k).nv_sync_state, plain);
    }
}

/// An Allocation Block's data, or the remnants thereof in case it's unallocated, are
/// available. Nothing is known about their authenticity.
pub open spec fn is_loaded_with(nv_sync_state: AllocationBlockUpdateNvSyncState, contents: Seq<u8>) -> bool {
    match nv_sync_state {
        AllocationBlockUpdateNvSyncState::Unallocated(unallocated) => {
            unallocated.random_fillup matches Some(fillup) && fillup@ == contents
        },
        AllocationBlockUpdateNvSyncState::Allocated(_) => {
            nv_sync_state.data() == Some((contents, false))
        },
    }
}

/// Whatever is read from the target location, or from a Journal Staging Copy not
/// disguised, is loaded as is.
pub proof fn law_undisguised_data_is_loaded_as_is<
    F: Fn(PhysicalAllocBlockIndex, PhysicalAllocBlockIndex, Vec<u8>) -> Result<Vec<u8>, NvFsError>,
>(
    t: Transaction,
    u: Transaction,
    request: TransactionReadMissingDataFutureNvChipReadRequest,
    undisguise: F,
    data: Seq<Option<Vec<u8>>>,
    b: int,
    k: int,
)
    requires
        t.auth_tree_data_blocks_update_states.wf(),
        request.set_up_for(&t.auth_tree_data_blocks_update_states),
        request.data_read(&t, undisguise, data),
        u.auth_tree_data_blocks_update_states.data_loaded(
            &t.auth_tree_data_blocks_update_states,
            request.read_region_states_allocation_blocks_index_range.begin.position(
                t.auth_tree_data_blocks_update_states.auth_log2(),
            ),
            data,
        ),
        !t.journal_staging_copy_disguise_enabled || request.read_from_target || in_place(
            t.auth_tree_data_blocks_update_states,
            b,
        ),
        request.read_region_states_allocation_blocks_index_range.has(b, k),
        0 <= k < align::block_size(
            t.auth_tree_data_blocks_update_states.auth_tree_data_block_allocation_blocks_log2 as nat,
        ),
    ensures
        ({
            let old_state = t.auth_tree_data_blocks_update_states.states@[b].allocation_blocks_states@[k];
            let new_state = u.auth_tree_data_blocks_update_states.states@[b].allocation_blocks_states@[k];
            let buffer = request.dst_allocation_block_buffers@[distance(
                t.auth_tree_data_blocks_update_states,
                request.read_region_states_allocation_blocks_index_range,
                b,
                k,
            )];
            if old_state.nv_sync_state.lacks_data() {
                &&& buffer is Some
                &&& is_loaded_with(new_state.nv_sync_state, buffer->Some_0@)
                &&& block_state_laws::dropped(new_state.nv_sync_state) == old_state.nv_sync_state
                &&& new_state.staged_update == old_state.staged_update
            } else {
                buffer is None && new_state == old_state
            }
        }),
{
    let states = t.auth_tree_data_blocks_update_states;
    let range = request.read_region_states_allocation_blocks_index_range;
    lemma_own_locations(states, request, b, k);
    let i = distance(states, range, b, k);
    let _ = u.auth_tree_data_blocks_update_states.block(b, k);
    let _ = request.dst_allocation_block_buffers@[i];
    if states.block(b, k).nv_sync_state.lacks_data() {
        block_state_laws::law_data_read_is_loaded(
            states.block(b, k).nv_sync_state,
            request.dst_allocation_block_buffers@[i]->Some_0,
        );
    }
}

/// Entries outside the region read are not affected, and neither is any entry's
/// location, nor any authentication digest.
pub proof fn law_loading_is_confined_to_region<
    F: Fn(PhysicalAllocBlockIndex, PhysicalAllocBlockIndex, Vec<u8>) -> Result<Vec<u8>, NvFsError>,
>(
    t: Transaction,
    u: Transaction,
    request: TransactionReadMissingDataFutureNvChipReadRequest,
    undisguise: F,
    data: Seq<Option<Vec<u8>>>,
    b: int,
    k: int,
)
    requires
        t.auth_tree_data_blocks_update_states.wf(),
        request.set_up_for(&t.auth_tree_data_blocks_update_states),
        request.data_read(&t, undisguise, data),
        u.auth_tree_data_blocks_update_states.data_loaded(
            &t.auth_tree_data_blocks_update_states,
            request.read_region_states_allocation_blocks_index_range.begin.position(
                t.auth_tree_data_blocks_update_states.auth_log2(),
            ),
            data,
        ),
        0 <= b < t.auth_tree_data_blocks_update_states.states@.len(),
        0 <= k < align::block_size(
            t.auth_tree_data_blocks_update_states.auth_tree_data_block_allocation_blocks_log2 as nat,
        ),
    ensures
        ({
            let (o, f) = (
                t.auth_tree_data_blocks_update_states.states@[b],
                u.auth_tree_data_blocks_update_states.states@[b],
            );
            &&& !request.read_region_states_allocation_blocks_index_range.has(b, k) ==> f.allocation_blocks_states@[k]
                == o.allocation_blocks_states@[k]
            &&& f.target_allocation_blocks_begin == o.target_allocation_blocks_begin
            &&& f.journal_staging_copy_allocation_blocks_begin == o.journal_staging_copy_allocation_blocks_begin
            &&& f.auth_digest == o.auth_digest
        }),
{
    let states = t.auth_tree_data_blocks_update_states;
    let range = request.read_region_states_allocation_blocks_index_range;
    let s = states.block_len();
    align::lemma_block_size_pos(states.auth_log2());
    let _ = u.auth_tree_data_blocks_update_states.states@[b];
    let _ = u.auth_tree_data_blocks_update_states.block(b, k);
    if !range.has(b, k) {
        let (b0, b1) = (range.begin.block(), range.end.block());
        if b < b0 {
            assert(b * s + s <= b0 * s) by (nonlinear_arith)
                requires
                    b + 1 <= b0,
                    s > 0,
            ;
        }
        if b > b1 {
            assert(b * s >= b1 * s + s) by (nonlinear_arith)
                requires
                    b >= b1 + 1,
                    s > 0,
            ;
        }
    }
}

/// Outcome of undisguising an entry's Journal Staging Copy for the entry's own
/// locations.
pub open spec fn undisguised_with<
    F: Fn(PhysicalAllocBlockIndex, PhysicalAllocBlockIndex, Vec<u8>) -> Result<Vec<u8>, NvFsError>,
>(
    undisguise: F,
    states: AuthTreeDataBlocksUpdateStates,
    b: int,
    k: int,
    buffer: Vec<u8>,
    r: Result<Vec<u8>, NvFsError>,
) -> bool {
    call_ensures(
        undisguise,
        (
            PhysicalAllocBlockIndex { index: own_journal(states, b, k) as u64 },
            PhysicalAllocBlockIndex { index: own_target(states, b, k) as u64 },
            buffer,
        ),
        r,
    )
}

/// An Allocation Block is undisguised for its own locations, and failure to do so is
/// reported.
pub proof fn law_undisguise_failure_is_reported<
    F: Fn(PhysicalAllocBlockIndex, PhysicalAllocBlockIndex, Vec<u8>) -> Result<Vec<u8>, NvFsError>,
>(t: Transaction, request: TransactionReadMissingDataFutureNvChipReadRequest, undisguise: F, e: NvFsError)
    requires
        t.auth_tree_data_blocks_update_states.wf(),
        request.set_up_for(&t.auth_tree_data_blocks_update_states),
        request.undisguise_failed(&t, undisguise, e),
    ensures
        t.journal_staging_copy_disguise_enabled,
        !request.read_from_target,
        ({
            let states = t.auth_tree_data_blocks_update_states;
            let range = request.read_region_states_allocation_blocks_index_range;
            exists|b: int, k: int, buffer: Vec<u8>|
                #![trigger range.has(b, k), undisguised_with(undisguise, states, b, k, buffer, Err(e))]
                {
                    &&& range.has(b, k)
                    &&& 0 <= k < align::block_size(states.auth_tree_data_block_allocation_blocks_log2 as nat)
                    &&& !in_place(states, b)
                    &&& request.dst_allocation_block_buffers@[distance(states, range, b, k)] == Some(buffer)
                    &&& undisguised_with(undisguise, states, b, k, buffer, Err(e))
                }
        }),
{
    let states = t.auth_tree_data_blocks_update_states;
    let range = request.read_region_states_allocation_blocks_index_range;
    let l = states.auth_log2();
    let s = states.block_len();
    let i = choose|i: int|
        0 <= i < request.dst_allocation_block_buffers@.len()
            && #[trigger] read_request::undisguised_at(
            undisguise,
            states.block_journal(range.begin)->Some_0,
            states.block_target(range.begin),
            request.dst_allocation_block_buffers@,
            i,
            Err(e),
        );
    align::lemma_block_size_pos(l);
    let p = range.begin.position(l) + i;
    let (b, k) = (p / s, p % s);
    vstd::arithmetic::div_mod::lemma_fundamental_div_mod(p, s);
    assert(s * b == b * s) by (nonlinear_arith);
    let (b0, b1) = (range.begin.block(), range.end.block());
    if b < b0 {
        assert(b * s + s <= b0 * s) by (nonlinear_arith)
            requires
                b + 1 <= b0,
                s > 0,
        ;
    }
    if b > b1 {
        assert(b * s >= b1 * s + s) by (nonlinear_arith)
            requires
                b >= b1 + 1,
                s > 0,
        ;
    }
    assert(range.has(b, k));
    lemma_own_locations(states, request, b, k);
    assert(distance(states, range, b, k) == i);
    let buffer = request.dst_allocation_block_buffers@[i]->Some_0;
    assert(undisguised_with(undisguise, states, b, k, buffer, Err(e)));
}

/// A read request's destination buffers are associated with the storage locations of
/// the respective entries: each of the region's chunks is read either from the
/// entry's target location or from its Journal Staging Copy.
pub proof fn law_requests_read_from_own_locations(
    t: Transaction,
    u: Transaction,
    range: AuthTreeDataBlocksUpdateStatesAllocationBlocksIndexRange,
    read_from_target: bool,
    request: TransactionReadMissingDataFutureNvChipReadRequest,
    alloc_bitmap: &AllocBitmap,
    b: int,
    k: int,
)
    requires
        u.auth_tree_data_blocks_update_states.wf(),
        read_progress::request_prepared(&t, &u, range, read_from_target, &request, alloc_bitmap),
        request.read_region_states_allocation_blocks_index_range.has(b, k),
        0 <= k < align::block_size(
            u.auth_tree_data_blocks_update_states.auth_tree_data_block_allocation_blocks_log2 as nat,
        ),
    ensures
        ({
            let states = u.auth_tree_data_blocks_update_states;
            let i = distance(states, request.read_region_states_allocation_blocks_index_range, b, k);
            let unit = align::block_size(states.allocation_block_size_128b_log2 as nat);
            let location = if read_from_target {
                own_target(states, b, k)
            } else {
                own_journal(states, b, k)
            };
            &&& request.read_from_target == read_from_target
            &&& request.request_io_region.chunk_size_128b_log2 == states.allocation_block_size_128b_log2
            &&& request.request_io_region.physical_begin_128b + i * unit == location * unit
            &&& request.request_io_region.physical_begin_128b + request.dst_allocation_block_buffers@.len() * unit
                == request.request_io_region.physical_end_128b
            &&& 0 <= i < request.dst_allocation_block_buffers@.len()
            // There's a destination buffer exactly for the data missing.
            &&& request.dst_allocation_block_buffers@[i] is Some
                <==> states.states@[b].allocation_blocks_states@[k].nv_sync_state.lacks_data()
            &&& !read_from_target ==> states.states@[b].journal_staging_copy_allocation_blocks_begin is Some
            // The buffers are initialized, and of the Allocation Block size.
            &&& request.dst_allocation_block_buffers@[i] matches Some(buffer) ==> buffer@.len() == 128 * unit
                && forall|j: int| 0 <= j < buffer@.len() ==> #[trigger] buffer@[j] == 0
        }),
{
    let states = u.auth_tree_data_blocks_update_states;
    let region = request.read_region_states_allocation_blocks_index_range;
    lemma_own_locations(states, request, b, k);
    let i = distance(states, region, b, k);
    let unit = align::block_size(states.allocation_block_size_128b_log2 as nat);
    let begin = read_request::read_source(&states, region, read_from_target)->Some_0;
    let n = request.dst_allocation_block_buffers@.len();
    assert(begin * unit + i * unit == (begin + i) * unit) by (nonlinear_arith);
    assert(begin * unit + n * unit == (begin + n) * unit) by (nonlinear_arith);
    let _ = request.dst_allocation_block_buffers@[i];
    let a = states.allocation_block_size_128b_log2 as nat;
    align::lemma_block_size_split(a, a + 7);
    vstd::arithmetic::power2::lemma2_to64();
    assert(align::block_size(7) == 128);
    assert(align::block_size(a) * 128 == 128 * align::block_size(a));
}

/// A read cannot get submitted exactly if the Journal Staging Copy to be read from is not
/// assigned throughout or not contiguous, or if the region's end is not representable.
pub proof fn law_impossible_reads_are_rejected(
    states: AuthTreeDataBlocksUpdateStates,
    range: AuthTreeDataBlocksUpdateStatesAllocationBlocksIndexRange,
    read_from_target: bool,
)
    requires
        states.wf(),
        states.valid_blocks_range(&range),
        range.begin != range.end,
    ensures
        ({
            let size = align::block_size(states.auth_tree_data_block_allocation_blocks_log2 as nat);
            let unit = align::block_size(states.allocation_block_size_128b_log2 as nat);
            let len = (range.end.block() - range.begin.block()) * size + range.end.offset() - range.begin.offset();
            let first = states.states@[range.begin.block()];
            let last = if range.end.offset() == 0 {
                range.end.block() - 1
            } else {
                range.end.block()
            };
            let journal_available = {
                &&& first.journal_staging_copy_allocation_blocks_begin is Some
                &&& forall|i: int|
                    range.begin.block() < i <= last ==> (
                    #[trigger] states.states@[i]).journal_staging_copy_allocation_blocks_begin is Some
                        && states.states@[i - 1].journal_staging_copy_allocation_blocks_begin is Some
                        && states.states@[i].journal_staging_copy_allocation_blocks_begin->Some_0.index
                        == states.states@[i - 1].journal_staging_copy_allocation_blocks_begin->Some_0.index + size
            };
            let begin = if read_from_target {
                own_target(states, range.begin.block(), range.begin.offset())
            } else {
                own_journal(states, range.begin.block(), range.begin.offset())
            };
            read_request::read_impossible(&states, range, read_from_target) <==> {
                ||| !read_from_target && !journal_available
                ||| len > usize::MAX
                ||| (begin + len) * unit > u64::MAX
            }
        }),
{
    let c = AuthTreeDataBlocksUpdateStatesIndexRange::covering(range);
    let size = states.block_len();
    let (b0, b1) = (range.begin.block(), range.end.block());
    align::lemma_block_size_pos(states.auth_log2());
    assert((b1 - b0) * size == b1 * size - b0 * size) by (nonlinear_arith);
    states_laws::law_journal_contiguity_is_local(states, c.0, c.1);
    let _ = states.states@[b0];
}

} // verus!
