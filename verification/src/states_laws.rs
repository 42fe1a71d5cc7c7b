//! Relations between the operations on collections of update tracking states.
use crate::align;
use crate::alloc_bitmap::{AllocBitmap, SparseAllocBitmap};
use crate::apply;
use crate::block_state::{
    AllocationBlockUpdateNvSyncState, AllocationBlockUpdateNvSyncStateAllocated,
    AllocationBlockUpdateNvSyncStateUnallocatedTargetState, AllocationBlockUpdateStagedUpdate,
    AllocationBlockUpdateState,
};
use crate::block_state_laws;
use crate::digest;
use crate::fs::{CryptoError, NvFsError};
use crate::insert;
use crate::iter;
use crate::iter::AuthTreeDataBlocksUpdateStatesAllocationBlocksIter;
use crate::layout::{PhysicalAllocBlockIndex, PhysicalAllocBlockRange};
use crate::read_region::AllocationBlockNvSyncStateInfo;
use crate::staged;
use crate::states;
use crate::states::{AuthTreeDataBlockUpdateState, AuthTreeDataBlocksUpdateStates};
use crate::states_index;
use crate::states_index::{
    AuthTreeDataBlocksUpdateStatesAllocationBlockIndex, AuthTreeDataBlocksUpdateStatesAllocationBlocksIndexRange,
    AuthTreeDataBlocksUpdateStatesIndexRange,
};
use vstd::prelude::*;
use vstd::std_specs::convert::FromSpec;

verus! {

/// Applying staged updates drops the authentication digest of any Authentication Tree
/// Data Block with a storage tracking state changed, in particular if any of its
/// Allocation Blocks got deallocated or contributes something else.
///
/// Conversely, a digest is dropped only if there had been something staged.
pub proof fn law_outdated_digests_are_dropped(
    old_states: AuthTreeDataBlocksUpdateStates,
    new_states: AuthTreeDataBlocksUpdateStates,
    range: Option<&AuthTreeDataBlocksUpdateStatesAllocationBlocksIndexRange>,
    alloc_bitmap: &AllocBitmap,
    b: int,
    k: int,
)
    requires
        old_states.wf(),
        new_states.mapped(
            &old_states,
            |b: int, k: int| apply::selected(range, b, k),
            |b: int, k: int| old_states.block_with_staged_applied(b, k, alloc_bitmap),
        ),
        forall|b: int|
            0 <= b < old_states.states@.len() ==> (#[trigger] new_states.states@[b]).auth_digest
                == if old_states.application_updates_block(range, b) {
                None
            } else {
                old_states.states@[b].auth_digest
            },
        0 <= b < old_states.states@.len(),
        0 <= k < old_states.states@[b].allocation_blocks_states@.len(),
    ensures
        ({
            let (old_state, new_state) = (
                old_states.states@[b].allocation_blocks_states@[k],
                new_states.states@[b].allocation_blocks_states@[k],
            );
            let auth_digest = new_states.states@[b].auth_digest;
            &&& new_state.nv_sync_state != old_state.nv_sync_state ==> auth_digest is None
            &&& old_state.nv_sync_state is Allocated && new_state.nv_sync_state is Unallocated ==> auth_digest is None
            &&& digest::digest_contribution(new_state, true) != digest::digest_contribution(old_state, true)
                ==> auth_digest is None
            &&& digest::digest_contribution(new_state, false) != digest::digest_contribution(old_state, false)
                ==> auth_digest is None
            // What's been staged is in effect now, anything else is not affected.
            &&& if apply::selected(range, b, k) {
                &&& new_state.authenticated_data() == old_state.authenticated_data()
                &&& old_state.staged_update matches AllocationBlockUpdateStagedUpdate::Update { encrypted_data }
                    ==> digest::digest_contribution(new_state, true) == Ok::<Option<Seq<u8>>, NvFsError>(
                    Some(encrypted_data@),
                )
                &&& old_state.staged_update is Deallocate ==> new_state.nv_sync_state is Unallocated
                &&& !(new_state.staged_update is Update) && !(new_state.staged_update is Deallocate)
            } else {
                new_state == old_state
            }
        }),
        new_states.states@[b].auth_digest != old_states.states@[b].auth_digest ==> exists|i: int|
            0 <= i < old_states.states@[b].allocation_blocks_states@.len() && apply::selected(range, b, i) && !((
            #[trigger] old_states.states@[b].allocation_blocks_states@[i]).staged_update is NoUpdate),
{
    assert(old_states.states@[b].wf(old_states.auth_log2()));
    assert(old_states.has_block(b, k));
    assert(new_states.block(b, k) == if apply::selected(range, b, k) {
        old_states.block_with_staged_applied(b, k, alloc_bitmap)
    } else {
        old_states.block(b, k)
    });
    let state = old_states.block(b, k);
    let location = old_states.location(b, k);
    let was_allocated = alloc_bitmap.allocated(location);
    let was_initialized = alloc_bitmap.any_allocated(
        align::align_down(location, old_states.io_log2()),
        old_states.io_log2(),
    );
    block_state_laws::law_application_changes_are_reported(state, was_allocated, was_initialized);
    apply::law_application_retains_data(state, was_allocated, was_initialized);
    if apply::selected(range, b, k) && state.application_updates() {
        assert(old_states.application_updates_block(range, b));
    }
    assert(new_states.states@[b].auth_digest == if old_states.application_updates_block(range, b) {
        None
    } else {
        old_states.states@[b].auth_digest
    });
    if old_states.application_updates_block(range, b) {
        let i = choose|i: int|
            old_states.has_block(b, i) && apply::selected(range, b, i) && (#[trigger] old_states.block(
                b,
                i,
            )).application_updates();
        assert(!(old_states.states@[b].allocation_blocks_states@[i].staged_update is NoUpdate));
    }
}

/// After having marked states as written out, every Allocation Block in range is
/// recorded as present in the Journal Staging Copy, whatever is loaded for it. What is
/// loaded is retained, and nothing else is affected.
pub proof fn law_states_marked_clean_are_in_the_journal(
    old_states: AuthTreeDataBlocksUpdateStates,
    new_states: AuthTreeDataBlocksUpdateStates,
    range: AuthTreeDataBlocksUpdateStatesAllocationBlocksIndexRange,
    b: int,
    k: int,
)
    requires
        old_states.wf(),
        old_states.valid_blocks_range(&range),
        new_states.same_digests(&old_states),
        new_states.mapped(
            &old_states,
            |b: int, k: int| range.has(b, k),
            |b: int, k: int|
                (AllocationBlockUpdateState {
                    nv_sync_state: old_states.block(b, k).nv_sync_state.cleaned(),
                    staged_update: old_states.block(b, k).staged_update,
                }),
        ),
        0 <= b < old_states.states@.len(),
        0 <= k < old_states.states@[b].allocation_blocks_states@.len(),
    ensures
        ({
            let (old_state, new_state) = (
                old_states.states@[b].allocation_blocks_states@[k],
                new_states.states@[b].allocation_blocks_states@[k],
            );
            &&& new_states.states@[b].auth_digest == old_states.states@[b].auth_digest
            &&& new_state.staged_update == old_state.staged_update
            &&& new_state.authenticated_data() == old_state.authenticated_data()
            &&& new_state.data_loaded() == old_state.data_loaded()
            &&& digest::digest_contribution(new_state, true) == digest::digest_contribution(old_state, true)
            &&& if range.begin.position(old_states.auth_log2()) <= b * old_states.block_len() + k
                < range.end.position(old_states.auth_log2()) {
                &&& match new_state.nv_sync_state {
                    AllocationBlockUpdateNvSyncState::Unallocated(u) => u.copied_to_journal,
                    AllocationBlockUpdateNvSyncState::Allocated(
                        AllocationBlockUpdateNvSyncStateAllocated::Unmodified(u),
                    ) => u.copied_to_journal,
                    AllocationBlockUpdateNvSyncState::Allocated(
                        AllocationBlockUpdateNvSyncStateAllocated::Modified(m),
                    ) => m is JournalClean,
                }
                &&& block_state_laws::dropped(new_state.nv_sync_state).info() matches
                    AllocationBlockNvSyncStateInfo::NeedsDataRead { can_read_from_journal, .. }
                    && can_read_from_journal
            } else {
                new_state == old_state
            }
        }),
{
    let l = old_states.auth_log2();
    assert(old_states.states@[b].wf(l));
    assert(old_states.has_block(b, k));
    assert(new_states.states@[b].auth_digest == old_states.states@[b].auth_digest);
    law_index_range_is_a_range_of_positions(range, l, b, k);
    let state = old_states.block(b, k);
    assert(new_states.block(b, k) == if range.has(b, k) {
        AllocationBlockUpdateState {
            nv_sync_state: state.nv_sync_state.cleaned(),
            staged_update: state.staged_update,
        }
    } else {
        state
    });
    block_state_laws::law_writing_out_retains_contribution(state, true);
    block_state_laws::law_written_out_blocks_are_found_in_the_journal(state.nv_sync_state);
}

/// An index range selects exactly the entries found in between its ends in the
/// sequence of all of them.
pub proof fn law_index_range_is_a_range_of_positions(
    range: AuthTreeDataBlocksUpdateStatesAllocationBlocksIndexRange,
    auth_log2: nat,
    b: int,
    k: int,
)
    requires
        range.wf(auth_log2),
        0 <= k < align::block_size(auth_log2),
    ensures
        range.has(b, k) <==> range.begin.position(auth_log2) <= b * align::block_size(auth_log2) + k
            < range.end.position(auth_log2),
{
    let s = align::block_size(auth_log2);
    let (p, q) = (range.begin.block(), range.end.block());
    align::lemma_block_size_pos(auth_log2);
    if p < b {
        assert(p * s + s <= b * s) by (nonlinear_arith)
            requires
                p + 1 <= b,
                s >= 0,
        ;
    }
    if b < p {
        assert(b * s + s <= p * s) by (nonlinear_arith)
            requires
                b + 1 <= p,
                s >= 0,
        ;
    }
    if q < b {
        assert(q * s + s <= b * s) by (nonlinear_arith)
            requires
                q + 1 <= b,
                s >= 0,
        ;
    }
    if b < q {
        assert(b * s + s <= q * s) by (nonlinear_arith)
            requires
                b + 1 <= q,
                s >= 0,
        ;
    }
}

/// The image header, and only that, is excluded from authentication digests. Anything
/// else contributes by its own state, regardless of how the header overlaps with the
/// containing Authentication Tree Data Block.
pub proof fn law_contributions_depend_on_location(
    state: AuthTreeDataBlockUpdateState,
    image_header_end: int,
    k: int,
    expect_authenticated_data: bool,
)
    requires
        0 <= k < state.allocation_blocks_states@.len(),
    ensures
        state.digest_input(k, image_header_end, expect_authenticated_data)
            == if state.target_allocation_blocks_begin.index + k < image_header_end {
            Ok::<Option<Seq<u8>>, NvFsError>(None)
        } else {
            digest::digest_contribution(state.allocation_blocks_states@[k], expect_authenticated_data)
        },
{
}

/// An authentication digest is computed over all of the Authentication Tree Data
/// Block's allocated contents past the image header, each block's in its place, and for
/// its location.
pub proof fn law_digest_is_computed_over_contents<
    F: Fn(PhysicalAllocBlockIndex, Vec<Option<&[u8]>>) -> Result<Vec<u8>, NvFsError>,
>(digest_data_block: &F, state: AuthTreeDataBlockUpdateState, image_header_end: int, auth_digest: Vec<u8>)
    requires
        digest::digest_computed(digest_data_block, state, image_header_end, auth_digest),
    ensures
        exists|data: Vec<Option<&[u8]>>|
            {
                &&& #[trigger] call_ensures(
                    digest_data_block,
                    (state.target_allocation_blocks_begin, data),
                    Ok::<Vec<u8>, NvFsError>(auth_digest),
                )
                &&& data@.len() == state.allocation_blocks_states@.len()
                &&& forall|k: int|
                    0 <= k < data@.len() ==> {
                        let nv_sync_state = state.allocation_blocks_states@[k].nv_sync_state;
                        match #[trigger] data@[k] {
                            None => state.target_allocation_blocks_begin.index + k < image_header_end || nv_sync_state
                                is Unallocated,
                            Some(d) => {
                                &&& state.target_allocation_blocks_begin.index + k >= image_header_end
                                &&& nv_sync_state is Allocated
                                &&& block_state_laws::idle(nv_sync_state).authenticated_data() == Some(d@)
                            },
                        }
                    }
            },
{
    let data = choose|data: Vec<Option<&[u8]>>|
        digest::collected(state, image_header_end, data@) && #[trigger] call_ensures(
            digest_data_block,
            (state.target_allocation_blocks_begin, data),
            Ok::<Vec<u8>, NvFsError>(auth_digest),
        );
    assert forall|k: int| 0 <= k < data@.len() implies {
        let nv_sync_state = state.allocation_blocks_states@[k].nv_sync_state;
        match #[trigger] data@[k] {
            None => state.target_allocation_blocks_begin.index + k < image_header_end || nv_sync_state is Unallocated,
            Some(d) => {
                &&& state.target_allocation_blocks_begin.index + k >= image_header_end
                &&& nv_sync_state is Allocated
                &&& block_state_laws::idle(nv_sync_state).authenticated_data() == Some(d@)
            },
        }
    } by {
        law_contributions_depend_on_location(state, image_header_end, k, true);
        block_state_laws::law_contribution_is_what_is_read_back(state.allocation_blocks_states@[k]);
    }
}

/// Once the authentication digests have been updated, there's one for any
/// Authentication Tree Data Block in range with a modified Allocation Block past the
/// image header. Existing ones are retained, and none is created without need.
pub proof fn law_modified_blocks_have_digests<
    F: Fn(PhysicalAllocBlockIndex, Vec<Option<&[u8]>>) -> Result<Vec<u8>, NvFsError>,
>(
    old_states: AuthTreeDataBlocksUpdateStates,
    new_states: AuthTreeDataBlocksUpdateStates,
    begin: int,
    end: int,
    image_header_end: int,
    digest_data_block: &F,
    b: int,
)
    requires
        new_states.digests_updated(&old_states, begin, end, image_header_end, digest_data_block),
        0 <= b < old_states.states@.len(),
    ensures
        old_states.states@[b].auth_digest is Some ==> new_states.states@[b].auth_digest
            == old_states.states@[b].auth_digest,
        !(begin <= b < end) ==> new_states.states@[b].auth_digest == old_states.states@[b].auth_digest,
        begin <= b < end && (exists|k: int|
            0 <= k < old_states.states@[b].allocation_blocks_states@.len() && old_states.states@[b].target() + k
                >= image_header_end && (
            #[trigger] old_states.states@[b].allocation_blocks_states@[k]).modified()) ==> new_states.states@[b].auth_digest is Some,
        new_states.states@[b].auth_digest is Some && old_states.states@[b].auth_digest is None ==> exists|k: int|
            0 <= k < old_states.states@[b].allocation_blocks_states@.len() && old_states.states@[b].target() + k
                >= image_header_end && (#[trigger] old_states.states@[b].allocation_blocks_states@[k]).modified(),
{
    let state = old_states.states@[b];
    let _ = new_states.states@[b];
    if exists|k: int|
        0 <= k < state.allocation_blocks_states@.len() && state.target() + k >= image_header_end && (
        #[trigger] state.allocation_blocks_states@[k]).modified() {
        let k = choose|k: int|
            0 <= k < state.allocation_blocks_states@.len() && state.target() + k >= image_header_end && (
            #[trigger] state.allocation_blocks_states@[k]).modified();
        assert(state.modified_from(state.header_overlap(image_header_end)));
    }
    if new_states.states@[b].auth_digest is Some && old_states.states@[b].auth_digest is None {
        assert(old_states.needs_digest(b, image_header_end));
        let o = state.header_overlap(image_header_end);
        let k = choose|k: int|
            o <= k < state.allocation_blocks_states@.len() && (#[trigger] state.allocation_blocks_states@[k]).modified();
        assert(state.target() + k >= image_header_end);
    }
}

/// The various ways to refer to an entry and its storage location all agree.
pub proof fn law_entries_are_found_at_their_location(
    states: AuthTreeDataBlocksUpdateStates,
    index: AuthTreeDataBlocksUpdateStatesAllocationBlockIndex,
)
    requires
        states.wf(),
        states.valid_block_index(&index),
    ensures
        ({
            let (b, k) = (index.block(), index.offset());
            let p = b * align::block_size(states.auth_tree_data_block_allocation_blocks_log2 as nat) + k;
            let target = states.states@[b].target_allocation_blocks_begin.index + k;
            &&& states.has_block(b, k)
            &&& index.position(states.auth_log2()) == p
            &&& states.location(b, k) == target
            &&& states.block_target(index) == target
            &&& states.target_at(p) == target
            &&& states.block(b, k) == states.states@[b].allocation_blocks_states@[k]
            &&& states.block_at(p) == states.states@[b].allocation_blocks_states@[k]
            &&& match states.states@[b].journal_staging_copy_allocation_blocks_begin {
                Some(j) => states.block_journal(index) == Some(j.index + k),
                None => states.block_journal(index) is None,
            }
        }),
{
    states.lemma_position(index);
    assert(states.states@[index.block()].wf(states.auth_log2()));
}

/// A range of blocks is the same as the extents they span.
pub proof fn law_blocks_are_extents(
    blocks_begin: Seq<PhysicalAllocBlockIndex>,
    extents: Seq<PhysicalAllocBlockRange>,
    block_allocation_blocks_log2: nat,
    location: int,
)
    requires
        blocks_begin.len() == extents.len(),
        forall|i: int|
            0 <= i < extents.len() ==> (#[trigger] extents[i]).begin == blocks_begin[i] && extents[i].end.index
                == blocks_begin[i].index + align::block_size(block_allocation_blocks_log2),
    ensures
        staged::in_blocks(blocks_begin, block_allocation_blocks_log2, location) <==> staged::in_extents(
            extents,
            location,
        ),
        // The individual extents combine.
        staged::in_extents(extents, location) <==> exists|i: int|
            0 <= i < extents.len() && staged::in_extents(seq![#[trigger] extents[i]], location),
{
    if staged::in_blocks(blocks_begin, block_allocation_blocks_log2, location) {
        let i = choose|i: int|
            0 <= i < blocks_begin.len() && (#[trigger] blocks_begin[i]).index <= location < blocks_begin[i].index
                + align::block_size(block_allocation_blocks_log2);
        assert(extents[i].has(location));
    }
    if staged::in_extents(extents, location) {
        let i = choose|i: int| 0 <= i < extents.len() && (#[trigger] extents[i]).has(location);
        assert(extents[i].begin == blocks_begin[i]);
        assert(blocks_begin[i].index <= location);
        assert(seq![extents[i]][0].has(location));
    }
    if exists|i: int| 0 <= i < extents.len() && staged::in_extents(seq![#[trigger] extents[i]], location) {
        let i = choose|i: int| 0 <= i < extents.len() && staged::in_extents(seq![#[trigger] extents[i]], location);
        let j = choose|j: int|
            0 <= j < seq![extents[i]].len() && (#[trigger] seq![extents[i]][j]).has(location);
        assert(extents[i].has(location));
    }
}

/// Splitting a storage range distributes its locations over the two parts, none of
/// them being in both.
pub proof fn law_ranges_are_split(
    range: PhysicalAllocBlockRange,
    head: PhysicalAllocBlockRange,
    tail: PhysicalAllocBlockRange,
    location: int,
)
    requires
        head.wf(),
        tail.wf(),
        head.begin == range.begin,
        head.end == tail.begin,
        tail.end == range.end,
    ensures
        range.has(location) <==> head.has(location) || tail.has(location),
        !(head.has(location) && tail.has(location)),
        head.begin == head.end ==> !head.has(location),
        head.begin != head.end ==> range.has(range.begin.index as int),
        head.end.index == head.begin.index + 1 ==> (head.has(location) <==> location == head.begin.index),
{
}

/// Exactly those Authentication Tree Data Block level entries having any of the
/// selected Allocation Blocks are covered by an index range.
pub proof fn law_covering_range_is_minimal(
    range: AuthTreeDataBlocksUpdateStatesAllocationBlocksIndexRange,
    auth_log2: nat,
    b: int,
)
    requires
        range.wf(auth_log2),
        range.begin != range.end,
        auth_log2 < 64,
    ensures
        ({
            let c = AuthTreeDataBlocksUpdateStatesIndexRange::covering(range);
            c.0 <= b < c.1 <==> exists|k: int| 0 <= k < align::block_size(auth_log2) && #[trigger] range.has(b, k)
        }),
{
    align::lemma_block_size_pos(auth_log2);
    let c = AuthTreeDataBlocksUpdateStatesIndexRange::covering(range);
    let (p, q) = (range.begin, range.end);
    if c.0 <= b < c.1 {
        let k = if b == p.block() {
            p.offset()
        } else {
            0
        };
        assert(range.has(b, k));
    }
}

/// Looking up a storage range gives the index range with exactly those entries for
/// locations in it.
pub proof fn law_lookup_selects_by_location(
    states: AuthTreeDataBlocksUpdateStates,
    target_range: PhysicalAllocBlockRange,
    range: AuthTreeDataBlocksUpdateStatesAllocationBlocksIndexRange,
    b: int,
    k: int,
)
    requires
        states.wf(),
        states.locates(target_range.begin.index as int, range.begin),
        states.locates(target_range.end.index as int, range.end),
        0 <= b < states.states@.len(),
        0 <= k < align::block_size(states.auth_tree_data_block_allocation_blocks_log2 as nat),
    ensures
        range.has(b, k) <==> target_range.begin.index <= states.states@[b].target_allocation_blocks_begin.index + k
            < target_range.end.index,
{
    assert(states.in_block(k));
    let _ = states.states@[b];
}

/// An entry overlaps with a storage range exactly if it has an Allocation Block in it.
pub proof fn law_overlapping_entries_have_blocks_in_range(
    states: AuthTreeDataBlocksUpdateStates,
    i: int,
    range: PhysicalAllocBlockRange,
)
    requires
        0 <= i < states.states@.len(),
        range.begin.index < range.end.index,
    ensures
        states.overlaps(i, range) <==> exists|k: int|
            0 <= k < states.block_len() && range.has(#[trigger] states.location(i, k)),
{
    align::lemma_block_size_pos(states.auth_log2());
    let t = states.states@[i].target();
    if t <= range.begin.index < t + states.block_len() {
        assert(range.has(states.location(i, range.begin.index - t)));
    } else if range.has(t) {
        assert(range.has(states.location(i, 0)));
    }
    if exists|k: int| 0 <= k < states.block_len() && range.has(#[trigger] states.location(i, k)) {
        let k = choose|k: int| 0 <= k < states.block_len() && range.has(#[trigger] states.location(i, k));
        assert(t + k < range.end.index);
    }
}

/// Staging affects nothing but what's staged, and the latest one prevails.
pub proof fn law_staging_is_isolated(
    state: AllocationBlockUpdateState,
    first: AllocationBlockUpdateStagedUpdate,
    second: AllocationBlockUpdateStagedUpdate,
)
    ensures
        state.with_staged(first).nv_sync_state == state.nv_sync_state,
        state.with_staged(first).staged_update == first,
        state.with_staged(first).with_staged(second) == state.with_staged(second),
        state.with_staged(state.staged_update) == state,
        state.with_deallocation_staged() == state.with_staged(AllocationBlockUpdateStagedUpdate::Deallocate),
{
}

/// The initial state of an Allocation Block not tracked before reflects the filesystem's
/// allocation bitmap, with anything pending to get freed staged for deallocation. It's as
/// good as having been tracked all along.
pub proof fn law_fresh_blocks_reflect_bitmaps(
    location: int,
    io_log2: nat,
    alloc_bitmap: &AllocBitmap,
    pending_frees: &SparseAllocBitmap,
)
    ensures
        ({
            let state = insert::fresh_block(location, io_log2, alloc_bitmap, pending_frees);
            let io_begin = location - location % align::block_size(io_log2);
            &&& state.nv_sync_state is Allocated <==> alloc_bitmap.allocated(location)
            &&& state.staged_update is Deallocate <==> alloc_bitmap.allocated(location) && pending_frees.has(location)
            &&& state.staged_update is Deallocate || state.staged_update is NoUpdate
            &&& !state.modified()
            &&& state.authenticated_data() is None
            // Nothing has been written to the journal, everything's in the target location, if
            // there's something at all.
            &&& state.nv_sync_state.info() == if alloc_bitmap.allocated(location) || exists|x: int|
                io_begin <= x < io_begin + align::block_size(io_log2) && #[trigger] alloc_bitmap.allocated(x) {
                AllocationBlockNvSyncStateInfo::NeedsDataRead {
                    can_read_from_target: true,
                    can_read_from_journal: false,
                }
            } else {
                AllocationBlockNvSyncStateInfo::Uninitialized
            }
        }),
{
    reveal(align::align_down);
}

/// An entry populated later on gets its Journal Staging Copy located at the same distance
/// from any of its neighbours' Journal Staging Copies as are the respective target
/// locations. Without a neighbour in the same block there's none assigned.
pub proof fn law_populated_entries_keep_distance(
    s: Seq<AuthTreeDataBlockUpdateState>,
    state: AuthTreeDataBlockUpdateState,
    journal_log2: nat,
    i: int,
)
    requires
        states::journals_wf(s, journal_log2),
        insert::inherits_journal(s, state, journal_log2),
        0 <= i < s.len(),
        s[i].target_allocation_blocks_begin.index as int / align::block_size(journal_log2)
            == state.target_allocation_blocks_begin.index as int / align::block_size(journal_log2),
    ensures
        match s[i].journal_staging_copy_allocation_blocks_begin {
            Some(j) => {
                &&& state.journal_staging_copy_allocation_blocks_begin matches Some(new_j)
                &&& new_j.index - j.index == state.target_allocation_blocks_begin.index
                    - s[i].target_allocation_blocks_begin.index
            },
            None => state.journal_staging_copy_allocation_blocks_begin is None,
        },
{
    align::lemma_blocks_align_down(s[i].target(), journal_log2);
    align::lemma_blocks_align_down(state.target(), journal_log2);
    reveal(align::blocks);
    assert(align::same_block(s[i].target(), state.target(), journal_log2));
    assert(s[i].journal_wf(journal_log2));
}

/// Portions of a Journal Staging Copy block are assigned to exactly the entries within a
/// target block of that size, with the relative offsets preserved.
pub proof fn law_journal_assignment_preserves_offsets(states: AuthTreeDataBlocksUpdateStates, i: int, j: int, base: int)
    requires
        0 <= i < states.states@.len(),
        0 <= j < states.states@.len(),
    ensures
        ({
            let size = if states.io_block_allocation_blocks_log2 > states.auth_tree_data_block_allocation_blocks_log2 {
                align::block_size(states.io_block_allocation_blocks_log2 as nat)
            } else {
                align::block_size(states.auth_tree_data_block_allocation_blocks_log2 as nat)
            };
            let (a, b) = (
                states.states@[i].target_allocation_blocks_begin.index as int,
                states.states@[j].target_allocation_blocks_begin.index as int,
            );
            &&& states.same_journal_block(i, j) <==> a / size == b / size
            &&& states.journal_location(i, base) == base + a % size
            &&& states.same_journal_block(i, j) ==> states.journal_location(i, base) - states.journal_location(j, base)
                == a - b
        }),
{
    let jl = states.journal_log2();
    align::lemma_block_size_pos(jl);
    let (a, b) = (states.states@[i].target(), states.states@[j].target());
    align::lemma_blocks_align_down(a, jl);
    align::lemma_blocks_align_down(b, jl);
    reveal(align::blocks);
    reveal(align::align_down);
}

/// A region is contiguous exactly if any entry is directly followed by the next one.
pub proof fn law_contiguity_is_local(s: Seq<AuthTreeDataBlockUpdateState>, auth_log2: nat, begin: int, end: int)
    requires
        0 <= begin <= end <= s.len(),
    ensures
        states::contiguous(s, auth_log2, begin, end) <==> forall|i: int|
            begin < i < end ==> (#[trigger] s[i]).target_allocation_blocks_begin.index == s[i
                - 1].target_allocation_blocks_begin.index + align::block_size(auth_log2),
    decreases end - begin,
{
    let size = align::block_size(auth_log2);
    if states::contiguous(s, auth_log2, begin, end) {
        assert forall|i: int| begin < i < end implies (#[trigger] s[i]).target() == s[i - 1].target() + size by {
            let _ = s[i - 1];
            assert((i - begin) * size == (i - 1 - begin) * size + size) by (nonlinear_arith);
        }
    }
    if begin < end {
        law_contiguity_is_local(s, auth_log2, begin, end - 1);
        if forall|i: int|
            begin < i < end ==> (#[trigger] s[i]).target_allocation_blocks_begin.index == s[i
                - 1].target_allocation_blocks_begin.index + size {
            assert forall|i: int| begin <= i < end implies (#[trigger] s[i]).target() == s[begin].target() + (i - begin)
                * size by {
                if i == end - 1 && begin < i {
                    let _ = s[i - 1];
                    assert((i - begin) * size == (i - 1 - begin) * size + size) by (nonlinear_arith);
                } else if begin == i {
                    assert((i - begin) * size == 0) by (nonlinear_arith)
                        requires
                            i == begin,
                    ;
                }
            }
        }
    }
}

/// Any contiguous and aligned region is composed of complete blocks of the specified
/// size.
pub proof fn law_aligned_regions_are_complete(
    s: Seq<AuthTreeDataBlockUpdateState>,
    auth_log2: nat,
    begin: int,
    end: int,
    alignment_log2: nat,
)
    requires
        0 <= begin < end <= s.len(),
    ensures
        ({
            let (size, alignment) = (align::block_size(auth_log2), align::block_size(alignment_log2));
            let (first, last) = (
                s[begin].target_allocation_blocks_begin.index as int,
                s[end - 1].target_allocation_blocks_begin.index as int,
            );
            &&& states::contiguous_aligned(s, auth_log2, begin, end, alignment_log2) <==> states::contiguous(
                s,
                auth_log2,
                begin,
                end,
            ) && first % alignment == 0 && (last + size) % alignment == 0
            &&& states::contiguous(s, auth_log2, begin, end) ==> last + size == first + (end - begin) * size
        }),
{
    reveal(align::align_down);
    let size = align::block_size(auth_log2);
    let _ = s[end - 1];
    assert((end - 1 - begin) * size + size == (end - begin) * size) by (nonlinear_arith);
}

/// Extending a range within an alignment gives exactly those entries located in between
/// the beginning of the first one's and the end of the last one's aligned block.
pub proof fn law_extension_is_by_alignment(
    states: AuthTreeDataBlocksUpdateStates,
    range: AuthTreeDataBlocksUpdateStatesIndexRange,
    alignment_log2: nat,
    extended: AuthTreeDataBlocksUpdateStatesIndexRange,
    i: int,
)
    requires
        states.wf(),
        range.begin.index < range.end.index,
        states.extended_range(range, alignment_log2, extended),
        0 <= i < states.states@.len(),
    ensures
        ({
            let alignment = align::block_size(alignment_log2);
            let (first, last) = (
                states.states@[range.begin.index as int].target_allocation_blocks_begin.index as int,
                states.states@[range.end.index - 1].target_allocation_blocks_begin.index as int,
            );
            let target = states.states@[i].target_allocation_blocks_begin.index as int;
            extended.begin.index <= i < extended.end.index <==> first - first % alignment <= target < last - last
                % alignment + alignment
        }),
{
    reveal(align::align_down);
    let a = alignment_log2;
    let s = states.states@;
    let (rb, re) = (range.begin.index as int, range.end.index as int);
    align::lemma_block_size_pos(a);
    align::lemma_align_down_bounds(s[i].target(), a);
    align::lemma_align_down_bounds(s[rb].target(), a);
    align::lemma_align_down_bounds(s[re - 1].target(), a);
    let _ = s[rb];
    let _ = s[re - 1];
    let (x, y, z) = (
        align::align_down(s[i].target(), a),
        align::align_down(s[rb].target(), a),
        align::align_down(s[re - 1].target(), a),
    );
    if x < y {
        align::lemma_aligned_gap(x, y, a);
    }
    if z < x {
        align::lemma_aligned_gap(z, x, a);
    }
    if i < rb {
        assert(s[i].target() < s[rb].target());
    } else if i > rb {
        assert(s[rb].target() < s[i].target());
    }
    if i < re - 1 {
        assert(s[i].target() < s[re - 1].target());
    } else if i > re - 1 {
        assert(s[re - 1].target() < s[i].target());
    }
    if rb < re - 1 {
        assert(s[rb].target() < s[re - 1].target());
    }
    align::lemma_align_down_mono(s[rb].target(), s[re - 1].target(), a);
}

/// The Allocation Blocks iterated over are exactly those selected by the range, or all
/// of them without a range.
pub proof fn law_iteration_covers_selection(
    states: AuthTreeDataBlocksUpdateStates,
    range: Option<&AuthTreeDataBlocksUpdateStatesAllocationBlocksIndexRange>,
    b: int,
    k: int,
)
    requires
        states.wf(),
        range matches Some(range) ==> states.valid_blocks_range(range),
        0 <= b < states.states@.len(),
        0 <= k < align::block_size(states.auth_tree_data_block_allocation_blocks_log2 as nat),
    ensures
        ({
            let size = align::block_size(states.auth_tree_data_block_allocation_blocks_log2 as nat);
            let bounds = states.iteration_bounds(range);
            &&& apply::selected(range, b, k) <==> bounds.0 * size + bounds.1 <= b * size + k < bounds.2 * size + bounds.3
            &&& range is None ==> apply::selected(range, b, k)
            &&& range matches Some(range) ==> (apply::selected(Some(range), b, k) <==> range.has(b, k))
        }),
{
    let size = align::block_size(states.auth_tree_data_block_allocation_blocks_log2 as nat);
    align::lemma_block_size_pos(states.auth_log2());
    match range {
        Some(range) => {
            law_index_range_is_a_range_of_positions(*range, states.auth_log2(), b, k);
        },
        None => {
            assert(b * size >= 0) by (nonlinear_arith)
                requires
                    b >= 0,
                    size > 0,
            ;
            let n = states.states@.len() as int;
            assert(b * size + size <= n * size) by (nonlinear_arith)
                requires
                    b + 1 <= n,
                    size > 0,
            ;
            assert(0 * size == 0);
        },
    }
}

/// Update staging buffers are what's going to be read back, and whatever prevents access
/// to a staging buffer is reported in the same way as when reading.
pub proof fn law_staging_buffers_are_read_back(state: AllocationBlockUpdateState)
    ensures
        iter::staging_buf_error(state) is None <==> state.staged_update is Update && (state.authenticated_data() matches Some(
            data,
        ) && data.len() > 0),
        iter::staging_buf_error(state) is None ==> state.authenticated_data() == Some(iter::staging_buf(state)),
        !(state.staged_update is Update) ==> iter::staging_buf(state).len() == 0,
        iter::staging_buf_error(state) matches Some(e) ==> <NvFsError as FromSpec<CryptoError>>::from_spec(e)
            == if state.staged_update is FailedUpdate {
            NvFsError::FailedDataUpdateRead
        } else {
            NvFsError::CryptoError(CryptoError::Internal)
        },
        iter::staging_buf_error(state) is None <==> apply::has_staging_buf(state),
{
}

/// The combined update staging buffers of adjacent ranges are concatenated.
pub proof fn law_staged_bytes_are_concatenated(
    states: AuthTreeDataBlocksUpdateStates,
    begin: int,
    mid: int,
    end: int,
)
    requires
        begin <= mid <= end,
    ensures
        states.staged_bytes(begin, end) == states.staged_bytes(begin, mid) + states.staged_bytes(mid, end),
        states.staged_bytes(begin, begin + 1) == iter::staging_buf(states.block_at(begin)),
        states.staged_bytes(begin, begin).len() == 0,
    decreases mid - begin,
{
    assert(states.staged_bytes(begin + 1, begin + 1) =~= Seq::empty());
    assert(states.staged_bytes(begin, begin + 1) =~= iter::staging_buf(states.block_at(begin)));
    if begin < mid {
        law_staged_bytes_are_concatenated(states, begin + 1, mid, end);
        assert(states.staged_bytes(begin, end) =~= states.staged_bytes(begin, mid) + states.staged_bytes(mid, end));
    } else {
        assert(states.staged_bytes(begin, end) =~= states.staged_bytes(begin, mid) + states.staged_bytes(mid, end));
    }
}

/// Buffers are found to be all aligned exactly if each of them is there and has its
/// length aligned. A missing buffer is reported unless one misaligned had been found
/// before.
pub proof fn law_all_buffer_lengths_are_tested(
    states: AuthTreeDataBlocksUpdateStates,
    len: int,
    begin: int,
    end: int,
    alignment: int,
)
    requires
        begin <= end,
        alignment > 0,
    ensures
        states.all_buf_lens_aligned(len, begin, end, alignment) == Ok::<bool, CryptoError>(true) <==> len % alignment
            == 0 && forall|p: int|
            begin <= p < end ==> iter::staging_buf_error(#[trigger] states.block_at(p)) is None && iter::staging_buf(
                states.block_at(p),
            ).len() as int % alignment == 0,
        states.all_buf_lens_aligned(len, begin, end, alignment) matches Err(e) ==> exists|p: int|
            begin <= p < end && iter::staging_buf_error(#[trigger] states.block_at(p)) == Some(e),
    decreases end - begin,
{
    if begin < end {
        law_all_buffer_lengths_are_tested(
            states,
            iter::staging_buf(states.block_at(begin)).len() as int,
            begin + 1,
            end,
            alignment,
        );
        let _ = states.block_at(begin);
    }
}

/// The shortcut taken for testing the alignment is only taken if it does not make any
/// difference, with all buffers being of an Allocation Block's size.
pub proof fn law_alignment_shortcut_is_equivalent(
    buffers: AuthTreeDataBlocksUpdateStatesAllocationBlocksIter<'_>,
    head_len: int,
    allocation_block_size_128b_log2: nat,
    alignment: int,
)
    requires
        alignment > 0,
        buffers.wf(),
        ({
            let l = buffers.states.auth_log2();
            forall|p: int|
                buffers.next_index.position(l) <= p < buffers.end.position(l) ==> iter::staging_buf_error(
                    #[trigger] buffers.states.block_at(p),
                ) is None && iter::staging_buf(buffers.states.block_at(p)).len() == align::block_size(
                    allocation_block_size_128b_log2 + 7,
                )
        }),
    ensures
        ({
            let l = buffers.states.auth_log2();
            iter::bufs_aligned(buffers, Some(head_len), allocation_block_size_128b_log2, alignment) == Ok::<
                bool,
                CryptoError,
            >(true) <==> head_len % alignment == 0 && forall|p: int|
                buffers.next_index.position(l) <= p < buffers.end.position(l) ==> iter::staging_buf(
                    #[trigger] buffers.states.block_at(p),
                ).len() as int % alignment == 0
        }),
        iter::bufs_aligned(buffers, None, allocation_block_size_128b_log2, alignment) == Ok::<bool, CryptoError>(true),
{
    let l = buffers.states.auth_log2();
    let (begin, end) = (buffers.next_index.position(l), buffers.end.position(l));
    states_index::lemma_position_injective(buffers.next_index, buffers.end, l);
    let n = allocation_block_size_128b_log2 + 7;
    if alignment <= align::block_size(n) && iter::is_power_of_two(alignment) {
        let a = choose|a: nat| alignment == #[trigger] align::block_size(a);
        if a > n {
            align::lemma_block_size_split(n, a);
            align::lemma_block_size_split(n + 1, a);
            vstd::arithmetic::power2::lemma_pow2_unfold(n + 1);
            align::lemma_block_size_pos(n);
        }
        align::lemma_block_size_split(a, n);
        reveal(align::align_down);
        assert(align::block_size(n) % alignment == 0);
    } else {
        law_all_buffer_lengths_are_tested(*buffers.states, head_len, begin, end, alignment);
    }
}

/// The individual slices handed out are the remainder of the current update staging
/// buffer, followed by the complete buffers of the subsequent Allocation Blocks, in order.
/// They're handed out all unless there's an update staging buffer missing, in which case
/// that's what is reported, and everything up to, but not including, the buffer preceding
/// the missing one is handed out.
pub proof fn law_slices_are_staging_buffers(
    states: AuthTreeDataBlocksUpdateStates,
    head: Seq<u8>,
    begin: int,
    end: int,
    i: int,
)
    requires
        begin <= end,
        0 <= i < states.slices_from(Some(head), begin, end).len(),
    ensures
        ({
            let slices = states.slices_from(Some(head), begin, end);
            &&& slices[i] == if i == 0 {
                head
            } else {
                iter::staging_buf(states.block_at(begin + i - 1))
            }
            &&& begin + i <= end
            &&& match states.slices_error(Some(head), begin, end) {
                None => {
                    &&& slices.len() == end - begin + 1
                    &&& forall|p: int|
                        begin <= p < end ==> iter::staging_buf_error(#[trigger] states.block_at(p)) is None
                },
                Some(e) => {
                    &&& begin + slices.len() < end
                    &&& iter::staging_buf_error(states.block_at(begin + slices.len())) == Some(e)
                    &&& forall|p: int|
                        begin <= p < begin + slices.len() ==> iter::staging_buf_error(#[trigger] states.block_at(p))
                            is None
                },
            }
        }),
        states.slices_from(None, begin, end).len() == 0,
{
    lemma_first_missing_buf(states, begin, end);
}

/// The first Allocation Block without an update staging buffer.
pub proof fn lemma_first_missing_buf(states: AuthTreeDataBlocksUpdateStates, begin: int, end: int)
    requires
        begin <= end,
    ensures
        begin <= states.first_missing_buf(begin, end) <= end,
        forall|p: int|
            begin <= p < states.first_missing_buf(begin, end) ==> iter::staging_buf_error(#[trigger] states.block_at(p))
                is None,
        states.first_missing_buf(begin, end) < end ==> iter::staging_buf_error(
            states.block_at(states.first_missing_buf(begin, end)),
        ) is Some,
    decreases end - begin,
{
    if begin < end && iter::staging_buf_error(states.block_at(begin)) is None {
        lemma_first_missing_buf(states, begin + 1, end);
    }
}

/// Without any update staging buffer missing, the slices handed out combine to all of the
/// remaining bytes.
pub proof fn law_slices_combine_to_remaining_bytes(
    states: AuthTreeDataBlocksUpdateStates,
    head: Seq<u8>,
    begin: int,
    end: int,
)
    requires
        begin <= end,
        states.slices_error(Some(head), begin, end) is None,
    ensures
        states.slices_from(Some(head), begin, end).flatten() == head + states.staged_bytes(begin, end),
    decreases end - begin,
{
    lemma_first_missing_buf(states, begin, end);
    let slices = states.slices_from(Some(head), begin, end);
    assert(slices.first() == head);
    if begin < end {
        let next = iter::staging_buf(states.block_at(begin));
        lemma_first_missing_buf(states, begin + 1, end);
        law_slices_combine_to_remaining_bytes(states, next, begin + 1, end);
        assert(slices.drop_first() =~= states.slices_from(Some(next), begin + 1, end));
        assert(slices.flatten() =~= head + slices.drop_first().flatten());
        assert(head + (next + states.staged_bytes(begin + 1, end)) =~= head + states.staged_bytes(begin, end));
    } else {
        assert(slices.drop_first() =~= Seq::<Seq<u8>>::empty());
        assert(slices.flatten() =~= head + slices.drop_first().flatten());
        assert(slices.flatten() =~= head + states.staged_bytes(begin, end));
    }
}

/// Deallocating an Allocation Block modified before goes by what had been allocated at its
/// own target location, and in the IO block containing it, before the transaction.
pub proof fn law_deallocation_goes_by_own_location(
    states: AuthTreeDataBlocksUpdateStates,
    alloc_bitmap: &AllocBitmap,
    b: int,
    k: int,
)
    requires
        0 <= b < states.states@.len(),
        0 <= k < states.states@[b].allocation_blocks_states@.len(),
        states.states@[b].allocation_blocks_states@[k].staged_update is Deallocate,
        states.states@[b].allocation_blocks_states@[k].nv_sync_state matches AllocationBlockUpdateNvSyncState::Allocated(
            AllocationBlockUpdateNvSyncStateAllocated::Modified(_),
        ),
    ensures
        ({
            let location = states.states@[b].target_allocation_blocks_begin.index + k;
            let io_size = align::block_size(states.io_block_allocation_blocks_log2 as nat);
            let applied = states.block_with_staged_applied(b, k, alloc_bitmap);
            &&& applied.nv_sync_state matches AllocationBlockUpdateNvSyncState::Unallocated(unallocated)
            &&& unallocated.target_state is Allocated <==> alloc_bitmap.allocated(location)
            &&& unallocated.target_state
                matches AllocationBlockUpdateNvSyncStateUnallocatedTargetState::Unallocated { is_initialized } ==> (
            is_initialized <==> exists|x: int|
                location - location % io_size <= x < location - location % io_size + io_size
                    && #[trigger] alloc_bitmap.allocated(x))
        }),
{
    reveal(align::align_down);
}

/// Journal Staging Copies are contiguous exactly if all are assigned, each one directly
/// following the preceding entry's.
pub proof fn law_journal_contiguity_is_local(states: AuthTreeDataBlocksUpdateStates, begin: int, end: int)
    requires
        0 <= begin < end <= states.states@.len(),
    ensures
        states.journal_contiguous(begin, end) <==> {
            &&& states.states@[begin].journal_staging_copy_allocation_blocks_begin is Some
            &&& forall|i: int|
                begin < i < end ==> (#[trigger] states.states@[i]).journal_staging_copy_allocation_blocks_begin is Some
                    && states.states@[i - 1].journal_staging_copy_allocation_blocks_begin is Some
                    && states.states@[i].journal_staging_copy_allocation_blocks_begin->Some_0.index == states.states@[i
                    - 1].journal_staging_copy_allocation_blocks_begin->Some_0.index + align::block_size(
                    states.auth_tree_data_block_allocation_blocks_log2 as nat,
                )
        },
    decreases end - begin,
{
    let s = states.states@;
    let size = states.block_len();
    if states.journal_contiguous(begin, end) {
        let _ = s[begin];
        assert forall|i: int| begin < i < end implies (
        #[trigger] s[i]).journal_staging_copy_allocation_blocks_begin is Some && s[i
            - 1].journal_staging_copy_allocation_blocks_begin is Some
            && s[i].journal_staging_copy_allocation_blocks_begin->Some_0.index == s[i
            - 1].journal_staging_copy_allocation_blocks_begin->Some_0.index + size by {
            let _ = s[i - 1];
            assert((i - begin) * size == (i - 1 - begin) * size + size) by (nonlinear_arith);
        }
    }
    if begin + 1 < end {
        law_journal_contiguity_is_local(states, begin, end - 1);
        let i = end - 1;
        let _ = s[i];
        let _ = s[i - 1];
        assert((i - begin) * size == (i - 1 - begin) * size + size) by (nonlinear_arith);
    } else {
        assert((begin - begin) * size == 0) by (nonlinear_arith);
    }
}

/// An index range extended within an alignment smaller than an Authentication Tree Data
/// Block has exactly those entries located in between the beginning of the first one's and
/// the end of the last one's aligned block.
pub proof fn law_block_extension_is_by_alignment(
    states: AuthTreeDataBlocksUpdateStates,
    range: AuthTreeDataBlocksUpdateStatesAllocationBlocksIndexRange,
    alignment_log2: nat,
    extended: AuthTreeDataBlocksUpdateStatesAllocationBlocksIndexRange,
    last: AuthTreeDataBlocksUpdateStatesAllocationBlockIndex,
    b: int,
    k: int,
)
    requires
        states.wf(),
        states.valid_blocks_range(&range),
        states.valid_blocks_range(&extended),
        states.extended_blocks_range(range, alignment_log2, extended),
        alignment_log2 < states.auth_tree_data_block_allocation_blocks_log2,
        // The last entry in the range.
        states.valid_block_index(&last),
        last.position(states.auth_log2()) + 1 == range.end.position(states.auth_log2()),
        range.begin.position(states.auth_log2()) <= last.position(states.auth_log2()),
        0 <= b < states.states@.len(),
        0 <= k < align::block_size(states.auth_tree_data_block_allocation_blocks_log2 as nat),
    ensures
        ({
            let alignment = align::block_size(alignment_log2);
            let first_location = states.states@[range.begin.block()].target_allocation_blocks_begin.index
                + range.begin.offset();
            let last_location = states.states@[last.block()].target_allocation_blocks_begin.index + last.offset();
            let location = states.states@[b].target_allocation_blocks_begin.index + k;
            extended.has(b, k) <==> first_location - first_location % alignment <= location < last_location
                - last_location % alignment + alignment
        }),
{
    let (l, a) = (states.auth_log2(), alignment_log2);
    let (size, n) = (align::block_size(l), align::block_size(a));
    let s = states.states@;
    let (b0, k0, b1, k1) = (range.begin.block(), range.begin.offset(), last.block(), last.offset());
    align::lemma_block_size_pos(l);
    align::lemma_block_size_pos(a);
    reveal(align::align_down);
    states_index::lemma_position_injective(range.begin, last, l);
    assert(s[b].wf(l) && s[b0].wf(l) && s[b1].wf(l));
    align::lemma_block_size_split(a, l);
    align::lemma_aligned_finer(s[b0].target(), a, l);
    align::lemma_aligned_finer(s[b1].target(), a, l);
    // The aligned offsets within the first and last entries.
    lemma_align_down_with_base(s[b0].target(), k0, a);
    lemma_align_down_with_base(s[b1].target(), k1, a);
    let (first, end) = (align::align_down(k0, a), align::align_down(k1, a) + n);
    align::lemma_align_down_bounds(k0, a);
    align::lemma_align_down_bounds(k1, a);
    align::lemma_aligned_next(align::align_down(k1, a), a);
    align::lemma_aligned_unit(a);
    if align::align_down(k1, a) < size {
        align::lemma_aligned_gap(align::align_down(k1, a), size, a);
    }
    // The extended range's end is directly past the last entry's aligned block.
    let e = extended.end;
    let p = b1 * size + end;
    assert(align::aligned(b1 * size, a)) by {
        align::lemma_multiple_is_aligned(b1, l);
        align::lemma_aligned_finer(b1 * size, a, l);
    }
    assert(align::aligned(e.block() * size, a)) by {
        align::lemma_multiple_is_aligned(e.block(), l);
        align::lemma_aligned_finer(e.block() * size, a, l);
    }
    align::lemma_aligned_sum(b1 * size, end, a);
    align::lemma_aligned_sum(e.block() * size, e.offset(), a);
    if e.position(l) < p {
        align::lemma_aligned_gap(e.position(l), p, a);
        assert(false);
    }
    if p < e.position(l) {
        align::lemma_aligned_gap(p, e.position(l), a);
        assert(false);
    }
    law_index_range_is_a_range_of_positions(extended, l, b, k);
    // Compare by the entry first.
    if b < b0 {
        assert(s[b].target() < s[b0].target());
        align::lemma_aligned_gap(s[b].target(), s[b0].target(), l);
        assert(b * size + size <= b0 * size) by (nonlinear_arith)
            requires
                b + 1 <= b0,
                size > 0,
        ;
    } else if b > b0 {
        assert(s[b0].target() < s[b].target());
        align::lemma_aligned_gap(s[b0].target(), s[b].target(), l);
        assert(b0 * size + size <= b * size) by (nonlinear_arith)
            requires
                b0 + 1 <= b,
                size > 0,
        ;
    }
    if b < b1 {
        assert(s[b].target() < s[b1].target());
        align::lemma_aligned_gap(s[b].target(), s[b1].target(), l);
        assert(b * size + size <= b1 * size) by (nonlinear_arith)
            requires
                b + 1 <= b1,
                size > 0,
        ;
    } else if b > b1 {
        assert(s[b1].target() < s[b].target());
        align::lemma_aligned_gap(s[b1].target(), s[b].target(), l);
        assert(b1 * size + size <= b * size) by (nonlinear_arith)
            requires
                b1 + 1 <= b,
                size > 0,
        ;
    }
}

proof fn lemma_align_down_with_base(base: int, offset: int, log2: nat)
    requires
        align::aligned(base, log2),
    ensures
        align::align_down(base + offset, log2) == base + align::align_down(offset, log2),
{
    align::lemma_align_down_bounds(offset, log2);
    align::lemma_aligned_sum(base, align::align_down(offset, log2), log2);
    align::lemma_align_down_unique(base + offset, base + align::align_down(offset, log2), log2);
}

/// Data is not available for computing an authentication digest exactly if there's an
/// allocated Allocation Block past the image header with no data loaded, or with data not
/// known to be authentic.
pub proof fn law_unavailable_data_is_detected(state: AuthTreeDataBlockUpdateState, image_header_end: int)
    ensures
        digest::data_unavailable(state, image_header_end) <==> exists|k: int|
            0 <= k < state.allocation_blocks_states@.len() && state.target_allocation_blocks_begin.index + k
                >= image_header_end && (
            #[trigger] state.allocation_blocks_states@[k]).nv_sync_state is Allocated && block_state_laws::idle(
                state.allocation_blocks_states@[k].nv_sync_state,
            ).authenticated_data() is None,
{
    let h = image_header_end;
    assert forall|k: int| 0 <= k < state.allocation_blocks_states@.len() implies (#[trigger] state.digest_input(
        k,
        h,
        true,
    ) is Err <==> state.target() + k >= h && state.allocation_blocks_states@[k].nv_sync_state is Allocated
        && block_state_laws::idle(state.allocation_blocks_states@[k].nv_sync_state).authenticated_data() is None) by {
        law_contributions_depend_on_location(state, h, k, true);
        block_state_laws::law_contribution_is_what_is_read_back(state.allocation_blocks_states@[k]);
    }
    if digest::data_unavailable(state, h) {
        let k = choose|k: int|
            0 <= k < state.allocation_blocks_states@.len() && #[trigger] state.digest_input(k, h, true) is Err;
        assert(state.allocation_blocks_states@[k].nv_sync_state is Allocated);
    }
    if exists|k: int|
        0 <= k < state.allocation_blocks_states@.len() && state.target_allocation_blocks_begin.index + k >= h && (
        #[trigger] state.allocation_blocks_states@[k]).nv_sync_state is Allocated && block_state_laws::idle(
            state.allocation_blocks_states@[k].nv_sync_state,
        ).authenticated_data() is None {
        let k = choose|k: int|
            0 <= k < state.allocation_blocks_states@.len() && state.target_allocation_blocks_begin.index + k >= h && (
            #[trigger] state.allocation_blocks_states@[k]).nv_sync_state is Allocated && block_state_laws::idle(
                state.allocation_blocks_states@[k].nv_sync_state,
            ).authenticated_data() is None;
        assert(state.digest_input(k, h, true) is Err);
    }
}

/// There's no Journal Staging Copy assigned to an entry populated later on unless there
/// is one for some neighbour from the same block.
pub proof fn law_populated_entries_inherit_from_neighbours_only(
    s: Seq<AuthTreeDataBlockUpdateState>,
    state: AuthTreeDataBlockUpdateState,
    journal_log2: nat,
)
    requires
        insert::inherits_journal(s, state, journal_log2),
        state.journal_staging_copy_allocation_blocks_begin is Some,
    ensures
        exists|i: int|
            0 <= i < s.len() && (#[trigger] s[i]).journal_staging_copy_allocation_blocks_begin is Some
                && s[i].target_allocation_blocks_begin.index as int / align::block_size(journal_log2)
                == state.target_allocation_blocks_begin.index as int / align::block_size(journal_log2),
{
    let i = choose|i: int|
        0 <= i < s.len() && align::same_block((#[trigger] s[i]).target(), state.target(), journal_log2);
    align::lemma_blocks_align_down(s[i].target(), journal_log2);
    align::lemma_blocks_align_down(state.target(), journal_log2);
    reveal(align::blocks);
}

/// Writing to a slice handed out affects nothing but the respective part of that one update
/// staging buffer.
pub proof fn law_rewriting_is_confined_to_the_slice(
    old_states: AuthTreeDataBlocksUpdateStates,
    new_states: AuthTreeDataBlocksUpdateStates,
    position: iter::StagedUpdateBufPosition,
    len: int,
    contents: Seq<u8>,
    b: int,
    k: int,
    j: int,
)
    requires
        iter::slice_rewritten(&old_states, &new_states, position, len, contents),
        old_states.wf(),
        0 <= b < old_states.states@.len(),
        0 <= k < align::block_size(old_states.auth_tree_data_block_allocation_blocks_log2 as nat),
        contents.len() == len,
        position.offset + len <= iter::staging_buf(
            old_states.states@[position.index.block()].allocation_blocks_states@[position.index.offset()],
        ).len(),
        0 <= j < iter::staging_buf(
            old_states.states@[position.index.block()].allocation_blocks_states@[position.index.offset()],
        ).len(),
        old_states.valid_block_index(&position.index),
    ensures
        ({
            let (o, f) = (old_states.states@[b], new_states.states@[b]);
            &&& f.target_allocation_blocks_begin == o.target_allocation_blocks_begin
            &&& f.journal_staging_copy_allocation_blocks_begin == o.journal_staging_copy_allocation_blocks_begin
            &&& f.auth_digest == o.auth_digest
            &&& f.allocation_blocks_states@[k].nv_sync_state == o.allocation_blocks_states@[k].nv_sync_state
            &&& !(b == position.index.block() && k == position.index.offset()) ==> f.allocation_blocks_states@[k]
                == o.allocation_blocks_states@[k]
        }),
        ({
            let (b, k) = (position.index.block(), position.index.offset());
            let old_buf = iter::staging_buf(old_states.states@[b].allocation_blocks_states@[k]);
            let new_buf = iter::staging_buf(new_states.states@[b].allocation_blocks_states@[k]);
            &&& new_states.states@[b].allocation_blocks_states@[k].staged_update is Update
            &&& new_buf.len() == old_buf.len()
            &&& new_buf[j] == if position.offset <= j < position.offset + len {
                contents[j - position.offset]
            } else {
                old_buf[j]
            }
        }),
{
    let _ = new_states.states@[b];
    let _ = new_states.block(b, k);
}

/// Update staging buffers are allocated for everything in the range up to some position,
/// all of it if complete. Existing ones are retained, and so is everything else.
pub proof fn law_staging_buffers_are_allocated_in_range(
    old_states: AuthTreeDataBlocksUpdateStates,
    new_states: AuthTreeDataBlocksUpdateStates,
    range: AuthTreeDataBlocksUpdateStatesAllocationBlocksIndexRange,
    end_block: int,
    end_offset: int,
    allocation_block_size_128b_log2: nat,
    b: int,
    k: int,
)
    requires
        new_states.staging_bufs_allocated(
            &old_states,
            range,
            end_block,
            end_offset,
            align::block_size(allocation_block_size_128b_log2 + 7),
        ),
        0 <= b < old_states.states@.len(),
        0 <= k < align::block_size(old_states.auth_tree_data_block_allocation_blocks_log2 as nat),
    ensures
        ({
            let (o, f) = (
                old_states.states@[b].allocation_blocks_states@[k],
                new_states.states@[b].allocation_blocks_states@[k],
            );
            &&& f.nv_sync_state == o.nv_sync_state
            &&& !range.has(b, k) ==> f == o
            &&& iter::staging_buf_error(o) is None ==> f == o
            &&& range.has(b, k) && (b < end_block || b == end_block && k < end_offset) ==> iter::staging_buf_error(f)
                is None
            &&& iter::staging_buf_error(o) is Some && iter::staging_buf_error(f) is None ==> {
                &&& range.has(b, k) && (b < end_block || b == end_block && k < end_offset)
                &&& iter::staging_buf(f).len() == 128 * align::block_size(allocation_block_size_128b_log2)
                &&& forall|j: int| 0 <= j < iter::staging_buf(f).len() ==> #[trigger] iter::staging_buf(f)[j] == 0
            }
            // With the range's own end, it's complete.
            &&& end_block == range.end.block() && end_offset == range.end.offset() && range.has(b, k)
                ==> iter::staging_buf_error(f) is None
        }),
{
    let n = allocation_block_size_128b_log2;
    let _ = new_states.block(b, k);
    align::lemma_block_size_pos(n + 7);
    align::lemma_block_size_split(n, n + 7);
    vstd::arithmetic::power2::lemma2_to64();
    assert(align::block_size(7) == 128);
    assert(align::block_size(n) * 128 == 128 * align::block_size(n));
}

/// A callback returned something for a slice of given contents.
pub open spec fn is_called_with<F: Fn(&[u8]) -> bool>(cb: F, contents: Seq<u8>, r: bool) -> bool {
    exists|slice: &[u8]| slice@ == contents && #[trigger] call_ensures(cb, (slice,), r)
}

/// Slices are handed to the callback with their exact contents, in order, up to the first
/// one it requests to stop at, and all of them if successful without.
pub proof fn law_walk_hands_out_slices<F: Fn(&[u8]) -> bool>(
    cb: F,
    slices: Seq<Seq<u8>>,
    error: Option<CryptoError>,
    r: Result<(), CryptoError>,
) -> (accepted: int)
    requires
        iter::walk_completed(cb, slices, error, r),
    ensures
        0 <= accepted <= slices.len(),
        forall|i: int|
            0 <= i < accepted ==> is_called_with(cb, #[trigger] slices[i], true),
        accepted < slices.len() ==> r is Ok && is_called_with(cb, slices[accepted], false),
        accepted == slices.len() ==> match error {
            Some(e) => r == Err::<(), CryptoError>(e),
            None => r is Ok,
        },
{
    let accepted = choose|accepted: int| #[trigger] iter::walk_ended(cb, slices, error, r, accepted);
    assert forall|i: int| 0 <= i < accepted implies is_called_with(cb, #[trigger] slices[i], true) by {
        assert(iter::handed(cb, slices[i], true));
    }
    accepted
}

/// There's nothing misaligned or missing in an empty region.
pub proof fn law_empty_regions_are_aligned(
    s: Seq<AuthTreeDataBlockUpdateState>,
    auth_log2: nat,
    begin: int,
    alignment_log2: nat,
)
    ensures
        states::contiguous(s, auth_log2, begin, begin),
        states::contiguous_aligned(s, auth_log2, begin, begin, alignment_log2),
{
}

} // verus!
