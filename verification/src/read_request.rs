//! Storage read requests for loading missing data.
use crate::align;
use crate::apply;
use crate::block_state::{
    AllocationBlockUpdateNvSyncState, AllocationBlockUpdateNvSyncStateAllocated,
    AllocationBlockUpdateNvSyncStateAllocatedModified, AllocationBlockUpdateState, CachedEncryptedAllocationBlockData,
};
use crate::fs::NvFsError;
use crate::layout::{PhysicalAllocBlockIndex, PhysicalAllocBlockRange};
use crate::read_missing_data::TransactionReadMissingDataFuture;
use crate::states;
use crate::states::AuthTreeDataBlocksUpdateStates;
use crate::states_index;
use crate::states_index::{
    AuthTreeDataBlocksUpdateStatesAllocationBlocksIndexRange, AuthTreeDataBlocksUpdateStatesIndexRange,
};
use crate::transaction::Transaction;
use vstd::prelude::*;

verus! {

/// A region on storage, divided into chunks of equal size.
#[derive(Clone, Copy, Debug, PartialEq, Eq, Structural)]
pub struct ChunkedIoRegion {
    /// Beginning of the region in units of 128 Bytes.
    pub physical_begin_128b: u64,
    /// End of the region in units of 128 Bytes.
    pub physical_end_128b: u64,
    /// Base-2 logarithm of the chunk size in units of 128 Bytes.
    pub chunk_size_128b_log2: u32,
}

/// Storage read request issued on behalf of reading missing data.
pub struct TransactionReadMissingDataFutureNvChipReadRequest {
    /// Index range of the entries to load data for.
    pub read_region_states_allocation_blocks_index_range: AuthTreeDataBlocksUpdateStatesAllocationBlocksIndexRange,
    /// Whether to read from the target location or from the Journal Staging
    /// Copy.
    pub read_from_target: bool,
    /// Region to read from.
    pub request_io_region: ChunkedIoRegion,
    /// Destination buffers for those of the region's Allocation Blocks that
    /// need their data read.
    pub dst_allocation_block_buffers: Vec<Option<Vec<u8>>>,
}

impl AllocationBlockUpdateNvSyncState {
    /// There's no data loaded.
    pub open spec fn lacks_data(&self) -> bool {
        match *self {
            AllocationBlockUpdateNvSyncState::Unallocated(unallocated) => unallocated.random_fillup is None,
            AllocationBlockUpdateNvSyncState::Allocated(
                AllocationBlockUpdateNvSyncStateAllocated::Unmodified(unmodified),
            ) => unmodified.cached_encrypted_data is None,
            AllocationBlockUpdateNvSyncState::Allocated(
                AllocationBlockUpdateNvSyncStateAllocated::Modified(modified),
            ) => modified matches AllocationBlockUpdateNvSyncStateAllocatedModified::JournalClean {
                cached_encrypted_data,
            } && cached_encrypted_data is None,
        }
    }

    /// The state with data read from storage loaded.
    ///
    /// What has been read from storage is not considered genuine before it gets
    /// authenticated.
    pub open spec fn with_data_read(self, data: Vec<u8>) -> Self {
        match self {
            AllocationBlockUpdateNvSyncState::Unallocated(unallocated) => {
                AllocationBlockUpdateNvSyncState::Unallocated(
                    crate::block_state::AllocationBlockUpdateNvSyncStateUnallocated {
                        random_fillup: Some(data),
                        ..unallocated
                    },
                )
            },
            AllocationBlockUpdateNvSyncState::Allocated(
                AllocationBlockUpdateNvSyncStateAllocated::Unmodified(unmodified),
            ) => AllocationBlockUpdateNvSyncState::Allocated(
                AllocationBlockUpdateNvSyncStateAllocated::Unmodified(
                    crate::block_state::AllocationBlockUpdateNvSyncStateAllocatedUnmodified {
                        cached_encrypted_data: Some(
                            CachedEncryptedAllocationBlockData { encrypted_data: data, authenticated: false },
                        ),
                        ..unmodified
                    },
                ),
            ),
            AllocationBlockUpdateNvSyncState::Allocated(
                AllocationBlockUpdateNvSyncStateAllocated::Modified(modified),
            ) => match modified {
                AllocationBlockUpdateNvSyncStateAllocatedModified::JournalDirty { .. } => self,
                AllocationBlockUpdateNvSyncStateAllocatedModified::JournalClean { .. } => {
                    AllocationBlockUpdateNvSyncState::Allocated(
                        AllocationBlockUpdateNvSyncStateAllocated::Modified(
                            AllocationBlockUpdateNvSyncStateAllocatedModified::JournalClean {
                                cached_encrypted_data: Some(
                                    CachedEncryptedAllocationBlockData { encrypted_data: data, authenticated: false },
                                ),
                            },
                        ),
                    )
                },
            },
        }
    }
}

/// Determine whether there's no data loaded.
fn test_lacks_data(nv_sync_state: &AllocationBlockUpdateNvSyncState) -> (r: bool)
    ensures
        r == nv_sync_state.lacks_data(),
{
    match nv_sync_state {
        AllocationBlockUpdateNvSyncState::Unallocated(unallocated_state) => unallocated_state.random_fillup.is_none(),
        AllocationBlockUpdateNvSyncState::Allocated(allocated_state) => match allocated_state {
            AllocationBlockUpdateNvSyncStateAllocated::Unmodified(unmodified_state) => {
                unmodified_state.cached_encrypted_data.is_none()
            },
            AllocationBlockUpdateNvSyncStateAllocated::Modified(modified_state) => match modified_state {
                AllocationBlockUpdateNvSyncStateAllocatedModified::JournalDirty { .. } => false,
                AllocationBlockUpdateNvSyncStateAllocatedModified::JournalClean { cached_encrypted_data } => {
                    cached_encrypted_data.is_none()
                },
            },
        },
    }
}

impl TransactionReadMissingDataFutureNvChipReadRequest {
    /// The region is contiguous and there's a destination buffer for exactly
    /// those of its Allocation Blocks that don't have their data loaded.
    pub open spec fn set_up_for(&self, states: &AuthTreeDataBlocksUpdateStates) -> bool {
        let range = self.read_region_states_allocation_blocks_index_range;
        let l = states.auth_log2();
        let c = AuthTreeDataBlocksUpdateStatesIndexRange::covering(range);
        &&& states.valid_blocks_range(&range)
        &&& range.begin != range.end
        &&& states::contiguous(states.states@, l, c.0, c.1)
        &&& !self.read_from_target ==> states.journal_contiguous(c.0, c.1)
        &&& self.dst_allocation_block_buffers@.len() == range.end.position(l) - range.begin.position(l)
        &&& forall|i: int|
            0 <= i < self.dst_allocation_block_buffers@.len() ==> ((
            #[trigger] self.dst_allocation_block_buffers@[i]) is Some <==> states.block_at(
                range.begin.position(l) + i,
            ).nv_sync_state.lacks_data())
        &&& forall|i: int|
            0 <= i < self.dst_allocation_block_buffers@.len() ==> ((
            #[trigger] self.dst_allocation_block_buffers@[i]) matches Some(buffer) ==> buffer@.len()
                == align::block_size((states.allocation_block_size_128b_log2 + 7) as nat))
    }

    /// The destination buffers are all zeroed and of specified length.
    pub open spec fn buffers_zeroed(&self, len: int) -> bool {
        forall|i: int|
            0 <= i < self.dst_allocation_block_buffers@.len() ==> ((
            #[trigger] self.dst_allocation_block_buffers@[i]) matches Some(buffer) ==> buffer@ == Seq::new(
                len as nat,
                |j: int| 0u8,
            ))
    }

    /// Obtain the storage region to read from.
    pub fn region(&self) -> (r: &ChunkedIoRegion)
        ensures
            *r == self.request_io_region,
    {
        &self.request_io_region
    }

    /// Obtain the destination buffer for some part of a chunk, if the chunk is
    /// to get read.
    ///
    /// # Arguments:
    ///
    /// * `allocation_block_index` - The chunk's index in the region.
    /// * `begin` - Beginning of the range within the chunk.
    /// * `end` - End of the range within the chunk.
    pub fn get_destination_buffer(
        &mut self,
        allocation_block_index: usize,
        begin: usize,
        end: usize,
    ) -> (r: Option<&mut [u8]>)
        requires
            allocation_block_index < old(self).dst_allocation_block_buffers.len(),
            begin <= end,
            old(self).dst_allocation_block_buffers@[allocation_block_index as int] matches Some(buffer) ==> end
                <= buffer@.len(),
        ensures
            final(self).read_region_states_allocation_blocks_index_range
                == old(self).read_region_states_allocation_blocks_index_range,
            final(self).read_from_target == old(self).read_from_target,
            final(self).request_io_region == old(self).request_io_region,
            final(self).dst_allocation_block_buffers@.len() == old(self).dst_allocation_block_buffers@.len(),
            forall|i: int|
                0 <= i < old(self).dst_allocation_block_buffers@.len() && i != allocation_block_index ==> final(
                    self
                ).dst_allocation_block_buffers@[i] == #[trigger] old(self).dst_allocation_block_buffers@[i],
            match old(self).dst_allocation_block_buffers@[allocation_block_index as int] {
                Some(buffer) => {
                    &&& r matches Some(slice) && slice@ == buffer@.subrange(begin as int, end as int)
                    &&& final(self).dst_allocation_block_buffers@[allocation_block_index as int] matches Some(new_buffer)
                        && new_buffer@ =~= buffer@.take(begin as int) + final(r->Some_0)@ + buffer@.skip(end as int)
                },
                None => {
                    &&& r is None
                    &&& final(self).dst_allocation_block_buffers@ == old(self).dst_allocation_block_buffers@
                },
            },
            // Filling in the data retains the request's validity.
            (r matches Some(slice) ==> final(slice)@.len() == end - begin) ==> forall|
                states: &AuthTreeDataBlocksUpdateStates,
            | #[trigger]
                old(self).set_up_for(states) ==> final(self).set_up_for(states),
    {
        match &mut self.dst_allocation_block_buffers[allocation_block_index] {
            Some(buffer) => {
                let ghost contents = buffer@;
                let (preceding, remaining) = buffer.as_mut_slice().split_at_mut(begin);
                let (slice, following) = remaining.split_at_mut(end - begin);
                assert(slice@ == contents.subrange(begin as int, end as int));
                assert(preceding@ == contents.take(begin as int));
                assert(following@ == contents.skip(end as int));
                Some(slice)
            },
            None => None,
        }
    }
}

/// The storage region some entries' data is to get read from, if any and
/// contiguous.
pub open spec fn read_source(
    states: &AuthTreeDataBlocksUpdateStates,
    range: AuthTreeDataBlocksUpdateStatesAllocationBlocksIndexRange,
    read_from_target: bool,
) -> Option<int> {
    let c = AuthTreeDataBlocksUpdateStatesIndexRange::covering(range);
    if read_from_target {
        Some(states.block_target(range.begin))
    } else if states.journal_contiguous(c.0, c.1) {
        states.block_journal(range.begin)
    } else {
        None
    }
}

/// A read request cannot get issued because the data is not contiguous on
/// storage, or the region's dimensions are too large to represent.
pub open spec fn read_impossible(
    states: &AuthTreeDataBlocksUpdateStates,
    range: AuthTreeDataBlocksUpdateStatesAllocationBlocksIndexRange,
    read_from_target: bool,
) -> bool {
    let l = states.auth_log2();
    let len = range.end.position(l) - range.begin.position(l);
    let unit = align::block_size(states.allocation_block_size_128b_log2 as nat);
    match read_source(states, range, read_from_target) {
        Some(begin) => len > usize::MAX || (begin + len) * unit > u64::MAX,
        None => true,
    }
}

/// Set up a storage read request for a contiguous region.
pub(crate) fn set_up_read_request(
    states: &AuthTreeDataBlocksUpdateStates,
    range: AuthTreeDataBlocksUpdateStatesAllocationBlocksIndexRange,
    read_from_target: bool,
) -> (r: Result<TransactionReadMissingDataFutureNvChipReadRequest, NvFsError>)
    requires
        states.wf(),
        states.valid_blocks_range(&range),
        range.begin != range.end,
        ({
            let c = AuthTreeDataBlocksUpdateStatesIndexRange::covering(range);
            states::contiguous(states.states@, states.auth_log2(), c.0, c.1)
        }),
    ensures
        read_impossible(states, range, read_from_target) ==> (r matches Err(e) && e == NvFsError::Internal),
        !read_impossible(states, range, read_from_target) ==> match r {
            Ok(request) => {
                let l = states.auth_log2();
                let len = range.end.position(l) - range.begin.position(l);
                let unit = align::block_size(states.allocation_block_size_128b_log2 as nat);
                let begin = read_source(states, range, read_from_target)->Some_0;
                &&& request.set_up_for(states)
                &&& request.buffers_zeroed(align::block_size((states.allocation_block_size_128b_log2 + 7) as nat))
                &&& request.read_region_states_allocation_blocks_index_range == range
                &&& request.read_from_target == read_from_target
                &&& request.request_io_region.physical_begin_128b == begin * unit
                &&& request.request_io_region.physical_end_128b == (begin + len) * unit
                &&& request.request_io_region.chunk_size_128b_log2 == states.allocation_block_size_128b_log2
            },
            Err(e) => e == NvFsError::MemoryAllocationFailure,
        },
{
    let ghost l = states.auth_log2();
    let ghost len = range.end.position(l) - range.begin.position(l);
    let ghost unit = align::block_size(states.allocation_block_size_128b_log2 as nat);
    proof {
        states_index::lemma_position_injective(range.begin, range.end, l);
        states.law_contiguous_region_length(range);
        align::lemma_block_size_pos(states.allocation_block_size_128b_log2 as nat);
    }
    let src: PhysicalAllocBlockRange = if read_from_target {
        states.get_contiguous_region_target_range(&range)
    } else {
        match states.get_contiguous_region_journal_staging_copy_range(&range) {
            Some(src) => src,
            None => {
                return Err(NvFsError::Internal);
            },
        }
    };
    let count: u64 = src.end.index - src.begin.index;
    let unit_128b: u64 = align::block_size_u64(states.allocation_block_size_128b_log2 as u32);
    let max_end: u64 = u64::MAX / unit_128b;
    proof {
        vstd::arithmetic::div_mod::lemma_fundamental_div_mod(u64::MAX as int, unit);
        let (b, e, q, rem) = (src.begin.index as int, src.end.index as int, max_end as int, u64::MAX as int % unit);
        if e > q {
            assert(e * unit > u64::MAX) by (nonlinear_arith)
                requires
                    e >= q + 1,
                    u64::MAX as int == unit * q + rem,
                    rem < unit,
                    unit >= 1,
            ;
        } else {
            assert(0 <= b * unit <= e * unit <= u64::MAX) by (nonlinear_arith)
                requires
                    0 <= b <= e <= q,
                    u64::MAX as int == unit * q + rem,
                    rem >= 0,
                    unit >= 1,
            ;
        }
    }
    if count > usize::MAX as u64 || src.end.index > max_end {
        return Err(NvFsError::Internal);
    }
    let request_io_region = ChunkedIoRegion {
        physical_begin_128b: src.begin.index * unit_128b,
        physical_end_128b: src.end.index * unit_128b,
        chunk_size_128b_log2: states.allocation_block_size_128b_log2 as u32,
    };
    let count: usize = count as usize;
    let allocation_block_size: usize = align::block_size_usize(states.allocation_block_size_128b_log2 as u32 + 7);
    // Finally prepare the read destination buffers and the read request itself.
    let mut buffers: Vec<Option<Vec<u8>>> = Vec::new();
    match buffers.try_reserve(count) {
        Ok(()) => (),
        Err(e) => {
            return Err(NvFsError::from(e));
        },
    }
    let mut cur = range.begin;
    let mut i: usize = 0;
    proof {
        states.lemma_position(range.end);
        states.lemma_valid_range_positions(range);
    }
    while i < count
        invariant
            states.wf(),
            states.valid_blocks_range(&range),
            !read_impossible(states, range, read_from_target),
            l == states.auth_log2(),
            len == range.end.position(l) - range.begin.position(l),
            count == len,
            i <= count,
            cur.wf(l),
            cur.position(l) == range.begin.position(l) + i,
            range.end.position(l) <= states.blocks_count(),
            allocation_block_size == align::block_size((states.allocation_block_size_128b_log2 + 7) as nat),
            buffers@.len() == i,
            forall|j: int|
                0 <= j < i ==> ((#[trigger] buffers@[j]) is Some <==> states.block_at(
                    range.begin.position(l) + j,
                ).nv_sync_state.lacks_data()),
            forall|j: int|
                0 <= j < i ==> ((#[trigger] buffers@[j]) matches Some(buffer) ==> buffer@ == Seq::new(
                    allocation_block_size as nat,
                    |j: int| 0u8,
                )),
        decreases count - i,
    {
        proof {
            states.lemma_position(cur);
        }
        if test_lacks_data(&states.allocation_block(&cur).nv_sync_state) {
            match apply::try_new_zeroed(allocation_block_size) {
                Ok(buffer) => {
                    buffers.push(Some(buffer));
                },
                Err(e) => {
                    return Err(e);
                },
            }
        } else {
            buffers.push(None);
        }
        cur = cur.step(states.auth_tree_data_block_allocation_blocks_log2 as u32);
        i = i + 1;
    }
    Ok(
        TransactionReadMissingDataFutureNvChipReadRequest {
            read_region_states_allocation_blocks_index_range: range,
            read_from_target,
            request_io_region,
            dst_allocation_block_buffers: buffers,
        },
    )
}

impl AuthTreeDataBlocksUpdateStates {
    /// Data read from storage has been loaded for some of the Allocation Blocks
    /// in a range starting at a given position.
    pub open spec fn data_loaded(&self, old_states: &Self, begin: int, data: Seq<Option<Vec<u8>>>) -> bool {
        &&& self.same_digests(old_states)
        &&& self.mapped(
            old_states,
            |b: int, k: int|
                {
                    let i = b * old_states.block_len() + k - begin;
                    0 <= i < data.len() && data[i] is Some
                },
            |b: int, k: int|
                {
                    let i = b * old_states.block_len() + k - begin;
                    AllocationBlockUpdateState {
                        nv_sync_state: old_states.block(b, k).nv_sync_state.with_data_read(data[i]->Some_0),
                        staged_update: old_states.block(b, k).staged_update,
                    }
                },
        )
    }
}

/// Load data read from storage.
fn load_data(nv_sync_state: &mut AllocationBlockUpdateNvSyncState, data: Vec<u8>)
    requires
        data@.len() > 0,
    ensures
        *final(nv_sync_state) == old(nv_sync_state).with_data_read(data),
{
    match nv_sync_state {
        AllocationBlockUpdateNvSyncState::Unallocated(unallocated_state) => {
            unallocated_state.random_fillup = Some(data);
        },
        AllocationBlockUpdateNvSyncState::Allocated(allocated_state) => match allocated_state {
            AllocationBlockUpdateNvSyncStateAllocated::Unmodified(unmodified_state) => {
                unmodified_state.cached_encrypted_data = Some(CachedEncryptedAllocationBlockData::new(data));
            },
            AllocationBlockUpdateNvSyncStateAllocated::Modified(modified_state) => match modified_state {
                AllocationBlockUpdateNvSyncStateAllocatedModified::JournalDirty { .. } => {},
                AllocationBlockUpdateNvSyncStateAllocatedModified::JournalClean { cached_encrypted_data } => {
                    *cached_encrypted_data = Some(CachedEncryptedAllocationBlockData::new(data));
                },
            },
        },
    }
}

/// The data at index `i` has been obtained by undisguising a Journal Staging
/// Copy.
pub open spec fn undisguised_at<
    F: Fn(PhysicalAllocBlockIndex, PhysicalAllocBlockIndex, Vec<u8>) -> Result<Vec<u8>, NvFsError>,
>(
    undisguise: F,
    journal: int,
    target: int,
    disguised: Seq<Option<Vec<u8>>>,
    i: int,
    r: Result<Vec<u8>, NvFsError>,
) -> bool {
    disguised[i] matches Some(buffer) && call_ensures(
        undisguise,
        (
            PhysicalAllocBlockIndex { index: (journal + i) as u64 },
            PhysicalAllocBlockIndex { index: (target + i) as u64 },
            buffer,
        ),
        r,
    )
}

/// All of the data has been obtained by undisguising a Journal Staging Copy.
pub open spec fn undisguised<
    F: Fn(PhysicalAllocBlockIndex, PhysicalAllocBlockIndex, Vec<u8>) -> Result<Vec<u8>, NvFsError>,
>(
    undisguise: F,
    journal: int,
    target: int,
    disguised: Seq<Option<Vec<u8>>>,
    data: Seq<Option<Vec<u8>>>,
) -> bool {
    &&& data.len() == disguised.len()
    &&& forall|i: int|
        0 <= i < data.len() ==> match #[trigger] data[i] {
            Some(buffer) => undisguised_at(undisguise, journal, target, disguised, i, Ok(buffer)),
            None => disguised[i] is None,
        }
}

/// Undisguise some Journal Staging Copy's data.
fn undisguise_buffers<
    F: Fn(PhysicalAllocBlockIndex, PhysicalAllocBlockIndex, Vec<u8>) -> Result<Vec<u8>, NvFsError>,
>(buffers: Vec<Option<Vec<u8>>>, journal: u64, target: u64, undisguise: &F) -> (r: Result<
    Vec<Option<Vec<u8>>>,
    NvFsError,
>)
    requires
        journal + buffers@.len() <= u64::MAX,
        target + buffers@.len() <= u64::MAX,
        forall|j: PhysicalAllocBlockIndex, t: PhysicalAllocBlockIndex, buffer: Vec<u8>| #[trigger]
            call_requires(*undisguise, (j, t, buffer)),
    ensures
        match r {
            Ok(data) => undisguised(*undisguise, journal as int, target as int, buffers@, data@),
            Err(e) => exists|i: int|
                0 <= i < buffers@.len() && #[trigger] undisguised_at(
                    *undisguise,
                    journal as int,
                    target as int,
                    buffers@,
                    i,
                    Err(e),
                ),
        },
{
    let mut data = buffers;
    let len: usize = data.len();
    let mut i: usize = 0;
    while i < len
        invariant
            len == buffers@.len(),
            data@.len() == len,
            i <= len,
            journal + len <= u64::MAX,
            target + len <= u64::MAX,
            forall|j: PhysicalAllocBlockIndex, t: PhysicalAllocBlockIndex, buffer: Vec<u8>| #[trigger]
                call_requires(*undisguise, (j, t, buffer)),
            forall|k: int|
                0 <= k < i ==> match #[trigger] data@[k] {
                    Some(buffer) => undisguised_at(
                        *undisguise,
                        journal as int,
                        target as int,
                        buffers@,
                        k,
                        Ok(buffer),
                    ),
                    None => buffers@[k] is None,
                },
            forall|k: int| i <= k < len ==> #[trigger] data@[k] == buffers@[k],
        decreases len - i,
    {
        let mut slot: Option<Vec<u8>> = None;
        core::mem::swap(&mut slot, &mut data[i]);
        match slot {
            Some(buffer) => {
                let r = undisguise(
                    PhysicalAllocBlockIndex { index: journal + i as u64 },
                    PhysicalAllocBlockIndex { index: target + i as u64 },
                    buffer,
                );
                assert(undisguised_at(*undisguise, journal as int, target as int, buffers@, i as int, r));
                match r {
                    Ok(undisguised_buffer) => {
                        data[i] = Some(undisguised_buffer);
                    },
                    Err(e) => {
                        return Err(e);
                    },
                }
            },
            None => (),
        }
        i = i + 1;
    }
    Ok(data)
}

/// Load read data from storage into a range's update tracking states.
fn load_buffers(
    states: &mut AuthTreeDataBlocksUpdateStates,
    range: AuthTreeDataBlocksUpdateStatesAllocationBlocksIndexRange,
    buffers: Vec<Option<Vec<u8>>>,
)
    requires
        old(states).wf(),
        old(states).valid_blocks_range(&range),
        buffers@.len() == range.end.position(old(states).auth_log2()) - range.begin.position(
            old(states).auth_log2(),
        ),
        forall|i: int|
            0 <= i < buffers@.len() ==> ((#[trigger] buffers@[i]) matches Some(buffer) ==> buffer@.len() > 0),
    ensures
        final(states).wf(),
        final(states).data_loaded(old(states), range.begin.position(old(states).auth_log2()), buffers@),
{
    let ghost o = *states;
    let ghost l = states.auth_log2();
    let ghost begin = range.begin.position(l);
    let ghost size = states.block_len();
    let auth_log2: u32 = states.auth_tree_data_block_allocation_blocks_log2 as u32;
    let mut remaining = buffers;
    let len: usize = remaining.len();
    let mut cur = range.begin;
    let mut i: usize = 0;
    proof {
        states.lemma_valid_range_positions(range);
        assert forall|b: int, k: int| #[trigger] o.has_block(b, k) implies states.block(b, k) == o.block(b, k) by {}
    }
    while i < len
        invariant
            o.wf(),
            states.wf(),
            o.valid_blocks_range(&range),
            l == o.auth_log2(),
            auth_log2 == l,
            size == o.block_len(),
            begin == range.begin.position(l),
            len == range.end.position(l) - begin,
            len == buffers@.len(),
            forall|i: int|
                0 <= i < buffers@.len() ==> ((#[trigger] buffers@[i]) matches Some(buffer) ==> buffer@.len() > 0),
            remaining@.len() == len,
            forall|j: int| i <= j < len ==> #[trigger] remaining@[j] == buffers@[j],
            range.end.position(l) <= o.blocks_count(),
            i <= len,
            cur.wf(l),
            cur.position(l) == begin + i,
            states.data_loaded(&o, begin, buffers@.take(i as int)),
        decreases len - i,
    {
        let ghost before = *states;
        proof {
            states.lemma_position(cur);
        }
        let mut slot: Option<Vec<u8>> = None;
        core::mem::swap(&mut slot, &mut remaining[i]);
        let index = cur;
        match slot {
            Some(data) => {
                let state = states.allocation_block_mut(&index);
                load_data(&mut state.nv_sync_state, data);
            },
            None => (),
        }
        proof {
            states.lemma_same_shape_wf(&o);
            let (done, next) = (buffers@.take(i as int), buffers@.take(i + 1));
            assert forall|b: int, k: int| o.has_block(b, k) implies #[trigger] states.block(b, k) == ({
                let j = b * size + k - begin;
                if 0 <= j < next.len() && next[j] is Some {
                    AllocationBlockUpdateState {
                        nv_sync_state: o.block(b, k).nv_sync_state.with_data_read(next[j]->Some_0),
                        staged_update: o.block(b, k).staged_update,
                    }
                } else {
                    o.block(b, k)
                }
            }) by {
                let j = b * size + k - begin;
                if b == index.block() && k == index.offset() {
                    assert(j == i);
                    assert(before.block(b, k) == o.block(b, k));
                } else {
                    assert(j != i) by {
                        if j == i {
                            vstd::arithmetic::div_mod::lemma_fundamental_div_mod_converse(begin + i, size, b, k);
                        }
                    }
                    assert(states.block(b, k) == before.block(b, k));
                    if 0 <= j < i {
                        assert(next[j] == done[j]);
                    }
                }
            }
        }
        cur = cur.step(auth_log2);
        i = i + 1;
    }
    assert(buffers@.take(len as int) == buffers@);
}

/// The operation is applicable anywhere and does not alter the data's length.
pub open spec fn undisguises<
    F: Fn(PhysicalAllocBlockIndex, PhysicalAllocBlockIndex, Vec<u8>) -> Result<Vec<u8>, NvFsError>,
>(undisguise: F) -> bool {
    &&& forall|j: PhysicalAllocBlockIndex, t: PhysicalAllocBlockIndex, buffer: Vec<u8>| #[trigger]
        call_requires(undisguise, (j, t, buffer))
    &&& forall|j: PhysicalAllocBlockIndex, t: PhysicalAllocBlockIndex, buffer: Vec<u8>, data: Vec<u8>| #[trigger]
        call_ensures(undisguise, (j, t, buffer), Ok::<Vec<u8>, NvFsError>(data)) ==> data@.len() == buffer@.len()
}

impl TransactionReadMissingDataFutureNvChipReadRequest {
    /// Whether the data read must get undisguised.
    ///
    /// A Journal Staging Copy refering to the target location is not in fact a
    /// copy, but an IO Block to be populated in place.
    pub open spec fn disguised(&self, transaction: &Transaction) -> bool {
        let states = transaction.auth_tree_data_blocks_update_states;
        let begin = self.read_region_states_allocation_blocks_index_range.begin;
        &&& transaction.journal_staging_copy_disguise_enabled
        &&& !self.read_from_target
        &&& states.block_journal(begin) != Some(states.block_target(begin))
    }

    /// The data read, as it's to be loaded into the update tracking states.
    pub open spec fn data_read<
        F: Fn(PhysicalAllocBlockIndex, PhysicalAllocBlockIndex, Vec<u8>) -> Result<Vec<u8>, NvFsError>,
    >(&self, transaction: &Transaction, undisguise: F, data: Seq<Option<Vec<u8>>>) -> bool {
        let states = transaction.auth_tree_data_blocks_update_states;
        let begin = self.read_region_states_allocation_blocks_index_range.begin;
        if self.disguised(transaction) {
            undisguised(
                undisguise,
                states.block_journal(begin)->Some_0,
                states.block_target(begin),
                self.dst_allocation_block_buffers@,
                data,
            )
        } else {
            data == self.dst_allocation_block_buffers@
        }
    }

    /// Undisguising the data read failed.
    pub open spec fn undisguise_failed<
        F: Fn(PhysicalAllocBlockIndex, PhysicalAllocBlockIndex, Vec<u8>) -> Result<Vec<u8>, NvFsError>,
    >(&self, transaction: &Transaction, undisguise: F, e: NvFsError) -> bool {
        let states = transaction.auth_tree_data_blocks_update_states;
        let begin = self.read_region_states_allocation_blocks_index_range.begin;
        &&& self.disguised(transaction)
        &&& exists|i: int|
            0 <= i < self.dst_allocation_block_buffers@.len() && #[trigger] undisguised_at(
                undisguise,
                states.block_journal(begin)->Some_0,
                states.block_target(begin),
                self.dst_allocation_block_buffers@,
                i,
                Err(e),
            )
    }
}

impl TransactionReadMissingDataFuture {
    /// Apply the results of a completed storage read request.
    ///
    /// # Arguments:
    ///
    /// * `transaction` - The [`Transaction`].
    /// * `completed_read_request` - The completed storage read request.
    /// * `undisguise` - Operation to undisguise an Allocation Block's Journal
    ///   Staging Copy with, to be invoked with the locations of the Journal
    ///   Staging Copy and the target each.
    pub fn apply_read_request_result<
        F: Fn(PhysicalAllocBlockIndex, PhysicalAllocBlockIndex, Vec<u8>) -> Result<Vec<u8>, NvFsError>,
    >(
        transaction: &mut Transaction,
        completed_read_request: TransactionReadMissingDataFutureNvChipReadRequest,
        undisguise: &F,
    ) -> (r: Result<(), NvFsError>)
        requires
            old(transaction).wf(),
            completed_read_request.set_up_for(&old(transaction).auth_tree_data_blocks_update_states),
            undisguises(*undisguise),
        ensures
            final(transaction).wf(),
            final(transaction).same_environment(old(transaction)),
            match r {
                Ok(()) => exists|data: Seq<Option<Vec<u8>>>|
                    {
                        let states = old(transaction).auth_tree_data_blocks_update_states;
                        let begin = completed_read_request.read_region_states_allocation_blocks_index_range.begin;
                        &&& #[trigger] completed_read_request.data_read(old(transaction), *undisguise, data)
                        &&& final(transaction).auth_tree_data_blocks_update_states.data_loaded(
                            &states,
                            begin.position(states.auth_log2()),
                            data,
                        )
                    },
                Err(e) => {
                    &&& completed_read_request.undisguise_failed(old(transaction), *undisguise, e)
                    &&& final(transaction).auth_tree_data_blocks_update_states == old(
                        transaction,
                    ).auth_tree_data_blocks_update_states
                },
            },
    {
        let ghost o = *transaction;
        let range = completed_read_request.read_region_states_allocation_blocks_index_range;
        let mut buffers = completed_read_request.dst_allocation_block_buffers;
        proof {
            align::lemma_block_size_pos(
                (transaction.auth_tree_data_blocks_update_states.allocation_block_size_128b_log2 + 7) as nat,
            );
            transaction.auth_tree_data_blocks_update_states.law_contiguous_region_length(range);
        }
        // If read from the Journal and disguising is enabled, undisguise first.
        if !completed_read_request.read_from_target && transaction.journal_staging_copy_disguise_enabled {
            let states = &transaction.auth_tree_data_blocks_update_states;
            let target = states.get_contiguous_region_target_range(&range);
            let journal = match states.get_contiguous_region_journal_staging_copy_range(&range) {
                Some(journal) => journal,
                None => {
                    return Err(NvFsError::Internal);
                },
            };
            // Don't (un)disguise if the Journal Data Staging Copy is not in fact a copy, but
            // refers to a freshly initialized target IO block to be populated in place by the
            // transaction.
            if target.begin != journal.begin {
                match undisguise_buffers(buffers, journal.begin.index, target.begin.index, undisguise) {
                    Ok(undisguised_buffers) => {
                        buffers = undisguised_buffers;
                    },
                    Err(e) => {
                        proof {
                            let states = o.auth_tree_data_blocks_update_states;
                            let disguised = completed_read_request.dst_allocation_block_buffers@;
                            let i = choose|i: int|
                                0 <= i < disguised.len() && #[trigger] undisguised_at(
                                    *undisguise,
                                    journal.begin.index as int,
                                    target.begin.index as int,
                                    disguised,
                                    i,
                                    Err(e),
                                );
                            assert(undisguised_at(
                                *undisguise,
                                states.block_journal(range.begin)->Some_0,
                                states.block_target(range.begin),
                                disguised,
                                i,
                                Err(e),
                            ));
                        }
                        return Err(e);
                    },
                }
            }
        }
        assert(completed_read_request.data_read(&o, *undisguise, buffers@));
        assert forall|i: int| 0 <= i < buffers@.len() implies ((#[trigger] buffers@[i]) matches Some(buffer)
            ==> buffer@.len() > 0) by {
            let disguised = completed_read_request.dst_allocation_block_buffers@;
            assert(disguised[i] is Some ==> disguised[i]->Some_0@.len() > 0);
        }
        // Now install the read Allocation Block buffers at their final location within the
        // states.
        load_buffers(&mut transaction.auth_tree_data_blocks_update_states, range, buffers);
        proof {
            transaction.lemma_same_shape_wf(&o);
        }
        Ok(())
    }
}

} // verus!
