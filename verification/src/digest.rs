//! Authentication digests of Authentication Tree Data Blocks.
use crate::block_state::{
    AllocationBlockUpdateNvSyncState, AllocationBlockUpdateNvSyncStateAllocated,
    AllocationBlockUpdateNvSyncStateAllocatedModified, AllocationBlockUpdateState, CachedEncryptedAllocationBlockData,
};
use crate::fs::NvFsError;
use crate::layout::PhysicalAllocBlockIndex;
use crate::states::{AuthTreeDataBlockUpdateState, AuthTreeDataBlocksUpdateStates};
use crate::states_index::AuthTreeDataBlocksUpdateStatesIndexRange;
use vstd::prelude::*;

verus! {

/// An Allocation Block's contribution to its containing Authentication Tree
/// Data Block's authentication digest.
///
/// Unallocated Allocation Blocks do not contribute any data. An allocated
/// Allocation Block's data must be available, and be authenticated if
/// `expect_authenticated_data` is set.
pub open spec fn digest_contribution(
    state: AllocationBlockUpdateState,
    expect_authenticated_data: bool,
) -> Result<Option<Seq<u8>>, NvFsError> {
    if state.nv_sync_state is Unallocated {
        Ok(None)
    } else {
        match state.nv_sync_state.data() {
            Some((data, authenticated)) => {
                if expect_authenticated_data && !authenticated {
                    Err(NvFsError::Internal)
                } else {
                    Ok(Some(data))
                }
            },
            None => Err(NvFsError::Internal),
        }
    }
}

/// An optional slice's contents.
pub open spec fn slice_view(data: Option<&[u8]>) -> Option<Seq<u8>> {
    match data {
        Some(data) => Some(data@),
        None => None,
    }
}

/// A slice's contents or an error.
pub open spec fn contribution_view(r: Result<Option<&[u8]>, NvFsError>) -> Result<Option<Seq<u8>>, NvFsError> {
    match r {
        Ok(data) => Ok(slice_view(data)),
        Err(e) => Err(e),
    }
}

/// Access cached data.
fn cached_contribution(
    cached: &Option<CachedEncryptedAllocationBlockData>,
    expect_authenticated_data: bool,
) -> (r: Result<Option<&[u8]>, NvFsError>)
    ensures
        contribution_view(r) == match *cached {
            Some(cached) => {
                if expect_authenticated_data && !cached.authenticated {
                    Err(NvFsError::Internal)
                } else {
                    Ok(Some(cached.encrypted_data@))
                }
            },
            None => Err(NvFsError::Internal),
        },
{
    match cached {
        Some(cached) => {
            if expect_authenticated_data && !cached.is_authenticated() {
                return Err(NvFsError::Internal);
            }
            Ok(Some(cached.get_encrypted_data()))
        },
        None => Err(NvFsError::Internal),
    }
}

impl AuthTreeDataBlockUpdateState {
    /// Number of Allocation Blocks at the head overlapping with the image
    /// header.
    pub open spec fn header_overlap(&self, image_header_end: int) -> int {
        if image_header_end <= self.target() {
            0
        } else if image_header_end - self.target() <= self.allocation_blocks_states@.len() {
            image_header_end - self.target()
        } else {
            self.allocation_blocks_states@.len() as int
        }
    }

    /// The individual Allocation Blocks' contributions to the authentication
    /// digest.
    ///
    /// The image header is always unauthenticated.
    pub open spec fn digest_input(
        &self,
        k: int,
        image_header_end: int,
        expect_authenticated_data: bool,
    ) -> Result<Option<Seq<u8>>, NvFsError> {
        if k < self.header_overlap(image_header_end) {
            Ok(None)
        } else {
            digest_contribution(self.allocation_blocks_states@[k], expect_authenticated_data)
        }
    }

    /// Determine the number of Allocation Blocks at the head overlapping with
    /// the image header.
    fn get_header_overlap(&self, image_header_end: PhysicalAllocBlockIndex) -> (r: usize)
        ensures
            r == self.header_overlap(image_header_end.index as int),
    {
        let begin: u64 = self.target_allocation_blocks_begin.index;
        let len: usize = self.allocation_blocks_states.len();
        if image_header_end.index <= begin {
            0
        } else if image_header_end.index - begin <= len as u64 {
            (image_header_end.index - begin) as usize
        } else {
            len
        }
    }

    /// Access an Allocation Block's state.
    pub fn allocation_block(&self, index: usize) -> (r: &AllocationBlockUpdateState)
        requires
            index < self.allocation_blocks_states@.len(),
        ensures
            *r == self.allocation_blocks_states@[index as int],
    {
        &self.allocation_blocks_states[index]
    }

    /// Iterate over the Authentication Tree Data Block's individual Allocation
    /// Blocks for the purpose of computing the authentication digest.
    ///
    /// # Arguments:
    ///
    /// * `image_header_end` - End of the filesystem image header on storage.
    /// * `expect_authenticated_data` - If true, verify in the course of the
    ///   iteration that all of the individual Allocation Blocks have their data
    ///   available as authenticated.
    pub fn iter_auth_digest_allocation_blocks(
        &self,
        image_header_end: PhysicalAllocBlockIndex,
        expect_authenticated_data: bool,
    ) -> (r: AuthTreeDataBlockUpdateStateAuthDigestAllocationBlocksIter<'_>)
        ensures
            r.set_up_for(self, image_header_end.index as int, expect_authenticated_data),
            r.next_index == 0,
    {
        AuthTreeDataBlockUpdateStateAuthDigestAllocationBlocksIter::new(
            self,
            image_header_end,
            expect_authenticated_data,
        )
    }
}

/// Iterator returned by
/// [`AuthTreeDataBlockUpdateState::iter_auth_digest_allocation_blocks`].
pub struct AuthTreeDataBlockUpdateStateAuthDigestAllocationBlocksIter<'a> {
    pub state: &'a AuthTreeDataBlockUpdateState,
    pub next_index: usize,
    pub skip_count: usize,
    pub expect_authenticated_data: bool,
}

impl<'a> AuthTreeDataBlockUpdateStateAuthDigestAllocationBlocksIter<'a> {
    /// The iterator has been set up for the given parameters.
    pub open spec fn set_up_for(
        &self,
        state: &AuthTreeDataBlockUpdateState,
        image_header_end: int,
        expect_authenticated_data: bool,
    ) -> bool {
        &&& *self.state == *state
        &&& self.skip_count == state.header_overlap(image_header_end)
        &&& self.expect_authenticated_data == expect_authenticated_data
    }

    /// Instantiate an iterator.
    pub fn new(
        state: &'a AuthTreeDataBlockUpdateState,
        image_header_end: PhysicalAllocBlockIndex,
        expect_authenticated_data: bool,
    ) -> (r: Self)
        ensures
            r.set_up_for(state, image_header_end.index as int, expect_authenticated_data),
            r.next_index == 0,
    {
        // The image header is always unauthenticated. If the current Authentication
        // Tree Data Block is overlapping with it, skip over the corresponding
        // head region.
        AuthTreeDataBlockUpdateStateAuthDigestAllocationBlocksIter {
            state,
            next_index: 0,
            skip_count: state.get_header_overlap(image_header_end),
            expect_authenticated_data,
        }
    }

    /// Obtain the next Allocation Block's contribution, if any.
    pub fn next(&mut self) -> (r: Option<Result<Option<&'a [u8]>, NvFsError>>)
        ensures
            *final(self).state == *old(self).state,
            final(self).skip_count == old(self).skip_count,
            final(self).expect_authenticated_data == old(self).expect_authenticated_data,
            r is None <==> old(self).next_index >= old(self).state.allocation_blocks_states@.len(),
            r is None ==> final(self).next_index == old(self).next_index,
            r matches Some(c) ==> {
                &&& final(self).next_index == old(self).next_index + 1
                &&& contribution_view(c) == if old(self).next_index < old(self).skip_count {
                    Ok(None)
                } else {
                    digest_contribution(
                        old(self).state.allocation_blocks_states@[old(self).next_index as int],
                        old(self).expect_authenticated_data,
                    )
                }
            },
    {
        if self.next_index >= self.state.allocation_blocks_states.len() {
            return None;
        }
        let index: usize = self.next_index;
        self.next_index = index + 1;
        // If in the image header region, which is always unauthenticated, return None.
        if index < self.skip_count {
            return Some(Ok(None));
        }
        Some(
            match &self.state.allocation_blocks_states[index].nv_sync_state {
                AllocationBlockUpdateNvSyncState::Unallocated(_) => Ok(None),
                AllocationBlockUpdateNvSyncState::Allocated(allocated_state) => match allocated_state {
                    AllocationBlockUpdateNvSyncStateAllocated::Unmodified(unmodified_state) => {
                        cached_contribution(&unmodified_state.cached_encrypted_data, self.expect_authenticated_data)
                    },
                    AllocationBlockUpdateNvSyncStateAllocated::Modified(modified_state) => match modified_state {
                        AllocationBlockUpdateNvSyncStateAllocatedModified::JournalDirty {
                            authenticated_encrypted_data,
                        } => Ok(Some(authenticated_encrypted_data.as_slice())),
                        AllocationBlockUpdateNvSyncStateAllocatedModified::JournalClean { cached_encrypted_data } => {
                            cached_contribution(cached_encrypted_data, self.expect_authenticated_data)
                        },
                    },
                },
            },
        )
    }
}

/// The individual Allocation Blocks' contributions to an authentication digest
/// have been collected.
pub open spec fn collected(
    state: AuthTreeDataBlockUpdateState,
    image_header_end: int,
    data: Seq<Option<&[u8]>>,
) -> bool {
    &&& data.len() == state.allocation_blocks_states@.len()
    &&& forall|k: int|
        0 <= k < data.len() ==> state.digest_input(k, image_header_end, true) == Ok::<Option<Seq<u8>>, NvFsError>(
            slice_view(#[trigger] data[k]),
        )
}

/// Any of an Authentication Tree Data Block's allocated Allocation Blocks does
/// not have its data available as authenticated.
pub open spec fn data_unavailable(state: AuthTreeDataBlockUpdateState, image_header_end: int) -> bool {
    exists|k: int|
        0 <= k < state.allocation_blocks_states@.len() && #[trigger] state.digest_input(k, image_header_end, true)
            is Err
}

/// Determine whether any of an Authentication Tree Data Block's allocated
/// Allocation Blocks does not have its data available as authenticated.
fn test_data_unavailable(state: &AuthTreeDataBlockUpdateState, image_header_end: PhysicalAllocBlockIndex) -> (r: bool)
    ensures
        r == data_unavailable(*state, image_header_end.index as int),
{
    let ghost h = image_header_end.index as int;
    let mut iter = state.iter_auth_digest_allocation_blocks(image_header_end, true);
    loop
        invariant
            h == image_header_end.index,
            iter.set_up_for(state, h, true),
            iter.next_index <= state.allocation_blocks_states@.len(),
            forall|k: int| 0 <= k < iter.next_index ==> #[trigger] state.digest_input(k, h, true) is Ok,
        decreases state.allocation_blocks_states@.len() - iter.next_index,
    {
        let ghost k = iter.next_index as int;
        match iter.next() {
            None => {
                return false;
            },
            Some(Ok(_)) => {
                assert(state.digest_input(k, h, true) is Ok);
            },
            Some(Err(_)) => {
                assert(state.digest_input(k, h, true) is Err);
                return true;
            },
        }
    }
}

/// Collect the individual Allocation Blocks' contributions to an authentication
/// digest.
///
/// An error of [`NvFsError::Internal`] is returned if any of the data is not
/// available as authenticated.
pub fn collect_auth_digest_allocation_blocks<'a>(
    state: &'a AuthTreeDataBlockUpdateState,
    image_header_end: PhysicalAllocBlockIndex,
) -> (r: Result<Vec<Option<&'a [u8]>>, NvFsError>)
    ensures
        data_unavailable(*state, image_header_end.index as int) <==> r == Err::<Vec<Option<&[u8]>>, NvFsError>(
            NvFsError::Internal,
        ),
        match r {
            Ok(data) => collected(*state, image_header_end.index as int, data@),
            Err(e) => e == NvFsError::Internal || e == NvFsError::MemoryAllocationFailure,
        },
{
    if test_data_unavailable(state, image_header_end) {
        return Err(NvFsError::Internal);
    }
    let mut data: Vec<Option<&'a [u8]>> = Vec::new();
    match data.try_reserve(state.allocation_blocks_states.len()) {
        Ok(()) => (),
        Err(e) => {
            return Err(NvFsError::from(e));
        },
    }
    let ghost h = image_header_end.index as int;
    let mut iter = state.iter_auth_digest_allocation_blocks(image_header_end, true);
    loop
        invariant
            h == image_header_end.index,
            iter.set_up_for(state, h, true),
            data@.len() == iter.next_index,
            iter.next_index <= state.allocation_blocks_states@.len(),
            forall|k: int|
                0 <= k < data@.len() ==> state.digest_input(k, h, true) == Ok::<Option<Seq<u8>>, NvFsError>(
                    slice_view(#[trigger] data@[k]),
                ),
        ensures
            collected(*state, h, data@),
        decreases state.allocation_blocks_states@.len() - iter.next_index,
    {
        let ghost k = iter.next_index as int;
        match iter.next() {
            None => {
                break ;
            },
            Some(Ok(contribution)) => {
                assert(state.digest_input(k, h, true) == Ok::<Option<Seq<u8>>, NvFsError>(slice_view(contribution)));
                data.push(contribution);
            },
            Some(Err(e)) => {
                assert(state.digest_input(k, h, true) is Err);
                return Err(e);
            },
        }
    }
    Ok(data)
}

impl AuthTreeDataBlocksUpdateStates {
    /// An entry's authentication digest is to be computed.
    ///
    /// If there are no data modifications in the Authentication Tree Data
    /// Block, or if there's a valid digest already, then don't recompute the
    /// digest.
    pub open spec fn needs_digest(&self, b: int, image_header_end: int) -> bool {
        let state = self.states@[b];
        state.auth_digest is None && state.modified_from(state.header_overlap(image_header_end))
    }

    /// Find the next entry in a range whose authentication digest is to be
    /// computed, if any.
    pub fn find_next_needing_auth_digest(
        &self,
        begin: usize,
        end: usize,
        image_header_end: PhysicalAllocBlockIndex,
    ) -> (r: usize)
        requires
            begin <= end <= self.states.len(),
        ensures
            begin <= r <= end,
            forall|b: int| begin <= b < r ==> !#[trigger] self.needs_digest(b, image_header_end.index as int),
            r < end ==> self.needs_digest(r as int, image_header_end.index as int),
    {
        let mut b: usize = begin;
        while b < end
            invariant
                begin <= b <= end <= self.states@.len(),
                forall|i: int| begin <= i < b ==> !#[trigger] self.needs_digest(i, image_header_end.index as int),
            decreases end - b,
        {
            let state = &self.states[b];
            if state.auth_digest.is_none() && state.has_modified_data_from(state.get_header_overlap(image_header_end)) {
                return b;
            }
            b = b + 1;
        }
        end
    }

    /// All of an entry but its authentication digest is the same.
    pub open spec fn same_but_digest(&self, old_states: &Self, b: int) -> bool {
        self.states@[b] == (AuthTreeDataBlockUpdateState {
            auth_digest: self.states@[b].auth_digest,
            ..old_states.states@[b]
        })
    }

    /// Compute authentication digests for some entries.
    ///
    /// Update the authentication digests for all entries if
    /// `states_index_range` is `None`, or only for those in the specified range.
    ///
    /// All states for any entry whose authentication digest is to get computed
    /// must have their data loaded and authenticated.
    ///
    /// # Arguments:
    ///
    /// * `states_index_range` - Optional entry range to restrict the operation
    ///   to.
    /// * `digest_data_block` - Function computing an Authentication Tree Data
    ///   Block's digest from its location and the individual Allocation Blocks'
    ///   data.
    /// * `image_header_end` - End of the filesystem image header on storage.
    pub fn update_auth_digests<
        F: Fn(PhysicalAllocBlockIndex, Vec<Option<&[u8]>>) -> Result<Vec<u8>, NvFsError>,
    >(
        &mut self,
        states_index_range: Option<&AuthTreeDataBlocksUpdateStatesIndexRange>,
        digest_data_block: &F,
        image_header_end: PhysicalAllocBlockIndex,
    ) -> (r: Result<(), NvFsError>)
        requires
            old(self).wf(),
            states_index_range matches Some(range) ==> old(self).valid_range(range),
            forall|target: PhysicalAllocBlockIndex, data: Vec<Option<&[u8]>>| #[trigger]
                call_requires(digest_data_block, (target, data)),
        ensures
            final(self).wf(),
            final(self).same_layout(old(self)),
            final(self).states@.len() == old(self).states@.len(),
            forall|b: int|
                0 <= b < old(self).states@.len() ==> #[trigger] final(self).same_but_digest(old(self), b),
            ({
                let n = old(self).states@.len() as int;
                let h = image_header_end.index as int;
                let (begin, end) = match states_index_range {
                    Some(range) => (range.begin.index as int, range.end.index as int),
                    None => (0, n),
                };
                match r {
                    Ok(_) => final(self).digests_updated(old(self), begin, end, h, digest_data_block),
                    Err(e) => exists|b: int|
                        {
                            &&& begin <= b < end
                            &&& old(self).needs_digest(b, h)
                            &&& #[trigger] digest_failed(digest_data_block, old(self).states@[b], h, e)
                            &&& final(self).digests_updated(old(self), begin, b, h, digest_data_block)
                        },
                }
            }),
    {
        let ghost o = *self;
        let ghost h = image_header_end.index as int;
        let (begin, end): (usize, usize) = match states_index_range {
            Some(range) => (range.begin.index, range.end.index),
            None => (0, self.states.len()),
        };
        let mut b: usize = begin;
        while b < end
            invariant
                o == *old(self),
                o.wf(),
                h == image_header_end.index,
                begin <= b <= end <= self.states@.len(),
                (begin as int, end as int) == match states_index_range {
                    Some(range) => (range.begin.index as int, range.end.index as int),
                    None => (0, o.states@.len() as int),
                },
                forall|target: PhysicalAllocBlockIndex, data: Vec<Option<&[u8]>>| #[trigger]
                    call_requires(digest_data_block, (target, data)),
                self.same_layout(&o),
                self.states@.len() == o.states@.len(),
                forall|i: int| 0 <= i < o.states@.len() ==> #[trigger] self.same_but_digest(&o, i),
                self.digests_updated(&o, begin as int, b as int, h, digest_data_block),
            decreases end - b,
        {
            let ghost m = *self;
            let cur: usize = self.find_next_needing_auth_digest(b, end, image_header_end);
            proof {
                assert forall|i: int| b <= i < o.states@.len() implies self.states@[i] == #[trigger] o.states@[i] by {
                    assert(self.same_but_digest(&o, i));
                }
                assert forall|i: int| b <= i < cur implies !#[trigger] o.needs_digest(i, h) by {
                    assert(!self.needs_digest(i, h));
                }
                assert(self.digests_updated(&o, begin as int, cur as int, h, digest_data_block));
            }
            if cur == end {
                b = end;
                continue ;
            }
            proof {
                assert(self.states@[cur as int] == o.states@[cur as int]);
                assert(o.needs_digest(cur as int, h));
            }
            let target = self.states[cur].target_allocation_blocks_begin;
            let data = match collect_auth_digest_allocation_blocks(&self.states[cur], image_header_end) {
                Ok(data) => data,
                Err(e) => {
                    proof {
                        self.lemma_same_but_digest_wf(&o);
                        assert(digest_failed(digest_data_block, o.states@[cur as int], h, e));
                    }
                    return Err(e);
                },
            };
            let ghost d = data;
            let digest = match digest_data_block(target, data) {
                Ok(digest) => digest,
                Err(e) => {
                    proof {
                        self.lemma_same_but_digest_wf(&o);
                        assert(call_ensures(digest_data_block, (target, d), Err::<Vec<u8>, NvFsError>(e)));
                        assert(digest_failed(digest_data_block, o.states@[cur as int], h, e));
                    }
                    return Err(e);
                },
            };
            proof {
                assert(call_ensures(digest_data_block, (target, d), Ok::<Vec<u8>, NvFsError>(digest)));
                assert(digest_computed(digest_data_block, o.states@[cur as int], h, digest));
            }
            self.states[cur].auth_digest = Some(digest);
            proof {
                assert forall|i: int| 0 <= i < o.states@.len() implies #[trigger] self.same_but_digest(&o, i) by {
                    assert(m.same_but_digest(&o, i));
                }
                assert forall|i: int| 0 <= i < o.states@.len() && i != cur implies #[trigger] self.states@[i]
                    == m.states@[i] by {}
                assert(self.digests_updated(&o, begin as int, cur + 1, h, digest_data_block));
            }
            b = cur + 1;
        }
        proof {
            self.lemma_same_but_digest_wf(&o);
        }
        Ok(())
    }

    /// The authentication digests of all entries in a range which needed it
    /// have been computed, with all others being the same.
    pub open spec fn digests_updated<
        F: Fn(PhysicalAllocBlockIndex, Vec<Option<&[u8]>>) -> Result<Vec<u8>, NvFsError>,
    >(&self, old_states: &Self, begin: int, end: int, image_header_end: int, digest_data_block: &F) -> bool {
        forall|b: int|
            0 <= b < old_states.states@.len() ==> if begin <= b < end && old_states.needs_digest(b, image_header_end) {
                (#[trigger] self.states@[b]).auth_digest matches Some(digest) && digest_computed(
                    digest_data_block,
                    old_states.states@[b],
                    image_header_end,
                    digest,
                )
            } else {
                self.states@[b].auth_digest == old_states.states@[b].auth_digest
            }
    }

    proof fn lemma_same_but_digest_wf(&self, o: &Self)
        requires
            o.wf(),
            self.same_layout(o),
            self.states@.len() == o.states@.len(),
            forall|b: int| 0 <= b < o.states@.len() ==> #[trigger] self.same_but_digest(o, b),
        ensures
            self.wf(),
    {
        assert forall|b: int| 0 <= b < self.states@.len() implies {
            &&& (#[trigger] self.states@[b]).target_allocation_blocks_begin
                == o.states@[b].target_allocation_blocks_begin
            &&& self.states@[b].journal_staging_copy_allocation_blocks_begin
                == o.states@[b].journal_staging_copy_allocation_blocks_begin
            &&& self.states@[b].allocation_blocks_states@.len() == o.states@[b].allocation_blocks_states@.len()
        } by {
            assert(self.same_but_digest(o, b));
        }
        self.lemma_same_shape_wf(o);
    }
}

/// The digest has been computed from an Authentication Tree Data Block's data.
pub open spec fn digest_computed<
    F: Fn(PhysicalAllocBlockIndex, Vec<Option<&[u8]>>) -> Result<Vec<u8>, NvFsError>,
>(digest_data_block: &F, state: AuthTreeDataBlockUpdateState, image_header_end: int, digest: Vec<u8>) -> bool {
    exists|data: Vec<Option<&[u8]>>|
        collected(state, image_header_end, data@) && #[trigger] call_ensures(
            digest_data_block,
            (state.target_allocation_blocks_begin, data),
            Ok::<Vec<u8>, NvFsError>(digest),
        )
}

/// Computing the digest from an Authentication Tree Data Block's data failed.
pub open spec fn digest_failed<
    F: Fn(PhysicalAllocBlockIndex, Vec<Option<&[u8]>>) -> Result<Vec<u8>, NvFsError>,
>(digest_data_block: &F, state: AuthTreeDataBlockUpdateState, image_header_end: int, e: NvFsError) -> bool {
    ||| e == NvFsError::MemoryAllocationFailure && !data_unavailable(state, image_header_end)
    ||| e == NvFsError::Internal && data_unavailable(state, image_header_end)
    ||| exists|data: Vec<Option<&[u8]>>|
        collected(state, image_header_end, data@) && #[trigger] call_ensures(
            digest_data_block,
            (state.target_allocation_blocks_begin, data),
            Err::<Vec<u8>, NvFsError>(e),
        )
}

} // verus!
