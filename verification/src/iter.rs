//! Iteration over Allocation Block level update tracking states and their
//! update staging buffers.
use crate::align;
use crate::block_state::{AllocationBlockUpdateStagedUpdate, AllocationBlockUpdateState};
use crate::fs::{CryptoError, NvFsError};
use crate::layout::PhysicalAllocBlockIndex;
use crate::states::AuthTreeDataBlocksUpdateStates;
use crate::states_index;
use crate::states_index::{
    AuthTreeDataBlocksUpdateStatesAllocationBlockIndex, AuthTreeDataBlocksUpdateStatesAllocationBlocksIndexRange,
    AuthTreeDataBlocksUpdateStatesIndex, AuthTreeDataBlocksUpdateStatesIndexRange,
};
use vstd::prelude::*;

verus! {

impl AuthTreeDataBlocksUpdateStates {
    /// Bounds of an iteration over Allocation Block level entries.
    pub open spec fn iteration_bounds(
        &self,
        range: Option<&AuthTreeDataBlocksUpdateStatesAllocationBlocksIndexRange>,
    ) -> (int, int, int, int) {
        match range {
            Some(range) => (range.begin.block(), range.begin.offset(), range.end.block(), range.end.offset()),
            None => (0, 0, self.states@.len() as int, 0),
        }
    }

    /// Access the entries in an index range.
    ///
    /// If `range` is specified, restrict to it, otherwise access all entries.
    pub fn iter_auth_tree_data_blocks(
        &self,
        range: Option<&AuthTreeDataBlocksUpdateStatesIndexRange>,
    ) -> (r: &[crate::states::AuthTreeDataBlockUpdateState])
        requires
            range matches Some(range) ==> self.valid_range(range),
        ensures
            r@ == match range {
                Some(range) => self.states@.subrange(range.begin.index as int, range.end.index as int),
                None => self.states@,
            },
    {
        match range {
            Some(range) => {
                vstd::slice::slice_subrange(self.states.as_slice(), range.begin.index, range.end.index)
            },
            None => self.states.as_slice(),
        }
    }

    /// Iterate over Allocation Block level entries.
    ///
    /// If `range` is specified, restrict the iteration to it, otherwise iterate
    /// over all entries.
    pub fn iter_allocation_blocks(
        &self,
        states_allocation_blocks_range: Option<&AuthTreeDataBlocksUpdateStatesAllocationBlocksIndexRange>,
    ) -> (r: AuthTreeDataBlocksUpdateStatesAllocationBlocksIter<'_>)
        requires
            self.wf(),
            states_allocation_blocks_range matches Some(range) ==> self.valid_blocks_range(range),
        ensures
            r.wf(),
            *r.states == *self,
            (r.next_index.block(), r.next_index.offset(), r.end.block(), r.end.offset()) == self.iteration_bounds(
                states_allocation_blocks_range,
            ),
    {
        AuthTreeDataBlocksUpdateStatesAllocationBlocksIter::new(self, states_allocation_blocks_range)
    }

    /// Iterate over Allocation Block level entries with `mut` access.
    ///
    /// If `range` is specified, restrict the iteration to it, otherwise iterate
    /// over all entries.
    pub fn iter_allocation_blocks_mut(
        &self,
        states_allocation_blocks_range: Option<&AuthTreeDataBlocksUpdateStatesAllocationBlocksIndexRange>,
    ) -> (r: AuthTreeDataBlocksUpdateStatesAllocationBlocksIterMut)
        requires
            self.wf(),
            states_allocation_blocks_range matches Some(range) ==> self.valid_blocks_range(range),
        ensures
            r.wf(self),
            (r.next_index.block(), r.next_index.offset(), r.end.block(), r.end.offset()) == self.iteration_bounds(
                states_allocation_blocks_range,
            ),
    {
        AuthTreeDataBlocksUpdateStatesAllocationBlocksIterMut::new(self, states_allocation_blocks_range)
    }

    /// Iterate over the combined data update staging buffers in a given
    /// Allocation Block level index range with `mut` access.
    ///
    /// The data update staging buffers must have been allocated before,
    /// otherwise an error of [`NvFsError::Internal`] is returned.
    pub fn iter_allocation_blocks_update_staging_bufs_mut(
        &self,
        states_allocation_blocks_range: &AuthTreeDataBlocksUpdateStatesAllocationBlocksIndexRange,
    ) -> (r: Result<AuthTreeDataBlocksUpdateStatesAllocationBlocksStagedUpdateBufsIterMut, NvFsError>)
        requires
            self.wf(),
            self.valid_blocks_range(states_allocation_blocks_range),
        ensures
            ({
                let range = *states_allocation_blocks_range;
                r is Err <==> range.begin != range.end && staging_buf_error(
                    self.block(range.begin.block(), range.begin.offset()),
                ) is Some
            }),
            r matches Err(e) ==> e == NvFsError::Internal,
            r matches Ok(iter) ==> {
                let range = *states_allocation_blocks_range;
                &&& iter.wf(self)
                &&& iter.allocation_block_size_128b_log2 == self.allocation_block_size_128b_log2
                &&& iter.update_states_allocation_blocks_iter.end == range.end
                &&& iter.remaining(self) == self.staged_bytes(
                    range.begin.position(self.auth_log2()),
                    range.end.position(self.auth_log2()),
                )
                &&& if range.begin == range.end {
                    &&& iter.head is None
                    &&& iter.update_states_allocation_blocks_iter.next_index == range.begin
                } else {
                    &&& iter.head == Some(StagedUpdateBufPosition { index: range.begin, offset: 0 })
                    &&& iter.update_states_allocation_blocks_iter.next_index.position(self.auth_log2())
                        == range.begin.position(self.auth_log2()) + 1
                }
            },
    {
        let iter = self.iter_allocation_blocks_mut(Some(states_allocation_blocks_range));
        AuthTreeDataBlocksUpdateStatesAllocationBlocksStagedUpdateBufsIterMut::new(
            iter,
            self,
            self.allocation_block_size_128b_log2,
        )
    }
}

/// Iterator returned by
/// [`AuthTreeDataBlocksUpdateStates::iter_allocation_blocks()`].
#[derive(Clone, Copy)]
pub struct AuthTreeDataBlocksUpdateStatesAllocationBlocksIter<'a> {
    pub states: &'a AuthTreeDataBlocksUpdateStates,
    pub next_index: AuthTreeDataBlocksUpdateStatesAllocationBlockIndex,
    pub end: AuthTreeDataBlocksUpdateStatesAllocationBlockIndex,
}

impl<'a> AuthTreeDataBlocksUpdateStatesAllocationBlocksIter<'a> {
    /// The range still to get iterated over is valid.
    pub open spec fn wf(&self) -> bool {
        &&& self.states.wf()
        &&& self.states.valid_blocks_range(
            &(AuthTreeDataBlocksUpdateStatesAllocationBlocksIndexRange { begin: self.next_index, end: self.end }),
        )
    }

    /// Instantiate an iterator.
    pub fn new(
        states: &'a AuthTreeDataBlocksUpdateStates,
        states_allocation_blocks_range: Option<&AuthTreeDataBlocksUpdateStatesAllocationBlocksIndexRange>,
    ) -> (r: Self)
        requires
            states.wf(),
            states_allocation_blocks_range matches Some(range) ==> states.valid_blocks_range(range),
        ensures
            r.wf(),
            *r.states == *states,
            (r.next_index.block(), r.next_index.offset(), r.end.block(), r.end.offset()) == states.iteration_bounds(
                states_allocation_blocks_range,
            ),
    {
        let cursor = AuthTreeDataBlocksUpdateStatesAllocationBlocksIterMut::new(states, states_allocation_blocks_range);
        cursor.peek(states)
    }

    /// Obtain the next Allocation Block level entry together with its
    /// associated storage location, if any.
    pub fn next(&mut self) -> (r: Option<(PhysicalAllocBlockIndex, &'a AllocationBlockUpdateState)>)
        requires
            old(self).wf(),
        ensures
            final(self).wf(),
            *final(self).states == *old(self).states,
            final(self).end == old(self).end,
            r is None <==> old(self).next_index == old(self).end,
            r is None ==> final(self).next_index == old(self).next_index,
            r matches Some((location, state)) ==> {
                let l = old(self).states.auth_log2();
                &&& location.index == old(self).states.block_target(old(self).next_index)
                &&& *state == old(self).states.block(old(self).next_index.block(), old(self).next_index.offset())
                &&& final(self).next_index.position(l) == old(self).next_index.position(l) + 1
            },
    {
        if self.next_index == self.end {
            return None;
        }
        let index = self.next_index;
        let location = self.states.get_allocation_block_target(&index);
        let state = self.states.allocation_block(&index);
        self.next_index = index.step(self.states.auth_tree_data_block_allocation_blocks_log2 as u32);
        Some((location, state))
    }
}

/// Iterator returned by
/// [`AuthTreeDataBlocksUpdateStates::iter_allocation_blocks_mut()`].
///
/// The iterator does not borrow from the collection, it is to be passed to
/// [`next()`](Self::next) each.
#[derive(Clone, Copy)]
pub struct AuthTreeDataBlocksUpdateStatesAllocationBlocksIterMut {
    pub next_index: AuthTreeDataBlocksUpdateStatesAllocationBlockIndex,
    pub end: AuthTreeDataBlocksUpdateStatesAllocationBlockIndex,
}

impl AuthTreeDataBlocksUpdateStatesAllocationBlocksIterMut {
    /// The range still to get iterated over is valid.
    pub open spec fn wf(&self, states: &AuthTreeDataBlocksUpdateStates) -> bool {
        states.valid_blocks_range(
            &(AuthTreeDataBlocksUpdateStatesAllocationBlocksIndexRange { begin: self.next_index, end: self.end }),
        )
    }

    /// Instantiate an iterator.
    pub fn new(
        states: &AuthTreeDataBlocksUpdateStates,
        states_allocation_blocks_range: Option<&AuthTreeDataBlocksUpdateStatesAllocationBlocksIndexRange>,
    ) -> (r: Self)
        requires
            states.wf(),
            states_allocation_blocks_range matches Some(range) ==> states.valid_blocks_range(range),
        ensures
            r.wf(states),
            (r.next_index.block(), r.next_index.offset(), r.end.block(), r.end.offset()) == states.iteration_bounds(
                states_allocation_blocks_range,
            ),
    {
        match states_allocation_blocks_range {
            Some(range) => AuthTreeDataBlocksUpdateStatesAllocationBlocksIterMut {
                next_index: range.begin,
                end: range.end,
            },
            None => {
                proof {
                    align::lemma_block_size_pos(states.auth_log2());
                }
                AuthTreeDataBlocksUpdateStatesAllocationBlocksIterMut {
                    next_index: AuthTreeDataBlocksUpdateStatesAllocationBlockIndex::from(
                        AuthTreeDataBlocksUpdateStatesIndex { index: 0 },
                    ),
                    end: AuthTreeDataBlocksUpdateStatesAllocationBlockIndex::from(
                        AuthTreeDataBlocksUpdateStatesIndex { index: states.states.len() },
                    ),
                }
            },
        }
    }

    /// Spawn off an [`AuthTreeDataBlocksUpdateStatesAllocationBlocksIter`] from
    /// the current position.
    pub fn peek<'a>(
        &self,
        states: &'a AuthTreeDataBlocksUpdateStates,
    ) -> (r: AuthTreeDataBlocksUpdateStatesAllocationBlocksIter<'a>)
        requires
            states.wf(),
            self.wf(states),
        ensures
            r.wf(),
            *r.states == *states,
            r.next_index == self.next_index,
            r.end == self.end,
    {
        AuthTreeDataBlocksUpdateStatesAllocationBlocksIter { states, next_index: self.next_index, end: self.end }
    }

    /// Move past the next Allocation Block level entry, if any.
    fn advance(
        &mut self,
        states: &AuthTreeDataBlocksUpdateStates,
    ) -> (r: Option<AuthTreeDataBlocksUpdateStatesAllocationBlockIndex>)
        requires
            states.wf(),
            old(self).wf(states),
        ensures
            final(self).wf(states),
            final(self).end == old(self).end,
            r is None <==> old(self).next_index == old(self).end,
            r is None ==> *final(self) == *old(self),
            r matches Some(index) ==> {
                let l = states.auth_log2();
                &&& index == old(self).next_index
                &&& states.valid_block_index(&index)
                &&& final(self).next_index.position(l) == index.position(l) + 1
            },
    {
        if self.next_index == self.end {
            return None;
        }
        let index = self.next_index;
        self.next_index = index.step(states.auth_tree_data_block_allocation_blocks_log2 as u32);
        proof {
            let l = states.auth_log2();
            states_index::lemma_position_injective(index, self.end, l);
            states_index::lemma_position_injective(self.end, index, l);
            states_index::lemma_position_injective(self.next_index, self.end, l);
        }
        Some(index)
    }

    /// Spawn off another iterator from the current position.
    pub fn peek_mut(&self) -> (r: Self)
        ensures
            r == *self,
    {
        *self
    }

    /// Obtain the next Allocation Block level entry together with its
    /// associated storage location, if any.
    pub fn next<'b>(
        &mut self,
        states: &'b mut AuthTreeDataBlocksUpdateStates,
    ) -> (r: Option<(PhysicalAllocBlockIndex, &'b mut AllocationBlockUpdateState)>)
        requires
            old(states).wf(),
            old(self).wf(old(states)),
        ensures
            final(self).wf(old(states)),
            final(self).end == old(self).end,
            r is None <==> old(self).next_index == old(self).end,
            r is None ==> final(self).next_index == old(self).next_index && *final(states) == *old(states),
            r matches Some((location, state)) ==> {
                let l = old(states).auth_log2();
                let index = old(self).next_index;
                &&& location.index == old(states).block_target(index)
                &&& *state == old(states).block(index.block(), index.offset())
                &&& final(self).next_index.position(l) == index.position(l) + 1
                &&& final(states).same_digests(old(states))
                &&& final(states).mapped(
                    old(states),
                    |b: int, k: int| b == index.block() && k == index.offset(),
                    |b: int, k: int| *final(state),
                )
            },
            final(states).wf(),
            final(self).wf(final(states)),
    {
        if self.next_index == self.end {
            return None;
        }
        let index = self.next_index;
        let location = states.get_allocation_block_target(&index);
        self.next_index = index.step(states.auth_tree_data_block_allocation_blocks_log2 as u32);
        let state = states.allocation_block_mut(&index);
        Some((location, state))
    }
}

/// Error to report for an attempt to access an Allocation Block's update
/// staging buffer, if any.
pub open spec fn staging_buf_error(state: AllocationBlockUpdateState) -> Option<CryptoError> {
    match state.staged_update {
        AllocationBlockUpdateStagedUpdate::Update { encrypted_data } => {
            if encrypted_data@.len() == 0 {
                Some(CryptoError::Internal)
            } else {
                None
            }
        },
        AllocationBlockUpdateStagedUpdate::FailedUpdate => Some(CryptoError::BufferStateIndeterminate),
        _ => Some(CryptoError::Internal),
    }
}

/// Contents of an Allocation Block's update staging buffer.
pub open spec fn staging_buf(state: AllocationBlockUpdateState) -> Seq<u8> {
    match state.staged_update {
        AllocationBlockUpdateStagedUpdate::Update { encrypted_data } => encrypted_data@,
        _ => Seq::empty(),
    }
}

impl AuthTreeDataBlocksUpdateStates {
    /// The Allocation Block level entry at a position in the sequence of all of
    /// them.
    pub open spec fn block_at(&self, position: int) -> AllocationBlockUpdateState {
        self.block(position / self.block_len(), position % self.block_len())
    }

    /// The combined contents of the update staging buffers in a range.
    pub open spec fn staged_bytes(&self, begin: int, end: int) -> Seq<u8>
        decreases end - begin,
    {
        if begin >= end {
            Seq::empty()
        } else {
            staging_buf(self.block_at(begin)) + self.staged_bytes(begin + 1, end)
        }
    }

    /// Position of the first entry without an update staging buffer in a range,
    /// or the range's end if there's none.
    pub open spec fn first_missing_buf(&self, begin: int, end: int) -> int
        decreases end - begin,
    {
        if begin >= end || staging_buf_error(self.block_at(begin)) is Some {
            begin
        } else {
            self.first_missing_buf(begin + 1, end)
        }
    }

    /// The current buffer, if any, followed by those in the range after it.
    pub open spec fn bufs_from(&self, head: Seq<u8>, begin: int, end: int) -> Seq<Seq<u8>> {
        seq![head] + Seq::new((end - begin) as nat, |i: int| staging_buf(self.block_at(begin + i)))
    }

    /// The slices obtained when iterating over the current buffer, if any, and
    /// those in the range after it.
    ///
    /// A buffer is obtained only if there's another one to move on to
    /// thereafter, or it is the last one.
    pub open spec fn slices_from(&self, head: Option<Seq<u8>>, begin: int, end: int) -> Seq<Seq<u8>> {
        match head {
            Some(head) => {
                let missing = self.first_missing_buf(begin, end);
                if missing < end {
                    self.bufs_from(head, begin, missing).drop_last()
                } else {
                    self.bufs_from(head, begin, end)
                }
            },
            None => Seq::empty(),
        }
    }

    /// The error encountered when iterating over the current buffer, if any, and
    /// those in the range after it.
    pub open spec fn slices_error(&self, head: Option<Seq<u8>>, begin: int, end: int) -> Option<CryptoError> {
        let missing = self.first_missing_buf(begin, end);
        if head is Some && missing < end {
            staging_buf_error(self.block_at(missing))
        } else {
            None
        }
    }

    /// Bounds on the position of the first entry without an update staging
    /// buffer.
    pub proof fn lemma_first_missing_buf(&self, begin: int, end: int)
        requires
            begin <= end,
        ensures
            begin <= self.first_missing_buf(begin, end) <= end,
            forall|p: int|
                begin <= p < self.first_missing_buf(begin, end) ==> staging_buf_error(
                    #[trigger] self.block_at(p),
                ) is None,
            self.first_missing_buf(begin, end) < end ==> staging_buf_error(
                self.block_at(self.first_missing_buf(begin, end)),
            ) is Some,
        decreases end - begin,
    {
        if begin < end && staging_buf_error(self.block_at(begin)) is None {
            self.lemma_first_missing_buf(begin + 1, end);
        }
    }

    /// The slices obtained when starting with the current buffer.
    proof fn lemma_slices_from(&self, head: Seq<u8>, begin: int, end: int)
        requires
            begin <= end,
        ensures
            begin == end ==> {
                &&& self.slices_from(Some(head), begin, end) == seq![head]
                &&& self.slices_error(Some(head), begin, end) is None
            },
            begin < end ==> match staging_buf_error(self.block_at(begin)) {
                Some(e) => {
                    &&& self.slices_from(Some(head), begin, end) == Seq::<Seq<u8>>::empty()
                    &&& self.slices_error(Some(head), begin, end) == Some(e)
                },
                None => {
                    let next = Some(staging_buf(self.block_at(begin)));
                    &&& self.slices_from(Some(head), begin, end) == seq![head] + self.slices_from(next, begin + 1, end)
                    &&& self.slices_error(Some(head), begin, end) == self.slices_error(next, begin + 1, end)
                },
            },
    {
        self.lemma_first_missing_buf(begin, end);
        if begin < end && staging_buf_error(self.block_at(begin)) is None {
            let missing = self.first_missing_buf(begin, end);
            let next = staging_buf(self.block_at(begin));
            self.lemma_first_missing_buf(begin + 1, end);
            assert(self.bufs_from(head, begin, missing) =~= seq![head] + self.bufs_from(next, begin + 1, missing));
            assert(self.bufs_from(head, begin, end) =~= seq![head] + self.bufs_from(next, begin + 1, end));
            assert(self.slices_from(Some(head), begin, end) =~= seq![head] + self.slices_from(
                Some(next),
                begin + 1,
                end,
            ));
        } else {
            assert(self.slices_from(Some(head), begin, end) =~= if begin < end {
                Seq::empty()
            } else {
                seq![head]
            });
        }
    }

    /// Whether the lengths of a buffer of given length and those of all update
    /// staging buffers in the range following it are multiples of some
    /// alignment, or the error encountered in the course of determining that.
    pub open spec fn all_buf_lens_aligned(
        &self,
        len: int,
        begin: int,
        end: int,
        alignment: int,
    ) -> Result<bool, CryptoError>
        decreases end - begin,
    {
        if begin >= end {
            Ok(len % alignment == 0)
        } else {
            match staging_buf_error(self.block_at(begin)) {
                Some(e) => Err(e),
                None => {
                    if len % alignment != 0 {
                        Ok(false)
                    } else {
                        self.all_buf_lens_aligned(
                            staging_buf(self.block_at(begin)).len() as int,
                            begin + 1,
                            end,
                            alignment,
                        )
                    }
                },
            }
        }
    }

    /// The combined contents depend only on the entries in the range.
    proof fn lemma_staged_bytes_congruent(&self, other: &Self, begin: int, end: int)
        requires
            forall|p: int| begin <= p < end ==> #[trigger] self.block_at(p) == other.block_at(p),
        ensures
            self.staged_bytes(begin, end) == other.staged_bytes(begin, end),
        decreases end - begin,
    {
        if begin < end {
            assert(self.block_at(begin) == other.block_at(begin));
            self.lemma_staged_bytes_congruent(other, begin + 1, end);
        }
    }

    /// The entry at an index's position is the one it refers to.
    pub proof fn lemma_block_at(&self, index: AuthTreeDataBlocksUpdateStatesAllocationBlockIndex)
        requires
            index.wf(self.auth_log2()),
        ensures
            self.block_at(index.position(self.auth_log2())) == self.block(index.block(), index.offset()),
    {
        align::lemma_block_size_pos(self.auth_log2());
        vstd::arithmetic::div_mod::lemma_fundamental_div_mod_converse(
            index.position(self.auth_log2()),
            self.block_len(),
            index.block(),
            index.offset(),
        );
    }
}

/// Access an Allocation Block's update staging buffer.
fn get_staging_buf(state: &AllocationBlockUpdateState) -> (r: Result<&[u8], CryptoError>)
    ensures
        match staging_buf_error(*state) {
            Some(e) => r == Err::<&[u8], CryptoError>(e),
            None => r matches Ok(buf) && buf@ == staging_buf(*state) && buf@.len() > 0,
        },
{
    match &state.staged_update {
        AllocationBlockUpdateStagedUpdate::Update { encrypted_data } => {
            if encrypted_data.is_empty() {
                return Err(CryptoError::Internal);
            }
            Ok(encrypted_data.as_slice())
        },
        AllocationBlockUpdateStagedUpdate::FailedUpdate => Err(CryptoError::BufferStateIndeterminate),
        _ => Err(CryptoError::Internal),
    }
}

/// The value is a power of two.
pub open spec fn is_power_of_two(x: int) -> bool {
    exists|k: nat| x == #[trigger] align::block_size(k)
}

/// Test whether a value is a power of two.
fn test_power_of_two(x: usize) -> (r: bool)
    ensures
        r == is_power_of_two(x as int),
{
    let mut p: usize = 1;
    let ghost mut k: nat = 0;
    proof {
        vstd::arithmetic::power2::lemma2_to64();
    }
    while p < x
        invariant
            p == align::block_size(k),
            forall|j: nat| j < k ==> #[trigger] align::block_size(j) < x,
        decreases usize::MAX - p,
    {
        proof {
            align::lemma_block_size_pos(k);
            vstd::arithmetic::power2::lemma_pow2_unfold(k + 1);
        }
        if p > usize::MAX - p {
            proof {
                assert forall|j: nat| #[trigger] align::block_size(j) != x by {
                    if j > k {
                        if j > k + 1 {
                            vstd::arithmetic::power2::lemma_pow2_strictly_increases(k + 1, j);
                        }
                    }
                }
            }
            return false;
        }
        p = p + p;
        proof {
            k = k + 1;
        }
    }
    proof {
        assert(p == align::block_size(k));
        if p != x {
            assert forall|j: nat| #[trigger] align::block_size(j) != x by {
                if j > k {
                    vstd::arithmetic::power2::lemma_pow2_strictly_increases(k, j);
                }
            }
        }
    }
    p == x
}

/// A slice of given contents has been handed to a callback, which either
/// accepted it or requested to stop.
pub open spec fn handed<F: Fn(&[u8]) -> bool>(cb: F, contents: Seq<u8>, proceed: bool) -> bool {
    exists|slice: &[u8]| slice@ == contents && #[trigger] call_ensures(cb, (slice,), proceed)
}

/// Some slices have been handed to a callback in order, up to and including the
/// first one it requested to stop at.
///
/// If it didn't at any of them, then the error, if any, is reported.
pub open spec fn walk_completed<F: Fn(&[u8]) -> bool>(
    cb: F,
    slices: Seq<Seq<u8>>,
    error: Option<CryptoError>,
    r: Result<(), CryptoError>,
) -> bool {
    exists|accepted: int| #[trigger] walk_ended(cb, slices, error, r, accepted)
}

/// A callback has accepted a given number of slices.
pub open spec fn walk_ended<F: Fn(&[u8]) -> bool>(
    cb: F,
    slices: Seq<Seq<u8>>,
    error: Option<CryptoError>,
    r: Result<(), CryptoError>,
    accepted: int,
) -> bool {
    &&& 0 <= accepted <= slices.len()
    &&& forall|i: int| 0 <= i < accepted ==> handed(cb, #[trigger] slices[i], true)
    &&& if accepted < slices.len() {
        handed(cb, slices[accepted], false) && r == Ok::<(), CryptoError>(())
    } else {
        match error {
            Some(e) => r == Err::<(), CryptoError>(e),
            None => r == Ok::<(), CryptoError>(()),
        }
    }
}

/// An error is reported only if there's an Allocation Block without an update
/// staging buffer and everything to get handed out before it had been accepted,
/// and it is reported always if the callback did not request to stop at any of
/// these.
pub proof fn law_missing_buffers_are_reported<F: Fn(&[u8]) -> bool>(
    cb: F,
    slices: Seq<Seq<u8>>,
    error: Option<CryptoError>,
    r: Result<(), CryptoError>,
)
    requires
        walk_completed(cb, slices, error, r),
    ensures
        r matches Err(e) ==> error == Some(e) && forall|i: int|
            0 <= i < slices.len() ==> handed(cb, #[trigger] slices[i], true),
        error is None ==> r is Ok,
        error is Some && (forall|i: int| 0 <= i < slices.len() ==> !handed(cb, #[trigger] slices[i], false))
            ==> r is Err,
{
    let accepted = choose|accepted: int| #[trigger] walk_ended(cb, slices, error, r, accepted);
    if accepted < slices.len() {
        assert(handed(cb, slices[accepted], false));
    }
}

/// Iterator over some Allocation Blocks' combined update staging buffers.
pub struct AuthTreeDataBlocksUpdateStatesAllocationBlocksStagedUpdateBufsIter<'a> {
    pub update_states_allocation_blocks_iter: AuthTreeDataBlocksUpdateStatesAllocationBlocksIter<'a>,
    pub head: Option<&'a [u8]>,
    pub allocation_block_size_128b_log2: u8,
}

impl<'a> AuthTreeDataBlocksUpdateStatesAllocationBlocksStagedUpdateBufsIter<'a> {
    /// The current buffer, if any, is not empty.
    pub open spec fn wf(&self) -> bool {
        &&& self.update_states_allocation_blocks_iter.wf()
        &&& self.allocation_block_size_128b_log2 + 7 < usize::BITS
        &&& self.head matches Some(head) ==> head@.len() > 0
    }

    /// Everything still to get iterated over.
    pub open spec fn remaining(&self) -> Seq<u8> {
        let iter = self.update_states_allocation_blocks_iter;
        let l = iter.states.auth_log2();
        match self.head {
            Some(head) => head@ + iter.states.staged_bytes(iter.next_index.position(l), iter.end.position(l)),
            None => Seq::empty(),
        }
    }

    /// The current buffer's contents.
    pub open spec fn head_bytes(&self) -> Option<Seq<u8>> {
        match self.head {
            Some(head) => Some(head@),
            None => None,
        }
    }

    /// The slices still to get iterated over, in case of no restrictions on
    /// their lengths.
    pub open spec fn slices(&self) -> Seq<Seq<u8>> {
        let iter = self.update_states_allocation_blocks_iter;
        let l = iter.states.auth_log2();
        iter.states.slices_from(self.head_bytes(), iter.next_index.position(l), iter.end.position(l))
    }

    /// The error encountered after having iterated over all slices, if any.
    pub open spec fn slices_error(&self) -> Option<CryptoError> {
        let iter = self.update_states_allocation_blocks_iter;
        let l = iter.states.auth_log2();
        iter.states.slices_error(self.head_bytes(), iter.next_index.position(l), iter.end.position(l))
    }

    /// Instantiate an iterator.
    ///
    /// An error of [`NvFsError::Internal`] is returned if the first Allocation
    /// Block in the range doesn't have an update staging buffer allocated.
    pub fn new(
        update_states_allocation_blocks_iter: AuthTreeDataBlocksUpdateStatesAllocationBlocksIter<'a>,
        allocation_block_size_128b_log2: u8,
    ) -> (r: Result<Self, NvFsError>)
        requires
            update_states_allocation_blocks_iter.wf(),
            allocation_block_size_128b_log2 + 7 < usize::BITS,
        ensures
            ({
                let iter = update_states_allocation_blocks_iter;
                let first = iter.states.block(iter.next_index.block(), iter.next_index.offset());
                let empty = iter.next_index == iter.end;
                &&& r is Err <==> !empty && staging_buf_error(first) is Some
                &&& r matches Err(e) ==> e == NvFsError::Internal
                &&& r matches Ok(s) ==> {
                    &&& s.wf()
                    &&& s.remaining() == iter.states.staged_bytes(
                        iter.next_index.position(iter.states.auth_log2()),
                        iter.end.position(iter.states.auth_log2()),
                    )
                    &&& s.allocation_block_size_128b_log2 == allocation_block_size_128b_log2
                    &&& *s.update_states_allocation_blocks_iter.states == *iter.states
                    &&& s.update_states_allocation_blocks_iter.end == iter.end
                    &&& if empty {
                        s.head is None && s.update_states_allocation_blocks_iter.next_index == iter.next_index
                    } else {
                        &&& s.head matches Some(head) && head@ == staging_buf(first)
                        &&& s.update_states_allocation_blocks_iter.next_index.position(iter.states.auth_log2())
                            == iter.next_index.position(iter.states.auth_log2()) + 1
                    }
                }
            }),
    {
        let mut iter = update_states_allocation_blocks_iter;
        proof {
            states_index::lemma_position_injective(iter.next_index, iter.end, iter.states.auth_log2());
            if iter.next_index != iter.end {
                iter.states.lemma_block_at(iter.next_index);
            }
        }
        let head = match iter.next() {
            Some((_, state)) => match get_staging_buf(state) {
                Ok(buf) => Some(buf),
                Err(_) => {
                    return Err(NvFsError::Internal);
                },
            },
            None => None,
        };
        Ok(
            AuthTreeDataBlocksUpdateStatesAllocationBlocksStagedUpdateBufsIter {
                update_states_allocation_blocks_iter: iter,
                head,
                allocation_block_size_128b_log2,
            },
        )
    }

    /// Length of the next slice to be returned in case of no restrictions, or
    /// zero if none.
    pub fn next_slice_len(&self) -> (r: usize)
        ensures
            r == match self.head {
                Some(head) => head@.len(),
                None => 0,
            },
    {
        match self.head {
            Some(head) => head.len(),
            None => 0,
        }
    }

    /// Obtain the next slice, if any.
    ///
    /// # Arguments:
    ///
    /// * `max_len` - Upper bound on the length of the slice to return, if any.
    pub fn next_slice(&mut self, max_len: Option<usize>) -> (r: Result<Option<&'a [u8]>, CryptoError>)
        requires
            old(self).wf(),
        ensures
            final(self).wf(),
            final(self).allocation_block_size_128b_log2 == old(self).allocation_block_size_128b_log2,
            *final(self).update_states_allocation_blocks_iter.states == *old(
                self,
            ).update_states_allocation_blocks_iter.states,
            final(self).update_states_allocation_blocks_iter.end == old(self).update_states_allocation_blocks_iter.end,
            r matches Ok(Some(slice)) ==> old(self).remaining() == slice@ + final(self).remaining(),
            r matches Ok(None) ==> old(self).remaining().len() == 0,
            old(self).head is None ==> r == Ok::<Option<&[u8]>, CryptoError>(None) && *final(self) == *old(self),
            old(self).head matches Some(head) ==> {
                let old_iter = old(self).update_states_allocation_blocks_iter;
                let iter = final(self).update_states_allocation_blocks_iter;
                if max_len matches Some(max_len) && max_len < head@.len() {
                    // Only a part of the current buffer is returned.
                    &&& r matches Ok(Some(slice)) && slice@ == head@.take(max_len->Some_0 as int)
                    &&& final(self).head matches Some(remaining) && remaining@ == head@.skip(max_len->Some_0 as int)
                    &&& iter.next_index == old_iter.next_index
                } else if old_iter.next_index == old_iter.end {
                    // It's the last one.
                    &&& r matches Ok(Some(slice)) && slice@ == head@
                    &&& final(self).head is None
                    &&& iter.next_index == old_iter.next_index
                } else {
                    // Move on to the next one.
                    let state = old_iter.states.block(old_iter.next_index.block(), old_iter.next_index.offset());
                    &&& iter.next_index.position(iter.states.auth_log2()) == old_iter.next_index.position(
                        iter.states.auth_log2(),
                    ) + 1
                    &&& match staging_buf_error(state) {
                        Some(e) => r == Err::<Option<&[u8]>, CryptoError>(e) && final(self).head is None,
                        None => {
                            &&& r matches Ok(Some(slice)) && slice@ == head@
                            &&& final(self).head matches Some(buf) && buf@ == staging_buf(state)
                        },
                    }
                }
            },
    {
        let head = match self.head {
            Some(head) => head,
            None => {
                return Ok(None);
            },
        };
        match max_len {
            Some(max_len) if max_len < head.len() => {
                let (slice, remaining) = head.split_at(max_len);
                self.head = Some(remaining);
                assert(head@ == slice@ + remaining@);
                return Ok(Some(slice));
            },
            _ => (),
        }
        proof {
            let iter = self.update_states_allocation_blocks_iter;
            states_index::lemma_position_injective(iter.next_index, iter.end, iter.states.auth_log2());
            if iter.next_index != iter.end {
                iter.states.lemma_block_at(iter.next_index);
            }
        }
        self.head = None;
        match self.update_states_allocation_blocks_iter.next() {
            Some((_, state)) => match get_staging_buf(state) {
                Ok(buf) => {
                    self.head = Some(buf);
                },
                Err(e) => {
                    return Err(e);
                },
            },
            None => (),
        }
        Ok(Some(head))
    }

    /// Spawn off another iterator from the current position.
    pub fn decoupled_borrow(&self) -> (r: AuthTreeDataBlocksUpdateStatesAllocationBlocksStagedUpdateBufsIter<'a>)
        ensures
            r == *self,
    {
        AuthTreeDataBlocksUpdateStatesAllocationBlocksStagedUpdateBufsIter {
            update_states_allocation_blocks_iter: self.update_states_allocation_blocks_iter,
            head: self.head,
            allocation_block_size_128b_log2: self.allocation_block_size_128b_log2,
        }
    }

    /// Hand all remaining slices to a callback until it requests to stop by
    /// returning `false`.
    ///
    /// Upon encountering an Allocation Block without an update staging buffer,
    /// an error is returned, unless it's been requested to stop before.
    ///
    /// # Arguments:
    ///
    /// * `cb` - The callback.
    pub fn for_each<F: Fn(&[u8]) -> bool>(&self, cb: &F) -> (r: Result<(), CryptoError>)
        requires
            self.wf(),
            forall|slice: &[u8]| #[trigger] call_requires(*cb, (slice,)),
        ensures
            walk_completed(*cb, self.slices(), self.slices_error(), r),
    {
        let mut iter = self.decoupled_borrow();
        let ghost l = self.update_states_allocation_blocks_iter.states.auth_log2();
        let ghost (slices, error) = (self.slices(), self.slices_error());
        let ghost mut accepted: int = 0;
        proof {
            assert(slices.skip(0) =~= slices);
        }
        loop
            invariant
                iter.wf(),
                l == self.update_states_allocation_blocks_iter.states.auth_log2(),
                *iter.update_states_allocation_blocks_iter.states == *self.update_states_allocation_blocks_iter.states,
                slices == self.slices(),
                error == self.slices_error(),
                0 <= accepted <= slices.len(),
                forall|i: int| 0 <= i < accepted ==> handed(*cb, #[trigger] slices[i], true),
                slices.skip(accepted) == iter.slices(),
                error == iter.slices_error(),
                forall|slice: &[u8]| #[trigger] call_requires(*cb, (slice,)),
            decreases
                    iter.update_states_allocation_blocks_iter.end.position(l)
                        - iter.update_states_allocation_blocks_iter.next_index.position(l),
                    if iter.head is Some {
                        1int
                    } else {
                        0
                    },
        {
            let ghost before = iter;
            proof {
                let it = iter.update_states_allocation_blocks_iter;
                states_index::lemma_position_injective(it.next_index, it.end, l);
                if it.next_index != it.end {
                    it.states.lemma_block_at(it.next_index);
                }
                if let Some(head) = iter.head_bytes() {
                    it.states.lemma_slices_from(head, it.next_index.position(l), it.end.position(l));
                }
            }
            let slice = match iter.next_slice(None) {
                Ok(Some(slice)) => slice,
                Ok(None) => {
                    assert(walk_ended(*cb, slices, error, Ok(()), accepted));
                    return Ok(());
                },
                Err(e) => {
                    assert(walk_ended(*cb, slices, error, Err(e), accepted));
                    return Err(e);
                },
            };
            proof {
                assert(before.slices() =~= seq![slice@] + iter.slices());
                assert(slices[accepted] == slices.skip(accepted)[0]);
                assert(slices.skip(accepted + 1) =~= slices.skip(accepted).skip(1));
                assert((seq![slice@] + iter.slices()).skip(1) =~= iter.slices());
            }
            let proceed: bool = cb(slice);
            assert(handed(*cb, slices[accepted], proceed));
            if !proceed {
                assert(walk_ended(*cb, slices, error, Ok(()), accepted));
                return Ok(());
            }
            proof {
                accepted = accepted + 1;
            }
        }
    }

    /// Determine whether the lengths of all remaining slices are multiples of
    /// some alignment.
    pub fn all_aligned_to(&self, alignment: usize) -> (r: Result<bool, CryptoError>)
        requires
            self.wf(),
            alignment > 0,
        ensures
            r == bufs_aligned(
                self.update_states_allocation_blocks_iter,
                match self.head {
                    Some(head) => Some(head@.len() as int),
                    None => None,
                },
                self.allocation_block_size_128b_log2 as nat,
                alignment as int,
            ),
    {
        let head = match self.head {
            Some(head) => head,
            None => {
                return Ok(true);
            },
        };
        let allocation_block_size: usize = align::block_size_usize(self.allocation_block_size_128b_log2 as u32 + 7);
        if alignment <= allocation_block_size && test_power_of_two(alignment) {
            // All Allocation Blocks are aligned. Check the head.
            return Ok(head.len() % alignment == 0);
        }
        let mut iter = self.decoupled_borrow();
        let ghost (states, l) = (
            self.update_states_allocation_blocks_iter.states,
            self.update_states_allocation_blocks_iter.states.auth_log2(),
        );
        let ghost end = self.update_states_allocation_blocks_iter.end;
        loop
            invariant
                alignment > 0,
                iter.wf(),
                iter.head matches Some(head) && {
                    let bufs = iter.update_states_allocation_blocks_iter;
                    &&& *bufs.states == *states
                    &&& bufs.end == end
                    &&& l == states.auth_log2()
                    &&& bufs_aligned(
                        self.update_states_allocation_blocks_iter,
                        Some(self.head->Some_0@.len() as int),
                        self.allocation_block_size_128b_log2 as nat,
                        alignment as int,
                    ) == states.all_buf_lens_aligned(
                        head@.len() as int,
                        bufs.next_index.position(l),
                        end.position(l),
                        alignment as int,
                    )
                },
                self.head is Some,
            decreases
                    end.position(l) - iter.update_states_allocation_blocks_iter.next_index.position(l),
        {
            proof {
                let bufs = iter.update_states_allocation_blocks_iter;
                states_index::lemma_position_injective(bufs.next_index, bufs.end, l);
                if bufs.next_index != bufs.end {
                    states.lemma_block_at(bufs.next_index);
                }
            }
            match iter.next_slice(None) {
                Ok(slice) => {
                    let aligned = match slice {
                        Some(slice) => slice.len() % alignment == 0,
                        None => true,
                    };
                    if !aligned {
                        return Ok(false);
                    }
                    if iter.head.is_none() {
                        return Ok(true);
                    }
                },
                Err(e) => {
                    return Err(e);
                },
            }
        }
    }
}

/// Whether the lengths of the buffers remaining in an iteration are multiples of
/// some alignment.
///
/// All Allocation Blocks are assumed to be aligned to any power of two not
/// exceeding their size.
pub open spec fn bufs_aligned(
    iter: AuthTreeDataBlocksUpdateStatesAllocationBlocksIter<'_>,
    head_len: Option<int>,
    allocation_block_size_128b_log2: nat,
    alignment: int,
) -> Result<bool, CryptoError> {
    let l = iter.states.auth_log2();
    match head_len {
        Some(len) => {
            if alignment <= align::block_size(allocation_block_size_128b_log2 + 7) && is_power_of_two(alignment) {
                Ok(len % alignment == 0)
            } else {
                iter.states.all_buf_lens_aligned(len, iter.next_index.position(l), iter.end.position(l), alignment)
            }
        },
        None => Ok(true),
    }
}

/// A position within some Allocation Block's update staging buffer.
#[derive(Clone, Copy)]
pub struct StagedUpdateBufPosition {
    /// Index of the Allocation Block level entry.
    pub index: AuthTreeDataBlocksUpdateStatesAllocationBlockIndex,
    /// Offset into the Allocation Block's update staging buffer.
    pub offset: usize,
}

/// Iterator over some Allocation Blocks' combined update staging buffers with
/// `mut` access, as returned by
/// [`AuthTreeDataBlocksUpdateStates::iter_allocation_blocks_update_staging_bufs_mut()`].
///
/// The iterator does not borrow from the collection, it is to be passed to the
/// individual operations each.
#[derive(Clone, Copy)]
pub struct AuthTreeDataBlocksUpdateStatesAllocationBlocksStagedUpdateBufsIterMut {
    pub update_states_allocation_blocks_iter: AuthTreeDataBlocksUpdateStatesAllocationBlocksIterMut,
    pub head: Option<StagedUpdateBufPosition>,
    pub allocation_block_size_128b_log2: u8,
}

impl AuthTreeDataBlocksUpdateStatesAllocationBlocksStagedUpdateBufsIterMut {
    /// The range still to get iterated over is valid and the current position,
    /// if any, is located within an update staging buffer.
    pub open spec fn wf(&self, states: &AuthTreeDataBlocksUpdateStates) -> bool {
        &&& self.update_states_allocation_blocks_iter.wf(states)
        &&& self.allocation_block_size_128b_log2 + 7 < usize::BITS
        &&& self.head matches Some(head) ==> {
            &&& states.valid_block_index(&head.index)
            &&& head.index.position(states.auth_log2()) + 1
                == self.update_states_allocation_blocks_iter.next_index.position(states.auth_log2())
            &&& staging_buf_error(states.block(head.index.block(), head.index.offset())) is None
            &&& head.offset < staging_buf(states.block(head.index.block(), head.index.offset())).len()
        }
    }

    /// The remaining part of the current buffer.
    pub open spec fn head_bytes(&self, states: &AuthTreeDataBlocksUpdateStates) -> Option<Seq<u8>> {
        match self.head {
            Some(head) => Some(
                staging_buf(states.block(head.index.block(), head.index.offset())).skip(head.offset as int),
            ),
            None => None,
        }
    }

    /// Everything still to get iterated over.
    pub open spec fn remaining(&self, states: &AuthTreeDataBlocksUpdateStates) -> Seq<u8> {
        let iter = self.update_states_allocation_blocks_iter;
        let l = states.auth_log2();
        match self.head_bytes(states) {
            Some(head) => head + states.staged_bytes(iter.next_index.position(l), iter.end.position(l)),
            None => Seq::empty(),
        }
    }

    /// The slices still to get iterated over, in case of no restrictions on
    /// their lengths.
    pub open spec fn slices(&self, states: &AuthTreeDataBlocksUpdateStates) -> Seq<Seq<u8>> {
        let iter = self.update_states_allocation_blocks_iter;
        let l = states.auth_log2();
        states.slices_from(self.head_bytes(states), iter.next_index.position(l), iter.end.position(l))
    }

    /// The error encountered after having iterated over all slices, if any.
    pub open spec fn slices_error(&self, states: &AuthTreeDataBlocksUpdateStates) -> Option<CryptoError> {
        let iter = self.update_states_allocation_blocks_iter;
        let l = states.auth_log2();
        states.slices_error(self.head_bytes(states), iter.next_index.position(l), iter.end.position(l))
    }

    /// Instantiate an iterator.
    ///
    /// An error of [`NvFsError::Internal`] is returned if the first Allocation
    /// Block in the range doesn't have an update staging buffer allocated.
    pub fn new(
        update_states_allocation_blocks_iter: AuthTreeDataBlocksUpdateStatesAllocationBlocksIterMut,
        states: &AuthTreeDataBlocksUpdateStates,
        allocation_block_size_128b_log2: u8,
    ) -> (r: Result<Self, NvFsError>)
        requires
            states.wf(),
            update_states_allocation_blocks_iter.wf(states),
            allocation_block_size_128b_log2 + 7 < usize::BITS,
        ensures
            ({
                let iter = update_states_allocation_blocks_iter;
                let l = states.auth_log2();
                let empty = iter.next_index == iter.end;
                &&& r is Err <==> !empty && staging_buf_error(
                    states.block(iter.next_index.block(), iter.next_index.offset()),
                ) is Some
                &&& r matches Err(e) ==> e == NvFsError::Internal
                &&& r matches Ok(s) ==> {
                    &&& s.wf(states)
                    &&& s.remaining(states) == states.staged_bytes(iter.next_index.position(l), iter.end.position(l))
                    &&& s.allocation_block_size_128b_log2 == allocation_block_size_128b_log2
                    &&& s.update_states_allocation_blocks_iter.end == iter.end
                    &&& if empty {
                        s.head is None && s.update_states_allocation_blocks_iter == iter
                    } else {
                        &&& s.head == Some(StagedUpdateBufPosition { index: iter.next_index, offset: 0 })
                        &&& s.update_states_allocation_blocks_iter.next_index.position(l)
                            == iter.next_index.position(l) + 1
                    }
                }
            }),
    {
        let mut iter = update_states_allocation_blocks_iter;
        proof {
            states_index::lemma_position_injective(iter.next_index, iter.end, states.auth_log2());
            if iter.next_index != iter.end {
                states.lemma_block_at(iter.next_index);
            }
        }
        let head = match iter.advance(states) {
            Some(index) => match get_staging_buf(states.allocation_block(&index)) {
                Ok(buf) => {
                    assert(buf@.skip(0) == buf@);
                    Some(StagedUpdateBufPosition { index, offset: 0 })
                },
                Err(_) => {
                    return Err(NvFsError::Internal);
                },
            },
            None => None,
        };
        Ok(
            AuthTreeDataBlocksUpdateStatesAllocationBlocksStagedUpdateBufsIterMut {
                update_states_allocation_blocks_iter: iter,
                head,
                allocation_block_size_128b_log2,
            },
        )
    }

    /// Length of the next slice to be returned in case of no restrictions, or
    /// zero if none.
    pub fn next_slice_len(&self, states: &AuthTreeDataBlocksUpdateStates) -> (r: usize)
        requires
            states.wf(),
            self.wf(states),
        ensures
            r == match self.head_bytes(states) {
                Some(head) => head.len(),
                None => 0,
            },
    {
        self.decoupled_borrow(states).next_slice_len()
    }

    /// Obtain the next slice, if any.
    ///
    /// # Arguments:
    ///
    /// * `states` - The collection being iterated over.
    /// * `max_len` - Upper bound on the length of the slice to return, if any.
    pub fn next_slice_mut<'b>(
        &mut self,
        states: &'b mut AuthTreeDataBlocksUpdateStates,
        max_len: Option<usize>,
    ) -> (r: Result<Option<&'b mut [u8]>, CryptoError>)
        requires
            old(states).wf(),
            old(self).wf(old(states)),
        ensures
            final(self).wf(old(states)),
            final(self).allocation_block_size_128b_log2 == old(self).allocation_block_size_128b_log2,
            final(self).update_states_allocation_blocks_iter.end == old(self).update_states_allocation_blocks_iter.end,
            old(self).head is None ==> (r matches Ok(None)) && *final(self) == *old(self),
            r matches Ok(None) ==> old(self).head is None,
            r matches Ok(Some(slice)) ==> {
                // The slice is from the current position and the iterator gets
                // advanced past it.
                &&& old(self).remaining(old(states)) == slice@ + final(self).remaining(old(states))
                &&& slice@ == match max_len {
                    Some(max_len) => if max_len < old(self).head_bytes(old(states))->Some_0.len() {
                        old(self).head_bytes(old(states))->Some_0.take(max_len as int)
                    } else {
                        old(self).head_bytes(old(states))->Some_0
                    },
                    None => old(self).head_bytes(old(states))->Some_0,
                }
                // All that may get changed is what's in the slice.
                &&& old(self).head matches Some(head) && slice_rewritten(
                    old(states),
                    final(states),
                    head,
                    slice@.len() as int,
                    final(slice)@,
                )
            },
            // Overwriting the slice does not affect anything still to get iterated over.
            r matches Ok(Some(slice)) ==> {
                &&& final(states).wf()
                &&& final(slice)@.len() == slice@.len() ==> {
                    &&& final(self).wf(final(states))
                    &&& final(self).remaining(final(states)) == final(self).remaining(old(states))
                }
            },
            // The iterator moves on within the current buffer, or to the next one.
            old(self).head matches Some(head) ==> {
                let old_iter = old(self).update_states_allocation_blocks_iter;
                let iter = final(self).update_states_allocation_blocks_iter;
                let l = old(states).auth_log2();
                if max_len matches Some(m) && m < old(self).head_bytes(old(states))->Some_0.len() {
                    &&& iter == old_iter
                    &&& final(self).head == Some(
                        StagedUpdateBufPosition {
                            index: head.index,
                            offset: (head.offset + max_len->Some_0) as usize,
                        },
                    )
                } else if old_iter.next_index == old_iter.end {
                    &&& iter == old_iter
                    &&& final(self).head is None
                } else {
                    &&& iter.next_index.position(l) == old_iter.next_index.position(l) + 1
                    &&& r is Ok ==> final(self).head == Some(
                        StagedUpdateBufPosition { index: old_iter.next_index, offset: 0 },
                    )
                }
            },
            !(r matches Ok(Some(_))) ==> *final(states) == *old(states),
            // An error gets returned exactly if the slice is at the current
            // buffer's tail and the one to follow is not there.
            r is Err <==> {
                let iter = old(self).update_states_allocation_blocks_iter;
                &&& old(self).head_bytes(old(states)) matches Some(head) && (max_len matches Some(max_len) ==> max_len
                    >= head.len())
                &&& iter.next_index != iter.end
                &&& staging_buf_error(old(states).block(iter.next_index.block(), iter.next_index.offset())) is Some
            },
            r matches Err(e) ==> {
                let iter = old(self).update_states_allocation_blocks_iter;
                &&& Some(e) == staging_buf_error(
                    old(states).block(iter.next_index.block(), iter.next_index.offset()),
                )
                &&& final(self).head is None
            },
    {
        let head = match self.head {
            Some(head) => head,
            None => {
                return Ok(None);
            },
        };
        proof {
            let iter = self.update_states_allocation_blocks_iter;
            states_index::lemma_position_injective(iter.next_index, iter.end, states.auth_log2());
            if iter.next_index != iter.end {
                states.lemma_block_at(iter.next_index);
            }
        }
        let buf_len: usize = match get_staging_buf(states.allocation_block(&head.index)) {
            Ok(buf) => buf.len(),
            Err(_) => {
                return Err(CryptoError::Internal);
            },
        };
        let head_len: usize = buf_len - head.offset;
        let slice_len: usize = match max_len {
            Some(max_len) => if max_len < head_len {
                max_len
            } else {
                head_len
            },
            None => head_len,
        };
        let ghost buf = staging_buf(states.block(head.index.block(), head.index.offset()));
        let ghost old_self = *self;
        if slice_len < head_len {
            self.head = Some(StagedUpdateBufPosition { index: head.index, offset: head.offset + slice_len });
            assert(buf.skip(head.offset as int) == buf.skip(head.offset as int).take(slice_len as int) + buf.skip(
                head.offset + slice_len,
            ));
        } else {
            self.head = None;
            match self.update_states_allocation_blocks_iter.advance(states) {
                Some(index) => match get_staging_buf(states.allocation_block(&index)) {
                    Ok(next_buf) => {
                        assert(next_buf@.skip(0) == next_buf@);
                        self.head = Some(StagedUpdateBufPosition { index, offset: 0 });
                    },
                    Err(e) => {
                        return Err(e);
                    },
                },
                None => (),
            }
        }
        assert(old_self.remaining(states) == buf.skip(head.offset as int).take(slice_len as int) + self.remaining(
            states,
        ));
        proof {
            let (iter, old_states) = (*self, *states);
            assert forall|new_states: &AuthTreeDataBlocksUpdateStates, contents: Seq<u8>| #[trigger]
                slice_rewritten(&old_states, new_states, head, slice_len as int, contents) implies new_states.wf() && (
            contents.len() == slice_len ==> iter.wf(new_states) && iter.remaining(new_states) == iter.remaining(
                &old_states,
            )) by {
                new_states.lemma_same_shape_wf(&old_states);
                if contents.len() == slice_len {
                    lemma_remaining_not_rewritten(
                        iter,
                        &old_states,
                        new_states,
                        head,
                        slice_len as int,
                        contents,
                    );
                }
            }
        }
        let state = states.allocation_block_mut(&head.index);
        match &mut state.staged_update {
            AllocationBlockUpdateStagedUpdate::Update { encrypted_data } => {
                let (preceding, remaining) = encrypted_data.as_mut_slice().split_at_mut(head.offset);
                let (slice, following) = remaining.split_at_mut(slice_len);
                assert(slice@ == buf.skip(head.offset as int).take(slice_len as int));
                assert(preceding@ == buf.take(head.offset as int));
                assert(following@ == buf.skip(head.offset + slice_len));
                assert(slice_rewritten(old(states), &after_borrow(*states), head, slice_len as int, final(slice)@));
                Ok(Some(slice))
            },
            _ => Err(CryptoError::Internal),
        }
    }

    /// Hand all remaining slices to a callback until it requests to stop by
    /// returning `false`.
    ///
    /// Upon encountering an Allocation Block without an update staging buffer,
    /// an error is returned, unless it's been requested to stop before.
    ///
    /// # Arguments:
    ///
    /// * `states` - The collection being iterated over.
    /// * `cb` - The callback.
    pub fn for_each<F: Fn(&[u8]) -> bool>(
        &self,
        states: &AuthTreeDataBlocksUpdateStates,
        cb: &F,
    ) -> (r: Result<(), CryptoError>)
        requires
            states.wf(),
            self.wf(states),
            forall|slice: &[u8]| #[trigger] call_requires(*cb, (slice,)),
        ensures
            walk_completed(*cb, self.slices(states), self.slices_error(states), r),
    {
        self.decoupled_borrow(states).for_each(cb)
    }

    /// Determine whether the lengths of all remaining slices are multiples of
    /// some alignment.
    pub fn all_aligned_to(
        &self,
        states: &AuthTreeDataBlocksUpdateStates,
        alignment: usize,
    ) -> (r: Result<bool, CryptoError>)
        requires
            states.wf(),
            self.wf(states),
            alignment > 0,
        ensures
            r == bufs_aligned(
                (AuthTreeDataBlocksUpdateStatesAllocationBlocksIter {
                    states,
                    next_index: self.update_states_allocation_blocks_iter.next_index,
                    end: self.update_states_allocation_blocks_iter.end,
                }),
                match self.head_bytes(states) {
                    Some(head) => Some(head.len() as int),
                    None => None,
                },
                self.allocation_block_size_128b_log2 as nat,
                alignment as int,
            ),
    {
        self.decoupled_borrow(states).all_aligned_to(alignment)
    }

    /// Spawn off an
    /// [`AuthTreeDataBlocksUpdateStatesAllocationBlocksStagedUpdateBufsIter`]
    /// from the current position.
    pub fn decoupled_borrow<'b>(
        &self,
        states: &'b AuthTreeDataBlocksUpdateStates,
    ) -> (r: AuthTreeDataBlocksUpdateStatesAllocationBlocksStagedUpdateBufsIter<'b>)
        requires
            states.wf(),
            self.wf(states),
        ensures
            r.wf(),
            *r.update_states_allocation_blocks_iter.states == *states,
            r.update_states_allocation_blocks_iter.next_index == self.update_states_allocation_blocks_iter.next_index,
            r.update_states_allocation_blocks_iter.end == self.update_states_allocation_blocks_iter.end,
            r.allocation_block_size_128b_log2 == self.allocation_block_size_128b_log2,
            match self.head_bytes(states) {
                Some(head_bytes) => r.head matches Some(head) && head@ == head_bytes,
                None => r.head is None,
            },
            r.remaining() == self.remaining(states),
    {
        let head = match self.head {
            Some(head) => match get_staging_buf(states.allocation_block(&head.index)) {
                Ok(buf) => {
                    let (_, remaining) = buf.split_at(head.offset);
                    Some(remaining)
                },
                Err(_) => None,
            },
            None => None,
        };
        AuthTreeDataBlocksUpdateStatesAllocationBlocksStagedUpdateBufsIter {
            update_states_allocation_blocks_iter: self.update_states_allocation_blocks_iter.peek(states),
            head,
            allocation_block_size_128b_log2: self.allocation_block_size_128b_log2,
        }
    }

    /// Spawn off another iterator from the current position.
    pub fn decoupled_borrow_mut(&self) -> (r: Self)
        ensures
            r == *self,
    {
        *self
    }
}

/// Some part of a single Allocation Block's update staging buffer has been
/// replaced, with everything else retained.
pub open spec fn slice_rewritten(
    old_states: &AuthTreeDataBlocksUpdateStates,
    new_states: &AuthTreeDataBlocksUpdateStates,
    position: StagedUpdateBufPosition,
    len: int,
    contents: Seq<u8>,
) -> bool {
    let (block, offset) = (position.index.block(), position.index.offset());
    let old_buf = staging_buf(old_states.block(block, offset));
    &&& new_states.same_shape(old_states)
    &&& new_states.same_digests(old_states)
    &&& forall|b: int, k: int|
        old_states.has_block(b, k) && !(b == block && k == offset) ==> #[trigger] new_states.block(b, k)
            == old_states.block(b, k)
    &&& new_states.block(block, offset).nv_sync_state == old_states.block(block, offset).nv_sync_state
    &&& new_states.block(block, offset).staged_update is Update
    &&& staging_buf(new_states.block(block, offset)) =~= old_buf.take(position.offset as int) + contents
        + old_buf.skip(position.offset + len)
}

/// Replacing a part of an update staging buffer by something of the same length
/// does not affect an iterator positioned past it.
proof fn lemma_remaining_not_rewritten(
    iter: AuthTreeDataBlocksUpdateStatesAllocationBlocksStagedUpdateBufsIterMut,
    old_states: &AuthTreeDataBlocksUpdateStates,
    new_states: &AuthTreeDataBlocksUpdateStates,
    position: StagedUpdateBufPosition,
    len: int,
    contents: Seq<u8>,
)
    requires
        old_states.wf(),
        iter.wf(old_states),
        old_states.valid_block_index(&position.index),
        slice_rewritten(old_states, new_states, position, len, contents),
        0 <= len == contents.len(),
        position.offset + len <= staging_buf(old_states.block(position.index.block(), position.index.offset())).len(),
        iter.head matches Some(head) ==> {
            ||| head.index == position.index && head.offset == position.offset + len
            ||| position.index.position(old_states.auth_log2()) < head.index.position(old_states.auth_log2())
        },
    ensures
        iter.wf(new_states),
        iter.remaining(new_states) == iter.remaining(old_states),
{
    let l = old_states.auth_log2();
    let ahead = iter.update_states_allocation_blocks_iter;
    if let Some(head) = iter.head {
        let rewritten = position.index.position(l);
        assert forall|p: int|
            ahead.next_index.position(l) <= p < ahead.end.position(l) implies #[trigger] new_states.block_at(p)
            == old_states.block_at(p) by {
            let s = old_states.block_len();
            align::lemma_block_size_pos(l);
            vstd::arithmetic::div_mod::lemma_fundamental_div_mod(p, s);
            let (b, k) = (p / s, p % s);
            assert(0 <= b < old_states.states.len()) by (nonlinear_arith)
                requires
                    s > 0,
                    p == s * b + k,
                    0 <= k < s,
                    0 <= p,
                    p < ahead.end.block() * s + ahead.end.offset(),
                    ahead.end.block() < old_states.states.len() && ahead.end.offset() < s || ahead.end.block()
                        == old_states.states.len() && ahead.end.offset() == 0,
            ;
            if b == position.index.block() && k == position.index.offset() {
                assert(p == rewritten) by (nonlinear_arith)
                    requires
                        p == s * b + k,
                        rewritten == b * s + k,
                ;
            }
        }
        new_states.lemma_staged_bytes_congruent(old_states, ahead.next_index.position(l), ahead.end.position(l));
        if head.index == position.index {
            let buf = staging_buf(old_states.block(position.index.block(), position.index.offset()));
            assert((buf.take(position.offset as int) + contents + buf.skip(position.offset + len)).skip(
                head.offset as int,
            ) =~= buf.skip(head.offset as int));
        }
    }
}

} // verus!
