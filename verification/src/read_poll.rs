//! Control flow of reading missing data from storage.
use crate::align;
use crate::alloc_bitmap::AllocBitmap;
use crate::fs::{NvBlkDevIoError, NvFsError};
use crate::layout::PhysicalAllocBlockIndex;
use crate::offsets::AuthTreeDataBlocksUpdateStatesFillAlignmentGapsRangeOffsets;
use crate::read_missing_data::TransactionReadMissingDataFuture;
use crate::read_progress;
use crate::read_request;
use crate::read_request::TransactionReadMissingDataFutureNvChipReadRequest;
use crate::states_index;
use crate::states_index::AuthTreeDataBlocksUpdateStatesAllocationBlocksIndexRange;
use crate::transaction::Transaction;
use vstd::prelude::*;

verus! {

/// What to do next in the course of reading missing data.
pub enum TransactionReadMissingDataFuturePoll {
    /// Submit a read request to storage, and get back with the result.
    Read(TransactionReadMissingDataFutureNvChipReadRequest),
    /// The operation is complete.
    Ready {
        /// Correction offsets to apply to the requested index range in order to
        /// account for the insertion of new entries, if any.
        offsets: Option<AuthTreeDataBlocksUpdateStatesFillAlignmentGapsRangeOffsets>,
        /// The operation's result.
        result: Result<(), NvFsError>,
    },
}

impl TransactionReadMissingDataFuture {
    /// Number of entries not processed yet.
    pub open spec fn remaining_len(&self, transaction: &Transaction) -> int {
        let l = transaction.auth_tree_data_blocks_update_states.auth_log2();
        self.remaining_states_allocation_blocks_index_range.end.position(l)
            - self.remaining_states_allocation_blocks_index_range.begin.position(l)
    }

    /// The batch to get read next.
    pub open spec fn next_batch(&self, transaction: &Transaction) -> Option<(int, (int, bool, int))> {
        let l = transaction.auth_tree_data_blocks_update_states.auth_log2();
        let request = self.request_states_allocation_blocks_index_range;
        let remaining = self.remaining_states_allocation_blocks_index_range;
        transaction.next_batch(
            remaining.begin.position(l),
            remaining.end.position(l),
            (request.begin.position(l), request.end.position(l)),
        )
    }

    /// The future has been advanced past a batch found in a given index range.
    pub open spec fn advanced_past(
        &self,
        old_self: &Self,
        transaction: &Transaction,
        range: AuthTreeDataBlocksUpdateStatesAllocationBlocksIndexRange,
    ) -> bool {
        let states = transaction.auth_tree_data_blocks_update_states;
        let l = states.auth_log2();
        &&& states.valid_blocks_range(&range)
        &&& old_self.next_batch(transaction) matches Some((begin, (end, _, rest))) && {
            &&& range.begin.position(l) == begin
            &&& range.end.position(l) == end
            &&& self.remaining_states_allocation_blocks_index_range.begin.position(l) == rest
        }
        &&& self.remaining_states_allocation_blocks_index_range.end
            == old_self.remaining_states_allocation_blocks_index_range.end
        &&& self.request_states_allocation_blocks_index_range == old_self.request_states_allocation_blocks_index_range
        &&& self.request_states_index_range_offsets == old_self.request_states_index_range_offsets
    }

    /// There's nothing left to read.
    pub open spec fn exhausted(&self, old_self: &Self) -> bool {
        let end = old_self.remaining_states_allocation_blocks_index_range.end;
        &&& self.remaining_states_allocation_blocks_index_range.begin == end
        &&& self.remaining_states_allocation_blocks_index_range.end == end
        &&& self.request_states_allocation_blocks_index_range == old_self.request_states_allocation_blocks_index_range
        &&& self.request_states_index_range_offsets == old_self.request_states_index_range_offsets
    }

    /// Whether all requested data has been loaded.
    pub open spec fn all_loaded(&self, transaction: &Transaction) -> bool {
        let l = transaction.auth_tree_data_blocks_update_states.auth_log2();
        let request = self.request_states_allocation_blocks_index_range;
        let positions = (request.begin.position(l), request.end.position(l));
        transaction.nothing_missing(positions.0, positions.1, positions)
    }

    /// The state remains valid when advancing past a batch.
    proof fn lemma_advanced(
        &self,
        old_self: &Self,
        transaction: &Transaction,
        range: AuthTreeDataBlocksUpdateStatesAllocationBlocksIndexRange,
    )
        requires
            old_self.wf(transaction),
            self.advanced_past(old_self, transaction, range),
            transaction.auth_tree_data_blocks_update_states.valid_blocks_range(
                &self.remaining_states_allocation_blocks_index_range,
            ),
        ensures
            self.wf(transaction),
            self.remaining_follows(transaction, range),
            range.begin != range.end,
            self.request_states_allocation_blocks_index_range.begin
                != self.request_states_allocation_blocks_index_range.end,
            ({
                let l = transaction.auth_tree_data_blocks_update_states.auth_log2();
                let (b, e) = (range.begin.position(l), range.end.position(l));
                &&& transaction.read_blocks_contiguous(b, e)
                &&& self.remaining_len(transaction) < old_self.remaining_len(transaction)
                &&& old_self.missing_confined(transaction, (0, 0)) ==> self.missing_confined(transaction, (b, e))
            }),
    {
        let states = transaction.auth_tree_data_blocks_update_states;
        let (l, m) = (states.auth_log2(), transaction.min_read_log2());
        let request = self.request_states_allocation_blocks_index_range;
        let remaining = old_self.remaining_states_allocation_blocks_index_range;
        let positions = (request.begin.position(l), request.end.position(l));
        let (begin, end) = (remaining.begin.position(l), remaining.end.position(l));
        states.lemma_valid_range_positions(remaining);
        transaction.lemma_next_batch(begin, begin, end, positions);
        let (b, e) = (range.begin.position(l), range.end.position(l));
        let rest = self.remaining_states_allocation_blocks_index_range.begin.position(l);
        assert(transaction.read_needed_at(b, e, positions, b));
        states_index::lemma_position_injective(
            self.remaining_states_allocation_blocks_index_range.begin,
            remaining.end,
            l,
        );
        assert(transaction.read_blocks_consistent(rest, end)) by {
            assert forall|p: int|
                rest <= p < end && transaction.starts_read_block(rest, p) implies transaction.read_block_consistent(
                p,
                #[trigger] transaction.read_block_end(p, end),
            ) by {
                assert(transaction.starts_read_block(begin, p));
            }
        }
        if rest < states.blocks_count() {
            states.lemma_target_at_distance(e - 1, rest - 1);
            states.lemma_target_at_distance(rest - 1, rest);
            align::lemma_align_down_mono(states.target_at(e - 1), states.target_at(rest - 1), m);
            align::lemma_align_down_mono(states.target_at(rest - 1), states.target_at(rest), m);
        }
    }

    /// Determine and prepare the next storage read request, if any.
    ///
    /// # Arguments:
    ///
    /// * `transaction` - The [`Transaction`].
    /// * `fs_sync_state_alloc_bitmap` - The filesystem instance's allocation
    ///   bitmap.
    pub fn next_read_request(
        &mut self,
        transaction: &mut Transaction,
        fs_sync_state_alloc_bitmap: &AllocBitmap,
    ) -> (r: Result<Option<TransactionReadMissingDataFutureNvChipReadRequest>, NvFsError>)
        requires
            old(self).wf(old(transaction)),
        ensures
            final(self).wf(final(transaction)),
            final(transaction).same_environment(old(transaction)),
            r matches Ok(None) <==> old(self).next_batch(old(transaction)) is None,
            r matches Ok(None) ==> *final(transaction) == *old(transaction) && final(self).exhausted(old(self)),
            old(self).next_batch(old(transaction)) matches Some((_, (_, read_from_target, _))) ==> exists|
                range: AuthTreeDataBlocksUpdateStatesAllocationBlocksIndexRange,
                advanced: Self,
            |
                {
                    &&& #[trigger] advanced.advanced_past(old(self), old(transaction), range)
                    &&& final(self).ranges_corrected(
                        &advanced,
                        &old(transaction).auth_tree_data_blocks_update_states,
                        &final(transaction).auth_tree_data_blocks_update_states,
                        old(transaction).min_read_log2(),
                    )
                    &&& r matches Ok(Some(request)) ==> read_progress::request_prepared(
                        old(transaction),
                        final(transaction),
                        range,
                        read_from_target,
                        &request,
                        fs_sync_state_alloc_bitmap,
                    )
                    &&& r matches Err(e) ==> read_progress::preparation_failed(
                        old(transaction),
                        final(transaction),
                        range,
                        read_from_target,
                        e,
                        fs_sync_state_alloc_bitmap,
                    )
                },
            r matches Ok(Some(request)) ==> {
                &&& final(self).region_precedes(final(transaction), &request)
                &&& final(self).remaining_len(final(transaction)) < old(self).remaining_len(old(transaction))
            },
            // Nothing gets missed.
            old(self).missing_confined(old(transaction), (0, 0)) ==> match r {
                Ok(Some(request)) => final(self).missing_confined(
                    final(transaction),
                    request.positions(final(transaction)),
                ),
                Ok(None) => final(self).all_loaded(final(transaction)),
                Err(_) => true,
            },
    {
        let ghost t = *transaction;
        let ghost old_self = *self;
        let ghost l = t.auth_tree_data_blocks_update_states.auth_log2();
        let (next, remaining) = Self::determine_next_read_region(
            transaction,
            &self.remaining_states_allocation_blocks_index_range,
            &self.request_states_allocation_blocks_index_range,
        );
        self.remaining_states_allocation_blocks_index_range = remaining;
        match next {
            Some((range, read_from_target)) => {
                let ghost advanced = *self;
                proof {
                    assert(advanced.advanced_past(&old_self, &t, range));
                    advanced.lemma_advanced(&old_self, &t, range);
                }
                let r = self.prepare_read_request(transaction, fs_sync_state_alloc_bitmap, range, read_from_target);
                proof {
                    let f = transaction.auth_tree_data_blocks_update_states;
                    let n = f.states@.len() - t.auth_tree_data_blocks_update_states.states@.len();
                    let size = f.block_len();
                    let rem = advanced.remaining_states_allocation_blocks_index_range;
                    let (b, e) = (rem.begin.block(), rem.end.block());
                    assert((b + n) * size == b * size + n * size) by (nonlinear_arith);
                    assert((e + n) * size == e * size + n * size) by (nonlinear_arith);
                    assert(advanced.advanced_past(&old_self, &t, range));
                }
                match r {
                    Ok(request) => Ok(Some(request)),
                    Err(e) => Err(e),
                }
            },
            None => {
                proof {
                    let states = t.auth_tree_data_blocks_update_states;
                    let (request, rem) = (
                        old_self.request_states_allocation_blocks_index_range,
                        old_self.remaining_states_allocation_blocks_index_range,
                    );
                    let positions = (request.begin.position(l), request.end.position(l));
                    states.lemma_valid_range_positions(rem);
                    states.lemma_valid_range_positions(request);
                    t.lemma_next_batch(rem.begin.position(l), rem.begin.position(l), rem.end.position(l), positions);
                }
                Ok(None)
            },
        }
    }
}

/// What the operation is continued with, be it with another read request or its
/// completion.
pub open spec fn polled(
    old_future: &TransactionReadMissingDataFuture,
    new_future: &TransactionReadMissingDataFuture,
    t: &Transaction,
    u: &Transaction,
    r: &TransactionReadMissingDataFuturePoll,
    alloc_bitmap: &AllocBitmap,
) -> bool {
    match old_future.next_batch(t) {
        None => {
            &&& *u == *t
            &&& *r matches TransactionReadMissingDataFuturePoll::Ready { offsets, result } && {
                &&& offsets == old_future.request_states_index_range_offsets
                &&& result is Ok
            }
        },
        Some((_, (_, read_from_target, _))) => exists|
            range: AuthTreeDataBlocksUpdateStatesAllocationBlocksIndexRange,
            advanced: TransactionReadMissingDataFuture,
            corrected: TransactionReadMissingDataFuture,
        |
            {
                &&& #[trigger] advanced.advanced_past(old_future, t, range)
                &&& #[trigger] corrected.ranges_corrected(
                    &advanced,
                    &t.auth_tree_data_blocks_update_states,
                    &u.auth_tree_data_blocks_update_states,
                    t.min_read_log2(),
                )
                &&& match *r {
                    TransactionReadMissingDataFuturePoll::Read(request) => {
                        &&& *new_future == corrected
                        &&& read_progress::request_prepared(t, u, range, read_from_target, &request, alloc_bitmap)
                    },
                    TransactionReadMissingDataFuturePoll::Ready { offsets, result } => {
                        &&& offsets == corrected.request_states_index_range_offsets
                        &&& result matches Err(e) && read_progress::preparation_failed(
                            t,
                            u,
                            range,
                            read_from_target,
                            e,
                            alloc_bitmap,
                        )
                    },
                }
            },
    }
}

/// The effect of a completed storage read request.
pub open spec fn read_completed<
    F: Fn(PhysicalAllocBlockIndex, PhysicalAllocBlockIndex, Vec<u8>) -> Result<Vec<u8>, NvFsError>,
>(
    t: &Transaction,
    u: &Transaction,
    request: &TransactionReadMissingDataFutureNvChipReadRequest,
    undisguise: F,
) -> bool {
    let states = t.auth_tree_data_blocks_update_states;
    let begin = request.read_region_states_allocation_blocks_index_range.begin;
    &&& u.same_environment(t)
    &&& exists|data: Seq<Option<Vec<u8>>>|
        {
            &&& #[trigger] request.data_read(t, undisguise, data)
            &&& u.auth_tree_data_blocks_update_states.data_loaded(&states, begin.position(states.auth_log2()), data)
        }
}

/// What's found at a position after a read request's completion.
proof fn lemma_read_completed_at<
    F: Fn(PhysicalAllocBlockIndex, PhysicalAllocBlockIndex, Vec<u8>) -> Result<Vec<u8>, NvFsError>,
>(
    t: Transaction,
    u: Transaction,
    request: TransactionReadMissingDataFutureNvChipReadRequest,
    undisguise: F,
    p: int,
)
    requires
        t.wf(),
        request.set_up_for(&t.auth_tree_data_blocks_update_states),
        read_completed(&t, &u, &request, undisguise),
        0 <= p < t.auth_tree_data_blocks_update_states.blocks_count(),
    ensures
        u.auth_tree_data_blocks_update_states.target_at(p) == t.auth_tree_data_blocks_update_states.target_at(p),
        ({
            let (b, e) = request.positions(&t);
            if b <= p < e {
                !(u.info_at(p) is NeedsDataRead)
            } else {
                u.auth_tree_data_blocks_update_states.block_at(p) == t.auth_tree_data_blocks_update_states.block_at(p)
            }
        }),
{
    let (o, f) = (t.auth_tree_data_blocks_update_states, u.auth_tree_data_blocks_update_states);
    let size = o.block_len();
    let (b, e) = request.positions(&t);
    let data = choose|data: Seq<Option<Vec<u8>>>|
        {
            &&& #[trigger] request.data_read(&t, undisguise, data)
            &&& f.data_loaded(&o, b, data)
        };
    o.lemma_target_at_distance(p, p);
    vstd::arithmetic::div_mod::lemma_fundamental_div_mod(p, size);
    let (i, k) = (p / size, p % size);
    assert(size * i == i * size) by (nonlinear_arith);
    assert(o.has_block(i, k));
    assert(f.block(i, k) == f.block_at(p));
    let j = p - b;
    if b <= p < e {
        let buffers = request.dst_allocation_block_buffers@;
        assert(data.len() == buffers.len());
        assert(buffers[j] is Some <==> o.block_at(b + j).nv_sync_state.lacks_data());
        assert(data[j] is Some <==> buffers[j] is Some);
    } else {
        let buffers = request.dst_allocation_block_buffers@;
        assert(data.len() == buffers.len());
    }
}

impl TransactionReadMissingDataFuture {
    /// The state remains valid upon a read request's completion.
    proof fn lemma_read_completed<
        F: Fn(PhysicalAllocBlockIndex, PhysicalAllocBlockIndex, Vec<u8>) -> Result<Vec<u8>, NvFsError>,
    >(
        &self,
        t: &Transaction,
        u: &Transaction,
        request: &TransactionReadMissingDataFutureNvChipReadRequest,
        undisguise: F,
    )
        requires
            self.wf(t),
            u.wf(),
            request.set_up_for(&t.auth_tree_data_blocks_update_states),
            self.region_precedes(t, request),
            read_completed(t, u, request, undisguise),
        ensures
            self.wf(u),
            self.missing_confined(t, request.positions(t)) ==> self.missing_confined(u, (0, 0)),
    {
        let (o, f) = (t.auth_tree_data_blocks_update_states, u.auth_tree_data_blocks_update_states);
        let (l, m) = (o.auth_log2(), t.min_read_log2());
        let remaining = self.remaining_states_allocation_blocks_index_range;
        let requested = self.request_states_allocation_blocks_index_range;
        let (b, e) = (remaining.begin.position(l), remaining.end.position(l));
        o.lemma_valid_range_positions(remaining);
        o.lemma_valid_range_positions(requested);
        states_index::lemma_position_injective(remaining.begin, remaining.end, l);
        if b < e && e < o.blocks_count() {
            lemma_read_completed_at(*t, *u, *request, undisguise, e);
            lemma_read_completed_at(*t, *u, *request, undisguise, e - 1);
        }
        assert forall|p: int| b <= p < e implies #[trigger] read_progress::shifted_at(t, u, 0, p) by {
            lemma_read_completed_at(*t, *u, *request, undisguise, p);
        }
        read_progress::lemma_consistent_shifted(*t, *u, 0, b, e);
        if self.missing_confined(t, request.positions(t)) {
            assert forall|p: int|
                requested.begin.position(l) <= p < requested.end.position(l) && #[trigger] u.info_at(
                    p,
                ) is NeedsDataRead implies b <= p < e by {
                lemma_read_completed_at(*t, *u, *request, undisguise, p);
                assert(t.info_at(p) == u.info_at(p));
            }
        }
    }

    /// Complete the operation.
    fn ready(
        &mut self,
        transaction: &Transaction,
        result: Result<(), NvFsError>,
    ) -> (r: TransactionReadMissingDataFuturePoll)
        requires
            old(self).wf(transaction),
        ensures
            final(self).wf(transaction),
            final(self).request_states_allocation_blocks_index_range
                == old(self).request_states_allocation_blocks_index_range,
            r == (TransactionReadMissingDataFuturePoll::Ready {
                offsets: old(self).request_states_index_range_offsets,
                result,
            }),
    {
        let offsets = self.request_states_index_range_offsets;
        self.request_states_index_range_offsets = None;
        TransactionReadMissingDataFuturePoll::Ready { offsets, result }
    }

    /// Progress the operation.
    ///
    /// Any requests to read from storage returned are to get submitted by the
    /// caller, which is supposed to get back with the result on the next
    /// invocation each, until completion.
    ///
    /// # Arguments:
    ///
    /// * `transaction` - The [`Transaction`].
    /// * `fs_sync_state_alloc_bitmap` - The filesystem instance's allocation
    ///   bitmap.
    /// * `completed_read` - The result of the last read request submitted to
    ///   storage, if any.
    /// * `undisguise` - Operation to undisguise an Allocation Block's Journal
    ///   Staging Copy with, to be invoked with the locations of the Journal
    ///   Staging Copy and the target each.
    pub fn poll<
        F: Fn(PhysicalAllocBlockIndex, PhysicalAllocBlockIndex, Vec<u8>) -> Result<Vec<u8>, NvFsError>,
    >(
        &mut self,
        transaction: &mut Transaction,
        fs_sync_state_alloc_bitmap: &AllocBitmap,
        completed_read: Option<Result<TransactionReadMissingDataFutureNvChipReadRequest, NvBlkDevIoError>>,
        undisguise: &F,
    ) -> (r: TransactionReadMissingDataFuturePoll)
        requires
            old(self).wf(old(transaction)),
            read_request::undisguises(*undisguise),
            completed_read matches Some(Ok(request)) ==> {
                &&& request.set_up_for(&old(transaction).auth_tree_data_blocks_update_states)
                &&& old(self).region_precedes(old(transaction), &request)
            },
        ensures
            final(self).wf(final(transaction)),
            final(transaction).same_environment(old(transaction)),
            // A failure to read is reported back.
            completed_read matches Some(Err(e)) ==> {
                &&& *final(transaction) == *old(transaction)
                &&& r == (TransactionReadMissingDataFuturePoll::Ready {
                    offsets: old(self).request_states_index_range_offsets,
                    result: Err(<NvFsError as vstd::std_specs::convert::FromSpec<NvBlkDevIoError>>::from_spec(e)),
                })
            },
            // Likewise for a failure to undisguise what's been read, otherwise it's on to the next.
            completed_read matches Some(Ok(request)) ==> {
                ||| {
                    &&& final(transaction).auth_tree_data_blocks_update_states
                        == old(transaction).auth_tree_data_blocks_update_states
                    &&& r matches TransactionReadMissingDataFuturePoll::Ready { offsets, result: Err(e) } && {
                        &&& offsets == old(self).request_states_index_range_offsets
                        &&& request.undisguise_failed(old(transaction), *undisguise, e)
                    }
                }
                ||| exists|mid: Transaction|
                    {
                        &&& #[trigger] read_completed(old(transaction), &mid, &request, *undisguise)
                        &&& polled(old(self), final(self), &mid, final(transaction), &r, fs_sync_state_alloc_bitmap)
                    }
            },
            completed_read is None ==> polled(
                old(self),
                final(self),
                old(transaction),
                final(transaction),
                &r,
                fs_sync_state_alloc_bitmap,
            ),
            // The number of read requests is limited.
            r matches TransactionReadMissingDataFuturePoll::Read(request) ==> {
                &&& request.set_up_for(&final(transaction).auth_tree_data_blocks_update_states)
                &&& final(self).region_precedes(final(transaction), &request)
                &&& final(self).remaining_len(final(transaction)) < old(self).remaining_len(old(transaction))
            },
            // All requested data has been loaded upon successful completion.
            old(self).missing_confined(
                old(transaction),
                match completed_read {
                    Some(Ok(request)) => request.positions(old(transaction)),
                    _ => (0, 0),
                },
            ) ==> match r {
                TransactionReadMissingDataFuturePoll::Read(request) => final(self).missing_confined(
                    final(transaction),
                    request.positions(final(transaction)),
                ),
                TransactionReadMissingDataFuturePoll::Ready { result: Ok(()), .. } => final(self).all_loaded(
                    final(transaction),
                ),
                TransactionReadMissingDataFuturePoll::Ready { result: Err(_), .. } => true,
            },
    {
        let ghost t = *transaction;
        let ghost old_self = *self;
        match completed_read {
            Some(Ok(request)) => {
                let ghost completed = request;
                match Self::apply_read_request_result(transaction, request, undisguise) {
                    Ok(()) => {
                        proof {
                            assert(read_completed(&t, transaction, &completed, *undisguise));
                            self.lemma_read_completed(&t, transaction, &completed, *undisguise);
                        }
                    },
                    Err(e) => {
                        return self.ready(transaction, Err(e));
                    },
                }
            },
            Some(Err(e)) => {
                return self.ready(transaction, Err(NvFsError::from(e)));
            },
            None => (),
        }
        let ghost mid = *transaction;
        let next = self.next_read_request(transaction, fs_sync_state_alloc_bitmap);
        let ghost corrected = *self;
        let r = match next {
            Ok(Some(request)) => TransactionReadMissingDataFuturePoll::Read(request),
            Ok(None) => self.ready(transaction, Ok(())),
            Err(e) => self.ready(transaction, Err(e)),
        };
        proof {
            match old_self.next_batch(&mid) {
                Some((_, (_, read_from_target, _))) => {
                    let (range, advanced) = choose|
                        range: AuthTreeDataBlocksUpdateStatesAllocationBlocksIndexRange,
                        advanced: Self,
                    |
                        {
                            &&& #[trigger] advanced.advanced_past(&old_self, &mid, range)
                            &&& corrected.ranges_corrected(
                                &advanced,
                                &mid.auth_tree_data_blocks_update_states,
                                &transaction.auth_tree_data_blocks_update_states,
                                mid.min_read_log2(),
                            )
                            &&& next matches Ok(Some(request)) ==> read_progress::request_prepared(
                                &mid,
                                transaction,
                                range,
                                read_from_target,
                                &request,
                                fs_sync_state_alloc_bitmap,
                            )
                            &&& next matches Err(e) ==> read_progress::preparation_failed(
                                &mid,
                                transaction,
                                range,
                                read_from_target,
                                e,
                                fs_sync_state_alloc_bitmap,
                            )
                        };
                    assert(advanced.advanced_past(&old_self, &mid, range));
                    assert(corrected.ranges_corrected(
                        &advanced,
                        &mid.auth_tree_data_blocks_update_states,
                        &transaction.auth_tree_data_blocks_update_states,
                        mid.min_read_log2(),
                    ));
                },
                None => {},
            }
            assert(polled(&old_self, self, &mid, transaction, &r, fs_sync_state_alloc_bitmap));
        }
        r
    }
}

} // verus!
