//! Completion of storage regions tracked by update states to alignment
//! boundaries.
use crate::align;
use crate::alloc_bitmap::{AllocBitmap, SparseAllocBitmap};
use crate::fs::NvFsError;
use crate::insert;
use crate::layout::{PhysicalAllocBlockIndex, PhysicalAllocBlockRange};
use crate::offsets::AuthTreeDataBlocksUpdateStatesFillAlignmentGapsRangeOffsets;
use crate::states;
use crate::states::{AuthTreeDataBlockUpdateState, AuthTreeDataBlocksUpdateStates};
use crate::states_index::{
    AuthTreeDataBlocksUpdateStatesAllocationBlocksIndexRange, AuthTreeDataBlocksUpdateStatesIndex,
    AuthTreeDataBlocksUpdateStatesIndexRange,
};
use vstd::prelude::*;

verus! {

impl AuthTreeDataBlocksUpdateStates {
    /// The entry is part of the collection.
    pub open spec fn has_entry(&self, state: AuthTreeDataBlockUpdateState) -> bool {
        exists|i: int| 0 <= i < self.states@.len() && #[trigger] self.states@[i] == state
    }

    /// The collection has been obtained by inserting entries in their initial
    /// states into another one.
    #[verifier::opaque]
    pub open spec fn grown(
        &self,
        old_states: &Self,
        alloc_bitmap: &AllocBitmap,
        pending_frees: &SparseAllocBitmap,
    ) -> bool {
        &&& self.wf()
        &&& self.same_layout(old_states)
        &&& forall|i: int| 0 <= i < old_states.states@.len() ==> self.has_entry(#[trigger] old_states.states@[i])
        &&& forall|i: int|
            0 <= i < self.states@.len() ==> old_states.has_entry(#[trigger] self.states@[i])
                || old_states.missing_filled(self.states@[i], self.states@[i].target(), alloc_bitmap, pending_frees)
    }

    /// The Authentication Tree Data Block at a given location is from a block
    /// of specified size containing any of the entries in an index range.
    pub open spec fn within_alignment(&self, begin: int, end: int, alignment_log2: nat, target: int) -> bool {
        &&& align::aligned(target, self.auth_log2())
        &&& exists|i: int|
            begin <= i < end && align::same_block((#[trigger] self.states@[i]).target(), target, alignment_log2)
    }

    /// States have been populated in order up to location `x`.
    pub open spec fn filled_in_order(
        &self,
        old_states: &Self,
        begin: int,
        end: int,
        alignment_log2: nat,
        x: int,
    ) -> bool {
        &&& forall|t: int|
            old_states.within_alignment(begin, end, alignment_log2, t) && t < x ==> #[trigger] self.present(t)
        &&& forall|t: int| #[trigger] self.present(t) && t >= x ==> old_states.present(t)
    }

    /// There is an entry missing for some location from a block of specified
    /// size containing any of the entries in an index range.
    pub open spec fn any_missing(&self, begin: int, end: int, alignment_log2: nat) -> bool {
        exists|t: int| #[trigger] self.within_alignment(begin, end, alignment_log2, t) && !self.present(t)
    }
}

/// Inserting nothing.
proof fn lemma_grown_refl(
    o: AuthTreeDataBlocksUpdateStates,
    f: AuthTreeDataBlocksUpdateStates,
    alloc_bitmap: &AllocBitmap,
    pending_frees: &SparseAllocBitmap,
)
    requires
        o.wf(),
        f.same_layout(&o),
        f.states@ == o.states@,
    ensures
        f.grown(&o, alloc_bitmap, pending_frees),
{
    reveal(AuthTreeDataBlocksUpdateStates::grown);
    assert forall|i: int| 0 <= i < o.states@.len() implies f.has_entry(#[trigger] o.states@[i]) by {
        assert(f.states@[i] == o.states@[i]);
    }
    assert forall|i: int| 0 <= i < f.states@.len() implies o.has_entry(#[trigger] f.states@[i]) by {
        assert(o.states@[i] == f.states@[i]);
    }
}

/// Populating a region inserts entries in their initial states.
pub proof fn lemma_filled_grown(
    o: AuthTreeDataBlocksUpdateStates,
    f: AuthTreeDataBlocksUpdateStates,
    begin: int,
    x: int,
    lo: int,
    hi: int,
    alloc_bitmap: &AllocBitmap,
    pending_frees: &SparseAllocBitmap,
)
    requires
        o.wf(),
        f.wf(),
        f.filled(&o, begin, x, lo, hi, alloc_bitmap, pending_frees),
        align::aligned(begin, o.auth_log2()),
        align::aligned(x, o.auth_log2()),
        begin <= x,
    ensures
        f.grown(&o, alloc_bitmap, pending_frees),
        f.states@.len() == o.states@.len() + align::blocks(x - begin, o.auth_log2()) - (hi - lo),
        forall|i: int| 0 <= i < lo ==> f.states@[i] == #[trigger] o.states@[i],
        forall|i: int|
            hi <= i < o.states@.len() ==> f.states@[i + (f.states@.len() - o.states@.len())] == #[trigger] o.states@[i],
        forall|t: int|
            #[trigger] f.present(t) <==> o.present(t) || begin <= t < x && align::aligned(t, o.auth_log2()),
{
    reveal(AuthTreeDataBlocksUpdateStates::grown);
    reveal(AuthTreeDataBlocksUpdateStates::filled);
    let l = o.auth_log2();
    let s = o.states@;
    let n = align::blocks(x - begin, l);
    let size = o.block_len();
    align::lemma_block_size_pos(l);
    align::lemma_aligned_sum(x, begin, l);
    align::lemma_aligned_is_multiple(x - begin, l);
    assert forall|i: int| 0 <= i < s.len() implies f.has_entry(#[trigger] s[i]) by {
        if i < lo {
            assert(f.states@[i] == s[i]);
        } else if i < hi {
            let p = lo + align::blocks(s[i].target() - begin, l);
            assert(f.states@[p] == s[i]);
            assert(s[i].wf(l));
            align::lemma_aligned_gap(s[i].target(), x, l);
            align::lemma_aligned_sum(s[i].target(), begin, l);
            align::lemma_aligned_next(s[i].target() - begin, l);
            align::lemma_blocks_mono(s[i].target() - begin + size, x - begin, l);
            align::lemma_aligned_is_multiple(s[i].target() - begin, l);
            assert(0 <= p < f.states@.len());
        } else {
            assert(f.states@[i + n - (hi - lo)] == s[i]);
        }
    }
    assert forall|i: int| 0 <= i < f.states@.len() implies o.has_entry(#[trigger] f.states@[i]) || lo <= i < lo + n
        && o.missing_filled(f.states@[i], f.states@[i].target(), alloc_bitmap, pending_frees) by {
        if i < lo {
            assert(f.states@[i] == s[i]);
        } else if i >= lo + n {
            let k = i - n + (hi - lo);
            assert(f.states@[k + n - (hi - lo)] == s[k]);
        } else if exists|k: int| lo <= k < hi && (#[trigger] s[k]).target() == begin + (i - lo) * size {
            let k = choose|k: int| lo <= k < hi && (#[trigger] s[k]).target() == begin + (i - lo) * size;
            align::lemma_multiple_is_aligned(i - lo, l);
            assert(f.states@[lo + align::blocks(s[k].target() - begin, l)] == s[k]);
        } else {
            assert(o.missing_filled(f.states@[i], begin + (i - lo) * size, alloc_bitmap, pending_frees));
        }
    }
    assert forall|t: int| #[trigger] f.present(t) implies o.present(t) || begin <= t < x && align::aligned(t, l) by {
        let i = choose|i: int| 0 <= i < f.states@.len() && (#[trigger] f.states@[i]).target() == t;
        if lo <= i < lo + n {
            let k = i - lo;
            assert(0 <= k * size && k * size + size <= n * size) by (nonlinear_arith)
                requires
                    0 <= k,
                    k + 1 <= n,
                    size >= 1,
            ;
            align::lemma_multiple_is_aligned(k, l);
            align::lemma_aligned_sum(begin, k * size, l);
        } else {
            let k = choose|k: int| 0 <= k < s.len() && #[trigger] s[k] == f.states@[i];
            assert(s[k].target() == t);
        }
    }
    assert forall|t: int| o.present(t) || begin <= t < x && align::aligned(t, l) implies #[trigger] f.present(t) by {
        if o.present(t) {
            let i = choose|i: int| 0 <= i < s.len() && (#[trigger] s[i]).target() == t;
            assert(f.has_entry(s[i]));
            let k = choose|k: int| 0 <= k < f.states@.len() && #[trigger] f.states@[k] == s[i];
            assert(f.states@[k].target() == t);
        } else {
            align::lemma_aligned_sum(t, begin, l);
            align::lemma_aligned_is_multiple(t - begin, l);
            align::lemma_aligned_gap(t, x, l);
            align::lemma_aligned_next(t - begin, l);
            align::lemma_blocks_mono(t - begin + size, x - begin, l);
            let k = lo + align::blocks(t - begin, l);
            assert(f.states@[k].target() == begin + (k - lo) * size);
        }
    }
}

/// Successive insertions can be considered as one.
proof fn lemma_grown_trans(
    o: AuthTreeDataBlocksUpdateStates,
    m: AuthTreeDataBlocksUpdateStates,
    f: AuthTreeDataBlocksUpdateStates,
    alloc_bitmap: &AllocBitmap,
    pending_frees: &SparseAllocBitmap,
)
    requires
        m.grown(&o, alloc_bitmap, pending_frees),
        f.grown(&m, alloc_bitmap, pending_frees),
    ensures
        f.grown(&o, alloc_bitmap, pending_frees),
{
    reveal(AuthTreeDataBlocksUpdateStates::grown);
    let s = o.states@;
    let jl = o.journal_log2();
    assert forall|i: int| 0 <= i < s.len() implies f.has_entry(#[trigger] s[i]) by {
        assert(m.has_entry(s[i]));
        let k = choose|k: int| 0 <= k < m.states@.len() && #[trigger] m.states@[k] == s[i];
        assert(f.has_entry(m.states@[k]));
    }
    assert forall|i: int| 0 <= i < f.states@.len() implies o.has_entry(#[trigger] f.states@[i]) || o.missing_filled(
        f.states@[i],
        f.states@[i].target(),
        alloc_bitmap,
        pending_frees,
    ) by {
        let state = f.states@[i];
        if m.has_entry(state) {
            let k = choose|k: int| 0 <= k < m.states@.len() && #[trigger] m.states@[k] == state;
            assert(o.has_entry(m.states@[k]) || o.missing_filled(
                m.states@[k],
                m.states@[k].target(),
                alloc_bitmap,
                pending_frees,
            ));
        } else {
            assert(insert::inherits_journal(m.states@, state, jl));
            assert forall|j: int| 0 <= j < s.len() && align::same_block((#[trigger] s[j]).target(), state.target(), jl)
                implies insert::location_view(state.journal_staging_copy_allocation_blocks_begin)
                == insert::translate_journal(
                s[j].journal_staging_copy_allocation_blocks_begin,
                state.target(),
                jl,
            ) by {
                assert(m.has_entry(s[j]));
                let k = choose|k: int| 0 <= k < m.states@.len() && #[trigger] m.states@[k] == s[j];
                assert(align::same_block(m.states@[k].target(), state.target(), jl));
            }
            if forall|j: int| 0 <= j < s.len() ==> !align::same_block((#[trigger] s[j]).target(), state.target(), jl) {
                if exists|p: int|
                    0 <= p < m.states@.len() && align::same_block(
                        (#[trigger] m.states@[p]).target(),
                        state.target(),
                        jl,
                    ) {
                    let p = choose|p: int|
                        0 <= p < m.states@.len() && align::same_block(
                            (#[trigger] m.states@[p]).target(),
                            state.target(),
                            jl,
                        );
                    if o.has_entry(m.states@[p]) {
                        let k = choose|k: int| 0 <= k < s.len() && #[trigger] s[k] == m.states@[p];
                        assert(!align::same_block(s[k].target(), state.target(), jl));
                    }
                    assert(m.states@[p].journal_staging_copy_allocation_blocks_begin is None);
                }
            }
            assert(insert::inherits_journal(s, state, jl));
        }
    }
}

/// Each block of a specified size in a region without any larger gaps contains
/// some entry.
proof fn lemma_block_has_entry(s: Seq<AuthTreeDataBlockUpdateState>, a: nat, begin: int, end: int, t: int) -> (k: int)
    requires
        0 <= begin < end <= s.len(),
        forall|i: int| begin < i < end ==> #[trigger] states::adjoins_predecessor(s, i, a),
        align::align_down(s[begin].target(), a) <= align::align_down(t, a) <= align::align_down(
            s[end - 1].target(),
            a,
        ),
    ensures
        begin <= k < end,
        align::same_block(s[k].target(), t, a),
    decreases end - begin,
{
    if align::same_block(s[end - 1].target(), t, a) {
        end - 1
    } else {
        let (p, q) = (align::align_down(t, a), align::align_down(s[end - 1].target(), a));
        align::lemma_align_down_bounds(t, a);
        align::lemma_align_down_bounds(s[end - 1].target(), a);
        align::lemma_aligned_gap(p, q, a);
        assert(states::adjoins_predecessor(s, end - 1, a));
        lemma_block_has_entry(s, a, begin, end - 1, t)
    }
}

impl AuthTreeDataBlocksUpdateStates {
    /// Complete the leading region of an index range not interrupted by any
    /// aligned gap to alignment boundaries.
    ///
    /// Returns the original index of the region's end and the number of states
    /// inserted.
    fn fill_leading_region(
        &mut self,
        range_begin: usize,
        range_end: usize,
        target_allocation_blocks_alignment_log2: u32,
        alloc_bitmap: &AllocBitmap,
        pending_frees: &SparseAllocBitmap,
    ) -> (r: Result<(usize, usize), (NvFsError, usize)>)
        requires
            old(self).wf(),
            pending_frees.wf(),
            range_begin < range_end <= old(self).states.len(),
            old(self).auth_log2() < target_allocation_blocks_alignment_log2 < usize::BITS,
            ({
                let a = target_allocation_blocks_alignment_log2 as nat;
                let s = old(self).states@;
                &&& states::insertion_point(
                    s,
                    align::align_down(s[range_begin as int].target(), a),
                    range_begin as int,
                )
                &&& states::insertion_point(
                    s,
                    align::align_down(s[range_end - 1].target(), a) + align::block_size(a),
                    range_end as int,
                )
                &&& align::align_down(s[range_end - 1].target(), a) + align::block_size(a) <= u64::MAX
            }),
        ensures
            final(self).grown(old(self), alloc_bitmap, pending_frees),
            match r {
                Ok((gap, count)) => {
                    let a = target_allocation_blocks_alignment_log2 as nat;
                    let s = old(self).states@;
                    let f = final(self).states@;
                    &&& range_begin < gap <= range_end
                    &&& states::insertion_point(
                        s,
                        align::align_down(s[gap - 1].target(), a) + align::block_size(a),
                        gap as int,
                    )
                    &&& f.len() == s.len() + count
                    &&& count == 0 ==> f == s
                    &&& forall|i: int| 0 <= i < range_begin ==> f[i] == #[trigger] s[i]
                    &&& forall|i: int| gap <= i < s.len() ==> f[i + count] == #[trigger] s[i]
                    &&& forall|t: int| #[trigger]
                        final(self).present(t) <==> old(self).present(t) || old(self).within_alignment(
                            range_begin as int,
                            gap as int,
                            a,
                            t,
                        )
                },
                Err((e, count)) => {
                    let a = target_allocation_blocks_alignment_log2 as nat;
                    let s = old(self).states@;
                    let f = final(self).states@;
                    &&& e == NvFsError::MemoryAllocationFailure
                    &&& f.len() == s.len() + count
                    &&& count == 0 ==> f == s
                    &&& old(self).any_missing(range_begin as int, range_end as int, a)
                    &&& exists|x: int| x >= align::align_down(s[range_begin as int].target(), a) && #[trigger]
                        final(self).filled_in_order(old(self), range_begin as int, range_end as int, a, x)
                    &&& forall|t: int| #[trigger]
                        final(self).present(t) ==> old(self).present(t) || old(self).within_alignment(
                            range_begin as int,
                            range_end as int,
                            a,
                            t,
                        )
                },
            },
    {
        let ghost a = target_allocation_blocks_alignment_log2 as nat;
        let ghost l = self.auth_log2();
        let ghost s = self.states@;
        let ghost o = *self;
        let gap_index = self.find_aligned_gap_after(
            AuthTreeDataBlocksUpdateStatesIndex { index: range_begin },
            target_allocation_blocks_alignment_log2,
        ).index;
        assert(align::coarser(a, l) == a);
        let gap: usize = if gap_index < range_end {
            gap_index
        } else {
            range_end
        };
        let ghost begin = align::align_down(s[range_begin as int].target(), a);
        let ghost end = align::align_down(s[gap - 1].target(), a) + align::block_size(a);
        proof {
            lemma_region_bounds(s, l, a, range_begin as int, gap as int, range_end as int);
        }
        let region = AuthTreeDataBlocksUpdateStatesIndexRange::new(
            AuthTreeDataBlocksUpdateStatesIndex { index: range_begin },
            AuthTreeDataBlocksUpdateStatesIndex { index: gap },
        );
        if self.is_contiguous_aligned_region(&region, target_allocation_blocks_alignment_log2) {
            proof {
                lemma_grown_refl(o, o, alloc_bitmap, pending_frees);
                assert forall|t: int| o.within_alignment(range_begin as int, gap as int, a, t) implies #[trigger]
                o.present(t) by {
                    lemma_contiguous_aligned_present(o, a, range_begin as int, gap as int, t);
                }
            }
            return Ok((gap, 0));
        }
        let region_begin = self.states[range_begin].target_allocation_blocks_begin.align_down(
            target_allocation_blocks_alignment_log2,
        );
        let region_end = PhysicalAllocBlockIndex {
            index: self.states[gap - 1].target_allocation_blocks_begin.align_down(
                target_allocation_blocks_alignment_log2,
            ).index + align::block_size_u64(target_allocation_blocks_alignment_log2),
        };
        let target_range = PhysicalAllocBlockRange::new(region_begin, region_end);
        assert(o.insertion_region(target_range) == (begin, end));
        match self.insert_missing_in_range(
            target_range,
            alloc_bitmap,
            pending_frees,
            Some(AuthTreeDataBlocksUpdateStatesIndex { index: range_begin }),
        ) {
            Ok((range, count)) => {
                proof {
                    let lo = range.begin.block();
                    let hi = lo + align::blocks(end - begin, l) - count;
                    assert(states::insertion_point(s, begin, lo) && states::insertion_point(s, end, hi)) by {
                        reveal(AuthTreeDataBlocksUpdateStates::filled);
                    }
                    insert::lemma_insertion_point_unique(s, begin, lo, range_begin as int);
                    insert::lemma_insertion_point_unique(s, end, hi, gap as int);
                    lemma_region_filled(
                        o,
                        *self,
                        a,
                        range_begin as int,
                        gap as int,
                        end,
                        range_begin as int,
                        gap as int,
                        alloc_bitmap,
                        pending_frees,
                    );
                }
                Ok((gap, count))
            },
            Err((e, count)) => {
                proof {
                    lemma_within_alignment_mono(o, range_begin as int, gap as int, range_end as int, a);
                    if !o.any_missing(range_begin as int, range_end as int, a) {
                        assert forall|t: int| begin <= t < end && align::aligned(t, l) implies #[trigger] o.present(t) by {
                            lemma_region_within(o, a, range_begin as int, gap as int, t);
                        }
                        insert::lemma_present_populated(o, begin, end, range_begin as int);
                    }
                    if count == 0 {
                        lemma_grown_refl(o, *self, alloc_bitmap, pending_frees);
                        lemma_present_congruent(o, *self);
                        lemma_region_filled_in_order(o, *self, a, range_begin as int, gap as int, range_end as int, begin);
                    } else {
                        let (x, lo) = choose|x: int, lo: int| #[trigger]
                            self.partially_inserted(
                                &o,
                                begin,
                                end,
                                x,
                                lo,
                                count as int,
                                alloc_bitmap,
                                pending_frees,
                            );
                        let hi = lo + align::blocks(x - begin, l) - count;
                        lemma_region_filled(
                            o,
                            *self,
                            a,
                            range_begin as int,
                            gap as int,
                            x,
                            lo,
                            hi,
                            alloc_bitmap,
                            pending_frees,
                        );
                        lemma_region_filled_in_order(o, *self, a, range_begin as int, gap as int, range_end as int, x);
                    }
                }
                Err((e, count))
            },
        }
    }
}

/// Presence depends on the entries only.
proof fn lemma_present_congruent(o: AuthTreeDataBlocksUpdateStates, f: AuthTreeDataBlocksUpdateStates)
    requires
        f.states@ == o.states@,
    ensures
        forall|t: int| #[trigger] f.present(t) <==> o.present(t),
{
    assert forall|t: int| #[trigger] f.present(t) implies o.present(t) by {
        let i = choose|i: int| 0 <= i < f.states@.len() && (#[trigger] f.states@[i]).target() == t;
        assert(o.states@[i].target() == t);
    }
    assert forall|t: int| o.present(t) implies #[trigger] f.present(t) by {
        let i = choose|i: int| 0 <= i < o.states@.len() && (#[trigger] o.states@[i]).target() == t;
        assert(f.states@[i].target() == t);
    }
}

/// Extending an index range retains all locations from blocks containing an
/// entry.
proof fn lemma_within_alignment_mono(o: AuthTreeDataBlocksUpdateStates, begin: int, gap: int, end: int, a: nat)
    requires
        gap <= end,
    ensures
        forall|t: int| #[trigger] o.within_alignment(begin, gap, a, t) ==> o.within_alignment(begin, end, a, t),
{
    assert forall|t: int| #[trigger] o.within_alignment(begin, gap, a, t) implies o.within_alignment(
        begin,
        end,
        a,
        t,
    ) by {
        let i = choose|i: int| begin <= i < gap && align::same_block((#[trigger] o.states@[i]).target(), t, a);
        assert(align::same_block(o.states@[i].target(), t, a));
    }
}

/// Populating the storage region spanned up to some point.
proof fn lemma_region_filled(
    o: AuthTreeDataBlocksUpdateStates,
    f: AuthTreeDataBlocksUpdateStates,
    a: nat,
    range_begin: int,
    gap: int,
    x: int,
    lo: int,
    hi: int,
    alloc_bitmap: &AllocBitmap,
    pending_frees: &SparseAllocBitmap,
)
    requires
        o.wf(),
        f.wf(),
        o.auth_log2() < a,
        0 <= range_begin < gap <= o.states@.len(),
        forall|i: int| range_begin < i < gap ==> #[trigger] states::adjoins_predecessor(o.states@, i, a),
        align::aligned(x, o.auth_log2()),
        align::align_down(o.states@[range_begin].target(), a) <= x <= align::align_down(o.states@[gap - 1].target(), a)
            + align::block_size(a),
        f.filled(
            &o,
            align::align_down(o.states@[range_begin].target(), a),
            x,
            lo,
            hi,
            alloc_bitmap,
            pending_frees,
        ),
    ensures
        f.grown(&o, alloc_bitmap, pending_frees),
        f.states@.len() == o.states@.len() + align::blocks(
            x - align::align_down(o.states@[range_begin].target(), a),
            o.auth_log2(),
        ) - (hi - lo),
        f.states@.len() == o.states@.len() ==> f.states@ == o.states@,
        forall|i: int| 0 <= i < lo ==> f.states@[i] == #[trigger] o.states@[i],
        forall|i: int|
            hi <= i < o.states@.len() ==> f.states@[i + (f.states@.len() - o.states@.len())] == #[trigger] o.states@[i],
        forall|t: int| #[trigger] f.present(t) ==> o.present(t) || o.within_alignment(range_begin, gap, a, t),
        forall|t: int| #[trigger]
            f.present(t) <==> o.present(t) || align::align_down(o.states@[range_begin].target(), a) <= t < x
                && align::aligned(t, o.auth_log2()),
        x == align::align_down(o.states@[gap - 1].target(), a) + align::block_size(a) ==> forall|t: int| #[trigger]
            f.present(t) <==> o.present(t) || o.within_alignment(range_begin, gap, a, t),
{
    let l = o.auth_log2();
    let begin = align::align_down(o.states@[range_begin].target(), a);
    align::lemma_align_down_bounds(o.states@[range_begin].target(), a);
    align::lemma_aligned_finer(begin, l, a);
    lemma_filled_grown(o, f, begin, x, lo, hi, alloc_bitmap, pending_frees);
    if f.states@.len() == o.states@.len() {
        insert::lemma_filled_nothing(o, f, begin, x, lo, hi, alloc_bitmap, pending_frees);
    }
    assert forall|t: int| #[trigger] f.present(t) implies o.present(t) || o.within_alignment(
        range_begin,
        gap,
        a,
        t,
    ) by {
        if !o.present(t) {
            lemma_region_within(o, a, range_begin, gap, t);
        }
    }
    if x == align::align_down(o.states@[gap - 1].target(), a) + align::block_size(a) {
        assert forall|t: int| o.within_alignment(range_begin, gap, a, t) implies #[trigger] f.present(t) by {
            lemma_within_region(o, a, range_begin, gap, t);
        }
    }
}

/// The storage region spanned has been populated in order.
proof fn lemma_region_filled_in_order(
    o: AuthTreeDataBlocksUpdateStates,
    f: AuthTreeDataBlocksUpdateStates,
    a: nat,
    range_begin: int,
    gap: int,
    range_end: int,
    x: int,
)
    requires
        o.wf(),
        0 <= range_begin < gap <= range_end <= o.states@.len(),
        align::align_down(o.states@[range_begin].target(), a) <= x,
        forall|t: int| #[trigger]
            f.present(t) <==> o.present(t) || align::align_down(o.states@[range_begin].target(), a) <= t < x
                && align::aligned(t, o.auth_log2()),
    ensures
        f.filled_in_order(&o, range_begin, range_end, a, x),
{
    assert forall|t: int| o.within_alignment(range_begin, range_end, a, t) && t < x implies #[trigger] f.present(t) by {
        lemma_within_region(o, a, range_begin, range_end, t);
    }
}

/// The storage region spanned by a leading subrange without any aligned gap.
proof fn lemma_region_bounds(s: Seq<AuthTreeDataBlockUpdateState>, l: nat, a: nat, begin: int, gap: int, end: int)
    requires
        states::sorted(s, l),
        l < a,
        0 <= begin < gap <= end <= s.len(),
        gap < end ==> !states::adjoins_predecessor(s, gap, a),
        states::insertion_point(s, align::align_down(s[end - 1].target(), a) + align::block_size(a), end),
    ensures
        align::align_down(s[begin].target(), a) + align::block_size(a) <= align::align_down(s[gap - 1].target(), a)
            + align::block_size(a) <= align::align_down(s[end - 1].target(), a) + align::block_size(a),
        states::insertion_point(s, align::align_down(s[gap - 1].target(), a) + align::block_size(a), gap),
        align::align_down(s[begin].target(), a) >= 0,
        align::aligned(align::align_down(s[begin].target(), a), l),
        align::aligned(align::align_down(s[gap - 1].target(), a) + align::block_size(a), l),
{
    let p = align::align_down(s[gap - 1].target(), a);
    if begin < gap - 1 {
        assert(s[begin].target() < s[gap - 1].target());
    }
    if gap < end {
        assert(s[gap - 1].target() < s[end - 1].target());
    }
    align::lemma_align_down_mono(s[begin].target(), s[gap - 1].target(), a);
    align::lemma_align_down_mono(s[gap - 1].target(), s[end - 1].target(), a);
    align::lemma_align_down_bounds(s[begin].target(), a);
    align::lemma_align_down_bounds(s[gap - 1].target(), a);
    align::lemma_aligned_finer(align::align_down(s[begin].target(), a), l, a);
    align::lemma_aligned_next(p, a);
    align::lemma_aligned_finer(p + align::block_size(a), l, a);
    assert forall|k: int| 0 <= k < gap implies (#[trigger] s[k]).target() < p + align::block_size(a) by {
        if k < gap - 1 {
            assert(s[k].target() < s[gap - 1].target());
        }
    }
    assert forall|k: int| gap <= k < s.len() implies (#[trigger] s[k]).target() >= p + align::block_size(a) by {
        if gap < end {
            align::lemma_align_down_bounds(s[gap].target(), a);
            if gap < k {
                assert(s[gap].target() < s[k].target());
            }
        }
    }
}

/// Any location in the storage region spanned is from a block containing an
/// entry.
proof fn lemma_region_within(o: AuthTreeDataBlocksUpdateStates, a: nat, begin: int, gap: int, t: int)
    requires
        o.wf(),
        o.auth_log2() < a,
        0 <= begin < gap <= o.states@.len(),
        forall|i: int| begin < i < gap ==> #[trigger] states::adjoins_predecessor(o.states@, i, a),
        align::align_down(o.states@[begin].target(), a) <= t < align::align_down(o.states@[gap - 1].target(), a)
            + align::block_size(a),
        align::aligned(t, o.auth_log2()),
    ensures
        o.within_alignment(begin, gap, a, t),
{
    let (p, q) = (align::align_down(o.states@[begin].target(), a), align::align_down(o.states@[gap - 1].target(), a));
    align::lemma_align_down_bounds(o.states@[begin].target(), a);
    align::lemma_align_down_bounds(o.states@[gap - 1].target(), a);
    align::lemma_align_down_bounds(t, a);
    align::lemma_align_down_mono(p, t, a);
    if align::align_down(t, a) > q {
        align::lemma_aligned_gap(q, align::align_down(t, a), a);
    }
    let k = lemma_block_has_entry(o.states@, a, begin, gap, t);
    assert(align::same_block(o.states@[k].target(), t, a));
}

/// Locations from blocks containing an entry are in the storage region spanned.
pub proof fn lemma_within_region(o: AuthTreeDataBlocksUpdateStates, a: nat, begin: int, gap: int, t: int)
    requires
        o.wf(),
        0 <= begin < gap <= o.states@.len(),
        o.within_alignment(begin, gap, a, t),
    ensures
        align::align_down(o.states@[begin].target(), a) <= t < align::align_down(o.states@[gap - 1].target(), a)
            + align::block_size(a),
{
    let s = o.states@;
    let i = choose|i: int| begin <= i < gap && align::same_block((#[trigger] s[i]).target(), t, a);
    if begin < i {
        assert(s[begin].target() < s[i].target());
    }
    if i < gap - 1 {
        assert(s[i].target() < s[gap - 1].target());
    }
    align::lemma_align_down_mono(s[begin].target(), s[i].target(), a);
    align::lemma_align_down_mono(s[i].target(), s[gap - 1].target(), a);
    align::lemma_align_down_bounds(t, a);
}

/// There are no entries missing in a contiguous aligned region.
proof fn lemma_contiguous_aligned_present(o: AuthTreeDataBlocksUpdateStates, a: nat, begin: int, gap: int, t: int)
    requires
        o.wf(),
        o.auth_log2() < a,
        0 <= begin < gap <= o.states@.len(),
        states::contiguous_aligned(o.states@, o.auth_log2(), begin, gap, a),
        o.within_alignment(begin, gap, a, t),
    ensures
        o.present(t),
{
    let s = o.states@;
    let l = o.auth_log2();
    let size = o.block_len();
    lemma_within_region(o, a, begin, gap, t);
    align::lemma_block_size_pos(l);
    align::lemma_align_down_bounds(s[gap - 1].target(), a);
    let e = s[gap - 1].target() + size;
    let d = align::align_down(s[gap - 1].target(), a);
    align::lemma_aligned_next(d, a);
    if e < d + align::block_size(a) {
        align::lemma_aligned_gap(e, d + align::block_size(a), a);
    }
    assert(s[begin].wf(l));
    align::lemma_aligned_sum(t, s[begin].target(), l);
    align::lemma_aligned_is_multiple(t - s[begin].target(), l);
    let k = align::blocks(t - s[begin].target(), l);
    assert(s[gap - 1].target() == s[begin].target() + (gap - 1 - begin) * size);
    assert(k < gap - begin) by (nonlinear_arith)
        requires
            k * size < (gap - 1 - begin) * size + size,
            size >= 1,
    ;
    assert(s[begin + k].target() == s[begin].target() + k * size);
}

impl AuthTreeDataBlocksUpdateStates {
    /// State of progress when completing the regions in an index range in
    /// order.
    ///
    /// All regions in front of the current position `cur` have been completed
    /// already, with a total of `total` entries having been inserted.
    #[verifier::opaque]
    spec fn fill_progress(
        &self,
        o: &Self,
        range: AuthTreeDataBlocksUpdateStatesIndexRange,
        a: nat,
        ext: AuthTreeDataBlocksUpdateStatesIndexRange,
        cur: int,
        end: int,
        total: int,
    ) -> bool {
        let s = o.states@;
        let m = self.states@;
        let (rb, re) = (range.begin.index as int, range.end.index as int);
        &&& self.same_layout(o)
        &&& 0 <= total
        &&& m.len() == s.len() + total
        &&& ext.begin.index + total <= cur <= end <= m.len()
        &&& end == ext.end.index + total
        &&& states::insertion_point(m, align::align_down(s[rb].target(), a), ext.begin.index as int)
        &&& states::insertion_point(m, align::align_down(s[re - 1].target(), a) + align::block_size(a), end)
        &&& cur < end ==> states::insertion_point(m, align::align_down(m[cur].target(), a), cur)
        &&& forall|i: int| cur - total <= i < s.len() ==> m[i + total] == #[trigger] s[i]
        &&& forall|t: int| #[trigger] self.present(t) ==> o.present(t) || o.within_alignment(rb, re, a, t)
        &&& forall|t: int|
            o.within_alignment(rb, re, a, t) && (cur < end ==> t < align::align_down(m[cur].target(), a))
                ==> #[trigger] self.present(t)
        &&& total == 0 ==> m == s
    }
}

/// Nothing has been completed initially.
proof fn lemma_fill_progress_init(
    o: AuthTreeDataBlocksUpdateStates,
    range: AuthTreeDataBlocksUpdateStatesIndexRange,
    a: nat,
    ext: AuthTreeDataBlocksUpdateStatesIndexRange,
)
    requires
        o.wf(),
        o.auth_log2() < a,
        range.begin.index < range.end.index <= o.states@.len(),
        o.extended_range(range, a, ext),
    ensures
        o.fill_progress(&o, range, a, ext, ext.begin.index as int, ext.end.index as int, 0),
{
    reveal(AuthTreeDataBlocksUpdateStates::fill_progress);
    let s = o.states@;
    let l = o.auth_log2();
    let (rb, re) = (range.begin.index as int, range.end.index as int);
    let (ab, ae) = (ext.begin.index as int, ext.end.index as int);
    let d = align::align_down(s[rb].target(), a);
    let e = align::align_down(s[re - 1].target(), a);
    assert(align::align_down(s[ab].target(), a) == d);
    assert forall|k: int| 0 <= k < s.len() implies align::align_down((#[trigger] s[k]).target(), a) <= s[k].target()
        < align::align_down(s[k].target(), a) + align::block_size(a) by {
        align::lemma_align_down_bounds(s[k].target(), a);
    }
    assert forall|k: int| 0 <= k < ab implies (#[trigger] s[k]).target() < d by {
        align::lemma_align_down_bounds(s[k].target(), a);
        align::lemma_align_down_bounds(s[rb].target(), a);
        align::lemma_aligned_gap(align::align_down(s[k].target(), a), d, a);
    }
    assert forall|k: int| ab <= k < s.len() implies (#[trigger] s[k]).target() >= d by {
        if rb < k {
            assert(s[rb].target() < s[k].target());
        }
    }
    assert forall|k: int| 0 <= k < ae implies (#[trigger] s[k]).target() < e + align::block_size(a) by {
        if k < re - 1 {
            assert(s[k].target() < s[re - 1].target());
        }
    }
    assert forall|k: int| ae <= k < s.len() implies (#[trigger] s[k]).target() >= e + align::block_size(a) by {
        align::lemma_align_down_bounds(s[k].target(), a);
        align::lemma_align_down_bounds(s[re - 1].target(), a);
        align::lemma_aligned_gap(e, align::align_down(s[k].target(), a), a);
    }
    assert forall|t: int| o.within_alignment(rb, re, a, t) && t < d implies #[trigger] o.present(t) by {
        lemma_within_region(o, a, rb, re, t);
    }
}

/// Entries from a region being completed stay within its bounds.
proof fn lemma_step_entry(
    m: AuthTreeDataBlocksUpdateStates,
    f: AuthTreeDataBlocksUpdateStates,
    a: nat,
    cur: int,
    gap: int,
    count: int,
    i: int,
)
    requires
        m.wf(),
        f.wf(),
        0 <= cur < gap <= m.states@.len(),
        0 <= count,
        states::insertion_point(
            m.states@,
            align::align_down(m.states@[gap - 1].target(), a) + align::block_size(a),
            gap,
        ),
        f.states@.len() == m.states@.len() + count,
        forall|i: int| 0 <= i < cur ==> f.states@[i] == #[trigger] m.states@[i],
        forall|i: int| gap <= i < m.states@.len() ==> f.states@[i + count] == #[trigger] m.states@[i],
        forall|t: int| #[trigger] f.present(t) <==> m.present(t) || m.within_alignment(cur, gap, a, t),
        cur <= i < gap + count,
    ensures
        align::align_down(m.states@[cur].target(), a) <= f.states@[i].target() < align::align_down(
            m.states@[gap - 1].target(),
            a,
        ) + align::block_size(a),
{
    let ms = m.states@;
    let fs = f.states@;
    let t = fs[i].target();
    assert(f.present(t));
    align::lemma_align_down_bounds(ms[cur].target(), a);
    if m.present(t) {
        let p = choose|p: int| 0 <= p < ms.len() && (#[trigger] ms[p]).target() == t;
        if p >= gap {
            assert(fs[p + count] == ms[p]);
            assert(fs[i].target() < fs[p + count].target());
        }
        if p < cur {
            assert(fs[p] == ms[p]);
            assert(fs[p].target() < fs[i].target());
        }
        if cur < p {
            assert(ms[cur].target() < ms[p].target());
        }
    } else {
        lemma_within_region(m, a, cur, gap, t);
    }
}

/// Completing another region.
#[verifier::rlimit(40)]
proof fn lemma_fill_progress_step(
    o: AuthTreeDataBlocksUpdateStates,
    m: AuthTreeDataBlocksUpdateStates,
    f: AuthTreeDataBlocksUpdateStates,
    range: AuthTreeDataBlocksUpdateStatesIndexRange,
    a: nat,
    ext: AuthTreeDataBlocksUpdateStatesIndexRange,
    cur: int,
    end: int,
    total: int,
    gap: int,
    count: int,
)
    requires
        o.wf(),
        m.wf(),
        f.wf(),
        forall|i: int| 0 <= i < o.states@.len() ==> m.has_entry(#[trigger] o.states@[i]),
        range.begin.index < range.end.index <= o.states@.len(),
        o.extended_range(range, a, ext),
        m.fill_progress(&o, range, a, ext, cur, end, total),
        cur < gap <= end,
        0 <= count,
        states::insertion_point(
            m.states@,
            align::align_down(m.states@[gap - 1].target(), a) + align::block_size(a),
            gap,
        ),
        f.same_layout(&m),
        f.states@.len() == m.states@.len() + count,
        count == 0 ==> f.states@ == m.states@,
        forall|i: int| 0 <= i < cur ==> f.states@[i] == #[trigger] m.states@[i],
        forall|i: int| gap <= i < m.states@.len() ==> f.states@[i + count] == #[trigger] m.states@[i],
        forall|t: int| #[trigger] f.present(t) <==> m.present(t) || m.within_alignment(cur, gap, a, t),
    ensures
        f.fill_progress(&o, range, a, ext, gap + count, end + count, total + count),
{
    reveal(AuthTreeDataBlocksUpdateStates::fill_progress);
    let s = o.states@;
    let ms = m.states@;
    let fs = f.states@;
    let (rb, re) = (range.begin.index as int, range.end.index as int);
    let ab = ext.begin.index as int;
    let size = align::block_size(a);
    let d_first = align::align_down(s[rb].target(), a);
    let e_last = align::align_down(s[re - 1].target(), a) + size;
    let d_cur = align::align_down(ms[cur].target(), a);
    let e_gap = align::align_down(ms[gap - 1].target(), a) + size;
    assert(d_first <= d_cur && e_gap <= e_last) by {
        align::lemma_align_down_bounds(s[rb].target(), a);
        align::lemma_align_down_bounds(s[re - 1].target(), a);
        align::lemma_align_down_bounds(ms[gap - 1].target(), a);
        align::lemma_aligned_next(e_gap - size, a);
        align::lemma_aligned_next(e_last - size, a);
        align::lemma_align_down_mono(d_first, ms[cur].target(), a);
        if e_gap > e_last {
            align::lemma_aligned_gap(e_last, e_gap, a);
        }
    }
    assert forall|i: int| cur <= i < gap + count implies d_cur <= (#[trigger] fs[i]).target() < e_gap by {
        lemma_step_entry(m, f, a, cur, gap, count, i);
    }
    assert forall|i: int| 0 <= i < cur implies #[trigger] fs[i] == ms[i] by {}
    assert forall|i: int| gap + count <= i < fs.len() implies #[trigger] fs[i] == ms[i - count] by {
        assert(fs[(i - count) + count] == ms[i - count]);
    }
    assert(states::insertion_point(fs, d_first, ab));
    assert(states::insertion_point(fs, e_last, end + count));
    if gap < end {
        let x = align::align_down(ms[gap].target(), a);
        assert(fs[gap + count] == ms[gap]);
        align::lemma_align_down_bounds(ms[gap - 1].target(), a);
        align::lemma_aligned_next(e_gap - size, a);
        align::lemma_align_down_mono(e_gap, ms[gap].target(), a);
        align::lemma_align_down_bounds(ms[gap].target(), a);
        align::lemma_align_down_bounds(ms[cur].target(), a);
        assert forall|i: int| 0 <= i < gap + count implies (#[trigger] fs[i]).target() < x by {}
        assert forall|i: int| gap + count <= i < fs.len() implies (#[trigger] fs[i]).target() >= x by {
            if gap < i - count {
                assert(ms[gap].target() < ms[i - count].target());
            }
        }
        assert(states::insertion_point(fs, x, gap + count));
    }
    assert forall|i: int| gap - total <= i < s.len() implies fs[i + (total + count)] == #[trigger] s[i] by {
        assert(ms[i + total] == s[i]);
        assert(fs[(i + total) + count] == ms[i + total]);
    }
    assert forall|t: int| #[trigger] f.present(t) implies o.present(t) || o.within_alignment(rb, re, a, t) by {
        lemma_step_present_only_if(o, m, f, range, a, ext, cur, gap, total, t);
    }
    assert forall|t: int|
        o.within_alignment(rb, re, a, t) && (gap < end ==> t < align::align_down(ms[gap].target(), a))
            implies #[trigger] f.present(t) by {
        if t >= d_cur {
            lemma_step_present_if(o, m, f, range, a, cur, gap, end, t);
        }
    }
}

/// Entries are only inserted for locations from blocks containing some entry
/// from the original range.
proof fn lemma_step_present_only_if(
    o: AuthTreeDataBlocksUpdateStates,
    m: AuthTreeDataBlocksUpdateStates,
    f: AuthTreeDataBlocksUpdateStates,
    range: AuthTreeDataBlocksUpdateStatesIndexRange,
    a: nat,
    ext: AuthTreeDataBlocksUpdateStatesIndexRange,
    cur: int,
    gap: int,
    total: int,
    t: int,
)
    requires
        range.begin.index < range.end.index <= o.states@.len(),
        o.extended_range(range, a, ext),
        0 <= total,
        m.same_layout(&o),
        ext.begin.index + total <= cur < gap <= ext.end.index + total <= m.states@.len(),
        m.states@.len() == o.states@.len() + total,
        forall|i: int| cur - total <= i < o.states@.len() ==> m.states@[i + total] == #[trigger] o.states@[i],
        m.present(t) ==> o.present(t) || o.within_alignment(
            range.begin.index as int,
            range.end.index as int,
            a,
            t,
        ),
        m.present(t) || m.within_alignment(cur, gap, a, t),
    ensures
        o.present(t) || o.within_alignment(range.begin.index as int, range.end.index as int, a, t),
{
    let s = o.states@;
    let (rb, re) = (range.begin.index as int, range.end.index as int);
    if !m.present(t) {
        let p = choose|p: int| cur <= p < gap && align::same_block((#[trigger] m.states@[p]).target(), t, a);
        let i = p - total;
        assert(m.states@[i + total] == s[i]);
        let k = if i < rb {
            rb
        } else if i >= re {
            re - 1
        } else {
            i
        };
        assert(align::same_block(s[k].target(), t, a));
    }
}

/// All missing entries from the current region have been inserted.
proof fn lemma_step_present_if(
    o: AuthTreeDataBlocksUpdateStates,
    m: AuthTreeDataBlocksUpdateStates,
    f: AuthTreeDataBlocksUpdateStates,
    range: AuthTreeDataBlocksUpdateStatesIndexRange,
    a: nat,
    cur: int,
    gap: int,
    end: int,
    t: int,
)
    requires
        o.wf(),
        m.wf(),
        m.same_layout(&o),
        range.begin.index < range.end.index <= o.states@.len(),
        0 <= cur < gap <= end <= m.states@.len(),
        forall|i: int| 0 <= i < o.states@.len() ==> m.has_entry(#[trigger] o.states@[i]),
        states::insertion_point(m.states@, align::align_down(m.states@[cur].target(), a), cur),
        states::insertion_point(
            m.states@,
            align::align_down(o.states@[range.end.index - 1].target(), a) + align::block_size(a),
            end,
        ),
        m.within_alignment(cur, gap, a, t) ==> f.present(t),
        o.within_alignment(range.begin.index as int, range.end.index as int, a, t),
        gap < end ==> t < align::align_down(m.states@[gap].target(), a),
        t >= align::align_down(m.states@[cur].target(), a),
    ensures
        f.present(t),
{
    let s = o.states@;
    let ms = m.states@;
    let (rb, re) = (range.begin.index as int, range.end.index as int);
    let d_cur = align::align_down(ms[cur].target(), a);
    let i = choose|i: int| rb <= i < re && align::same_block((#[trigger] s[i]).target(), t, a);
    align::lemma_align_down_bounds(s[i].target(), a);
    align::lemma_align_down_bounds(s[re - 1].target(), a);
    align::lemma_align_down_bounds(t, a);
    align::lemma_align_down_bounds(ms[cur].target(), a);
    align::lemma_align_down_mono(d_cur, t, a);
    assert(m.has_entry(s[i]));
    let p = choose|p: int| 0 <= p < ms.len() && #[trigger] ms[p] == s[i];
    assert(p >= cur);
    if p < gap {
        assert(align::same_block(ms[p].target(), t, a));
        assert(m.within_alignment(cur, gap, a, t));
    } else if gap < end {
        if gap < p {
            assert(ms[gap].target() < ms[p].target());
        }
        align::lemma_align_down_mono(ms[gap].target(), ms[p].target(), a);
    } else {
        if i < re - 1 {
            assert(s[i].target() < s[re - 1].target());
        }
    }
}

/// Relative positions of entries are at least retained when inserting others.
pub proof fn lemma_grown_positions(
    o: AuthTreeDataBlocksUpdateStates,
    f: AuthTreeDataBlocksUpdateStates,
    i: int,
    p: int,
    j: int,
    q: int,
    alloc_bitmap: &AllocBitmap,
    pending_frees: &SparseAllocBitmap,
)
    requires
        o.wf(),
        f.grown(&o, alloc_bitmap, pending_frees),
        0 <= i <= j < o.states@.len(),
        0 <= p < f.states@.len(),
        0 <= q < f.states@.len(),
        f.states@[p] == o.states@[i],
        f.states@[q] == o.states@[j],
    ensures
        q - p >= j - i,
    decreases j - i,
{
    reveal(AuthTreeDataBlocksUpdateStates::grown);
    if i < j {
        assert(f.has_entry(o.states@[j - 1]));
        let k = choose|k: int| 0 <= k < f.states@.len() && #[trigger] f.states@[k] == o.states@[j - 1];
        lemma_grown_positions(o, f, i, p, j - 1, k, alloc_bitmap, pending_frees);
        assert(o.states@[j - 1].target() < o.states@[j].target());
        if q < k {
            assert(f.states@[q].target() < f.states@[k].target());
        }
    } else {
        if p < q {
            assert(f.states@[p].target() < f.states@[q].target());
        }
        if q < p {
            assert(f.states@[q].target() < f.states@[p].target());
        }
    }
}

impl AuthTreeDataBlocksUpdateStates {
    /// Determine how the entries at both ends of an index range have been moved
    /// by a prior insertion operation.
    fn determine_range_offsets(
        &self,
        states_index_range: &AuthTreeDataBlocksUpdateStatesIndexRange,
        first: PhysicalAllocBlockIndex,
        last: PhysicalAllocBlockIndex,
        total_inserted_states_count: usize,
        target_allocation_blocks_alignment_log2: u32,
        Ghost(o): Ghost<Self>,
        Ghost(alloc_bitmap): Ghost<&AllocBitmap>,
        Ghost(pending_frees): Ghost<&SparseAllocBitmap>,
    ) -> (r: Option<AuthTreeDataBlocksUpdateStatesFillAlignmentGapsRangeOffsets>)
        requires
            o.wf(),
            self.wf(),
            states_index_range.begin.index < states_index_range.end.index <= o.states@.len(),
            self.grown(&o, alloc_bitmap, pending_frees),
            first == o.states@[states_index_range.begin.index as int].target_allocation_blocks_begin,
            last == o.states@[states_index_range.end.index - 1].target_allocation_blocks_begin,
            self.states@.len() == o.states@.len() + total_inserted_states_count,
        ensures
            r is None <==> total_inserted_states_count == 0,
            r matches Some(offsets) ==> offsets.applies_to(&o, self, *states_index_range)
                && offsets.max_target_allocations_blocks_alignment_log2 == target_allocation_blocks_alignment_log2,
    {
        if total_inserted_states_count == 0 {
            return None;
        }
        let ghost s = o.states@;
        let ghost f = self.states@;
        let ghost (rb, re) = (states_index_range.begin.index as int, states_index_range.end.index as int);
        let ghost p = choose|p: int| 0 <= p < f.len() && #[trigger] f[p] == s[rb];
        let ghost q = choose|q: int| 0 <= q < f.len() && #[trigger] f[q] == s[re - 1];
        proof {
            reveal(AuthTreeDataBlocksUpdateStates::grown);
            assert(self.has_entry(s[rb]) && self.has_entry(s[re - 1]));
            assert(self.has_entry(s[0]) && self.has_entry(s[s.len() - 1]));
            let u = choose|u: int| 0 <= u < f.len() && #[trigger] f[u] == s[0];
            let v = choose|v: int| 0 <= v < f.len() && #[trigger] f[v] == s[s.len() - 1];
            lemma_grown_positions(o, *self, 0, u, rb, p, alloc_bitmap, pending_frees);
            lemma_grown_positions(o, *self, rb, p, re - 1, q, alloc_bitmap, pending_frees);
            lemma_grown_positions(o, *self, re - 1, q, s.len() - 1, v, alloc_bitmap, pending_frees);
            assert(s[rb].wf(o.auth_log2()) && s[re - 1].wf(o.auth_log2()));
            assert(f[p].target() == first.index && f[q].target() == last.index);
        }
        let first_index: usize = match self.lookup_auth_tree_data_block_update_state_index(first) {
            Ok(index) => index.index,
            Err(index) => index.index,
        };
        let last_index: usize = match self.lookup_auth_tree_data_block_update_state_index(last) {
            Ok(index) => index.index,
            Err(index) => index.index,
        };
        proof {
            lemma_lookup_position(f, self.auth_log2(), p, first_index as int);
            lemma_lookup_position(f, self.auth_log2(), q, last_index as int);
        }
        let before: usize = first_index - states_index_range.begin.index;
        let within: usize = last_index - (states_index_range.end.index - 1) - before;
        Some(
            AuthTreeDataBlocksUpdateStatesFillAlignmentGapsRangeOffsets {
                inserted_states_before_range_count: before,
                inserted_states_within_range_count: within,
                inserted_states_after_range_count: total_inserted_states_count - before - within,
                max_target_allocations_blocks_alignment_log2: target_allocation_blocks_alignment_log2,
            },
        )
    }

    /// Outcome of an attempt to fill alignment gaps.
    ///
    /// On success, all missing entries for locations from blocks of the
    /// specified size containing any entry in the range have been inserted,
    /// otherwise possibly only some. Gaps of size and alignment of the
    /// specified alignment block size are retained in either case.
    pub open spec fn alignment_gaps_filled(
        &self,
        old_states: &Self,
        range: AuthTreeDataBlocksUpdateStatesIndexRange,
        alignment_log2: nat,
        r: Result<AuthTreeDataBlocksUpdateStatesIndexRange, NvFsError>,
        alloc_bitmap: &AllocBitmap,
        pending_frees: &SparseAllocBitmap,
    ) -> bool {
        let s = old_states.states@;
        let (begin, end) = (range.begin.index as int, range.end.index as int);
        &&& self.grown(old_states, alloc_bitmap, pending_frees)
        &&& forall|t: int| #[trigger]
            self.present(t) ==> old_states.present(t) || old_states.within_alignment(begin, end, alignment_log2, t)
        &&& match r {
            Ok(aligned_range) => {
                &&& forall|t: int|
                    old_states.within_alignment(begin, end, alignment_log2, t) ==> #[trigger] self.present(t)
                &&& if begin == end {
                    aligned_range == range
                } else {
                    &&& states::insertion_point(
                        self.states@,
                        align::align_down(s[begin].target(), alignment_log2),
                        aligned_range.begin.index as int,
                    )
                    &&& states::insertion_point(
                        self.states@,
                        align::align_down(s[end - 1].target(), alignment_log2) + align::block_size(alignment_log2),
                        aligned_range.end.index as int,
                    )
                }
            },
            Err(e) => {
                &&& e == NvFsError::MemoryAllocationFailure
                &&& old_states.any_missing(begin, end, alignment_log2)
                &&& exists|x: int| #[trigger] self.filled_in_order(old_states, begin, end, alignment_log2, x)
            },
        }
    }

    /// Populate missing entries in an index range to fill alignment gaps.
    ///
    /// Populate missing states in the `states_index_range` to make all existing
    /// subranges corresponding to maximally contiguous regions of storage
    /// locations aligned to the block size as specified by
    /// `target_allocation_blocks_alignment_log2`.
    ///
    /// Gaps of size and alignment of the specified alignment block size are
    /// being skipped over and hence, retained.  The update tracking states
    /// index range returned upon success covers all of
    /// the input `states_index_range`, plus any additional padding states
    /// inserted at the head or tail.
    ///
    /// Any newly inserted states start out in an unmodified state, with their
    /// allocation and initialization status deduced from the provided
    /// allocation bitmap information.
    ///
    /// If any new entries have been inserted, any previously obtained update
    /// tracking states index range, including the input
    /// `states_index_range` is invalidated. However, it is possible to
    /// apply correction offsets to such pre-existing index range to account
    /// for the insertions. If new states had been inserted, then the
    /// offsets applicable to the input `states_index_range` are returned
    /// unconditionally, independent of success.
    pub fn fill_states_index_range_regions_alignment_gaps(
        &mut self,
        states_index_range: &AuthTreeDataBlocksUpdateStatesIndexRange,
        target_allocation_blocks_alignment_log2: u32,
        alloc_bitmap: &AllocBitmap,
        pending_frees: &SparseAllocBitmap,
    ) -> (r: (
        Result<AuthTreeDataBlocksUpdateStatesIndexRange, NvFsError>,
        Option<AuthTreeDataBlocksUpdateStatesFillAlignmentGapsRangeOffsets>,
    ))
        requires
            old(self).wf(),
            pending_frees.wf(),
            old(self).valid_range(states_index_range),
            target_allocation_blocks_alignment_log2 < usize::BITS,
            states_index_range.begin.index < states_index_range.end.index ==> align::align_down(
                old(self).states@[states_index_range.end.index - 1].target(),
                target_allocation_blocks_alignment_log2 as nat,
            ) + align::block_size(target_allocation_blocks_alignment_log2 as nat) <= u64::MAX,
        ensures
            final(self).wf(),
            final(self).same_layout(old(self)),
            final(self).alignment_gaps_filled(
                old(self),
                *states_index_range,
                target_allocation_blocks_alignment_log2 as nat,
                r.0,
                alloc_bitmap,
                pending_frees,
            ),
            r.0 matches Ok(aligned_range) ==> final(self).valid_range(&aligned_range),
            r.1 is None ==> final(self).states@ == old(self).states@,
            r.1 matches Some(offsets) ==> {
                &&& offsets.total() > 0
                &&& offsets.applies_to(old(self), final(self), *states_index_range)
                &&& offsets.max_target_allocations_blocks_alignment_log2 == target_allocation_blocks_alignment_log2
            },
    {
        let ghost o = *self;
        let ghost a = target_allocation_blocks_alignment_log2 as nat;
        let ghost l = self.auth_log2();
        let ghost range = *states_index_range;
        if states_index_range.is_empty() || self.auth_tree_data_block_allocation_blocks_log2 as u32
            >= target_allocation_blocks_alignment_log2 {
            // Requested alignment is guaranteed by design.
            proof {
                lemma_grown_refl(o, *self, alloc_bitmap, pending_frees);
                if range.begin.index < range.end.index {
                    lemma_finer_alignment_is_trivial(o, range, a);
                }
            }
            return (Ok(*states_index_range), None);
        }
        // Extend the given index range to include missing parts in front or after it
        // within the bounds of the specified alignment's range, if any.

        let first = self.states[states_index_range.begin.index].target_allocation_blocks_begin;
        let last = self.states[states_index_range.end.index - 1].target_allocation_blocks_begin;
        let ext = self.extend_states_index_range_within_alignment(
            *states_index_range,
            target_allocation_blocks_alignment_log2,
        );
        let mut cur: usize = ext.begin.index;
        let mut end: usize = ext.end.index;
        let mut total_inserted_states_count: usize = 0;
        proof {
            lemma_fill_progress_init(o, range, a, ext);
            lemma_grown_refl(o, *self, alloc_bitmap, pending_frees);
        }
        while cur != end
            invariant
                o == *old(self),
                o.wf(),
                self.wf(),
                pending_frees.wf(),
                a == target_allocation_blocks_alignment_log2,
                l == o.auth_log2(),
                l < a < usize::BITS,
                range == *states_index_range,
                range.begin.index < range.end.index <= o.states@.len(),
                first == o.states@[range.begin.index as int].target_allocation_blocks_begin,
                last == o.states@[range.end.index - 1].target_allocation_blocks_begin,
                align::align_down(o.states@[range.end.index - 1].target(), a) + align::block_size(a) <= u64::MAX,
                o.extended_range(range, a, ext),
                self.same_layout(&o),
                self.grown(&o, alloc_bitmap, pending_frees),
                self.fill_progress(
                    &o,
                    range,
                    a,
                    ext,
                    cur as int,
                    end as int,
                    total_inserted_states_count as int,
                ),
            decreases self.states@.len() - total_inserted_states_count - (cur - total_inserted_states_count),
        {
            let ghost m = *self;
            proof {
                lemma_fill_progress_bounds(o, *self, range, a, ext, cur as int, end as int, total_inserted_states_count as int);
            }
            match self.fill_leading_region(
                cur,
                end,
                target_allocation_blocks_alignment_log2,
                alloc_bitmap,
                pending_frees,
            ) {
                Ok((gap, count)) => {
                    proof {
                        lemma_grown_facts(o, m, alloc_bitmap, pending_frees);
                        lemma_grown_facts(m, *self, alloc_bitmap, pending_frees);
                        lemma_grown_trans(o, m, *self, alloc_bitmap, pending_frees);
                        lemma_fill_progress_step(
                            o,
                            m,
                            *self,
                            range,
                            a,
                            ext,
                            cur as int,
                            end as int,
                            total_inserted_states_count as int,
                            gap as int,
                            count as int,
                        );
                        assert(self.states@.len() == self.states.len());
                    }
                    cur = gap + count;
                    end = end + count;
                    total_inserted_states_count = total_inserted_states_count + count;
                },
                Err((e, count)) => {
                    proof {
                        lemma_grown_facts(o, m, alloc_bitmap, pending_frees);
                        lemma_grown_facts(m, *self, alloc_bitmap, pending_frees);
                        lemma_grown_trans(o, m, *self, alloc_bitmap, pending_frees);
                        lemma_fill_failed(
                            o,
                            m,
                            *self,
                            range,
                            a,
                            ext,
                            cur as int,
                            end as int,
                            total_inserted_states_count as int,
                        );
                        assert(self.states@.len() == self.states.len());
                    }
                    total_inserted_states_count = total_inserted_states_count + count;
                    let offsets = self.determine_range_offsets(
                        states_index_range,
                        first,
                        last,
                        total_inserted_states_count,
                        target_allocation_blocks_alignment_log2,
                        Ghost(o),
                        Ghost(alloc_bitmap),
                        Ghost(pending_frees),
                    );
                    return (Err(e), offsets);
                },
            }
        }
        proof {
            lemma_fill_progress_done(o, *self, range, a, ext, end as int, total_inserted_states_count as int);
        }
        let offsets = self.determine_range_offsets(
            states_index_range,
            first,
            last,
            total_inserted_states_count,
            target_allocation_blocks_alignment_log2,
            Ghost(o),
            Ghost(alloc_bitmap),
            Ghost(pending_frees),
        );
        (
            Ok(
                AuthTreeDataBlocksUpdateStatesIndexRange {
                    begin: ext.begin,
                    end: AuthTreeDataBlocksUpdateStatesIndex { index: end },
                },
            ),
            offsets,
        )
    }
}

/// An insertion point for an entry's target location is that entry's position.
pub proof fn lemma_lookup_position(s: Seq<AuthTreeDataBlockUpdateState>, l: nat, p: int, i: int)
    requires
        states::sorted(s, l),
        0 <= p < s.len(),
        states::insertion_point(s, s[p].target(), i),
    ensures
        i == p,
{
    if i < p {
        assert(s[i].target() < s[p].target());
    }
}

/// General facts on insertions.
pub proof fn lemma_grown_facts(
    o: AuthTreeDataBlocksUpdateStates,
    f: AuthTreeDataBlocksUpdateStates,
    alloc_bitmap: &AllocBitmap,
    pending_frees: &SparseAllocBitmap,
)
    requires
        f.grown(&o, alloc_bitmap, pending_frees),
    ensures
        f.wf(),
        f.same_layout(&o),
        forall|i: int| 0 <= i < o.states@.len() ==> f.has_entry(#[trigger] o.states@[i]),
{
    reveal(AuthTreeDataBlocksUpdateStates::grown);
}

/// Any entry is aligned to the Authentication Tree Data Block size.
proof fn lemma_finer_alignment_is_trivial(
    o: AuthTreeDataBlocksUpdateStates,
    range: AuthTreeDataBlocksUpdateStatesIndexRange,
    a: nat,
)
    requires
        o.wf(),
        a <= o.auth_log2(),
        range.begin.index < range.end.index <= o.states@.len(),
    ensures
        forall|t: int|
            o.within_alignment(range.begin.index as int, range.end.index as int, a, t) ==> #[trigger] o.present(t),
        states::insertion_point(
            o.states@,
            align::align_down(o.states@[range.begin.index as int].target(), a),
            range.begin.index as int,
        ),
        states::insertion_point(
            o.states@,
            align::align_down(o.states@[range.end.index - 1].target(), a) + align::block_size(a),
            range.end.index as int,
        ),
{
    let l = o.auth_log2();
    let s = o.states@;
    let (rb, re) = (range.begin.index as int, range.end.index as int);
    align::lemma_block_size_split(a, l);
    align::lemma_block_size_pos(a);
    assert forall|i: int| 0 <= i < s.len() implies align::align_down((#[trigger] s[i]).target(), a) == s[i].target() by {
        assert(s[i].wf(l));
        align::lemma_aligned_finer(s[i].target(), a, l);
    }
    assert forall|t: int| o.within_alignment(rb, re, a, t) implies #[trigger] o.present(t) by {
        let i = choose|i: int| rb <= i < re && align::same_block((#[trigger] s[i]).target(), t, a);
        align::lemma_aligned_finer(t, a, l);
        assert(s[i].target() == t);
    }
    assert forall|i: int| re <= i < s.len() implies (#[trigger] s[i]).target() >= s[re - 1].target()
        + align::block_size(a) by {
        assert(s[i].wf(l) && s[re - 1].wf(l));
        assert(s[re - 1].target() < s[i].target());
        align::lemma_aligned_gap(s[re - 1].target(), s[i].target(), l);
    }
    assert forall|i: int| 0 <= i < re implies (#[trigger] s[i]).target() < s[re - 1].target() + align::block_size(a) by {
        if i < re - 1 {
            assert(s[i].target() < s[re - 1].target());
        }
    }
    assert forall|i: int| rb <= i < s.len() implies (#[trigger] s[i]).target() >= s[rb].target() by {
        if rb < i {
            assert(s[rb].target() < s[i].target());
        }
    }
}

/// Bounds to be met for completing another region.
proof fn lemma_fill_progress_bounds(
    o: AuthTreeDataBlocksUpdateStates,
    m: AuthTreeDataBlocksUpdateStates,
    range: AuthTreeDataBlocksUpdateStatesIndexRange,
    a: nat,
    ext: AuthTreeDataBlocksUpdateStatesIndexRange,
    cur: int,
    end: int,
    total: int,
)
    requires
        o.wf(),
        m.wf(),
        range.begin.index < range.end.index <= o.states@.len(),
        o.extended_range(range, a, ext),
        m.fill_progress(&o, range, a, ext, cur, end, total),
        cur != end,
        align::align_down(o.states@[range.end.index - 1].target(), a) + align::block_size(a) <= u64::MAX,
    ensures
        cur < end <= m.states@.len(),
        m.states@.len() == o.states@.len() + total,
        states::insertion_point(m.states@, align::align_down(m.states@[cur].target(), a), cur),
        states::insertion_point(
            m.states@,
            align::align_down(m.states@[end - 1].target(), a) + align::block_size(a),
            end,
        ),
        align::align_down(m.states@[end - 1].target(), a) + align::block_size(a) <= u64::MAX,
{
    reveal(AuthTreeDataBlocksUpdateStates::fill_progress);
    let i = end - 1 - total;
    assert(m.states@[i + total] == o.states@[i]);
    let re = range.end.index as int;
    assert(align::same_block(o.states@[i].target(), o.states@[re - 1].target(), a));
}

/// All regions have been completed.
proof fn lemma_fill_progress_done(
    o: AuthTreeDataBlocksUpdateStates,
    f: AuthTreeDataBlocksUpdateStates,
    range: AuthTreeDataBlocksUpdateStatesIndexRange,
    a: nat,
    ext: AuthTreeDataBlocksUpdateStatesIndexRange,
    end: int,
    total: int,
)
    requires
        f.fill_progress(&o, range, a, ext, end, end, total),
    ensures
        0 <= total,
        f.states@.len() == o.states@.len() + total,
        ext.begin.index <= end <= f.states@.len(),
        states::insertion_point(
            f.states@,
            align::align_down(o.states@[range.begin.index as int].target(), a),
            ext.begin.index as int,
        ),
        states::insertion_point(
            f.states@,
            align::align_down(o.states@[range.end.index - 1].target(), a) + align::block_size(a),
            end,
        ),
        forall|t: int| #[trigger]
            f.present(t) ==> o.present(t) || o.within_alignment(
                range.begin.index as int,
                range.end.index as int,
                a,
                t,
            ),
        forall|t: int|
            o.within_alignment(range.begin.index as int, range.end.index as int, a, t) ==> #[trigger] f.present(t),
        total == 0 ==> f.states@ == o.states@,
{
    reveal(AuthTreeDataBlocksUpdateStates::fill_progress);
}

/// Completing another region failed.
proof fn lemma_fill_failed(
    o: AuthTreeDataBlocksUpdateStates,
    m: AuthTreeDataBlocksUpdateStates,
    f: AuthTreeDataBlocksUpdateStates,
    range: AuthTreeDataBlocksUpdateStatesIndexRange,
    a: nat,
    ext: AuthTreeDataBlocksUpdateStatesIndexRange,
    cur: int,
    end: int,
    total: int,
)
    requires
        o.wf(),
        m.wf(),
        range.begin.index < range.end.index <= o.states@.len(),
        o.extended_range(range, a, ext),
        m.fill_progress(&o, range, a, ext, cur, end, total),
        forall|i: int| 0 <= i < o.states@.len() ==> m.has_entry(#[trigger] o.states@[i]),
        cur < end,
        m.any_missing(cur, end, a),
        forall|i: int| 0 <= i < m.states@.len() ==> f.has_entry(#[trigger] m.states@[i]),
        exists|x: int| x >= align::align_down(m.states@[cur].target(), a) && #[trigger] f.filled_in_order(
            &m,
            cur,
            end,
            a,
            x,
        ),
        forall|t: int| #[trigger] f.present(t) ==> m.present(t) || m.within_alignment(cur, end, a, t),
    ensures
        o.any_missing(range.begin.index as int, range.end.index as int, a),
        exists|x: int| #[trigger] f.filled_in_order(
            &o,
            range.begin.index as int,
            range.end.index as int,
            a,
            x,
        ),
        forall|t: int| #[trigger]
            f.present(t) ==> o.present(t) || o.within_alignment(
                range.begin.index as int,
                range.end.index as int,
                a,
                t,
            ),
        total == 0 ==> m.states@ == o.states@,
{
    reveal(AuthTreeDataBlocksUpdateStates::fill_progress);
    assert forall|t: int| #[trigger] f.present(t) implies o.present(t) || o.within_alignment(
        range.begin.index as int,
        range.end.index as int,
        a,
        t,
    ) by {
        lemma_step_present_only_if(o, m, f, range, a, ext, cur, end, total, t);
    }
    let (rb, re) = (range.begin.index as int, range.end.index as int);
    let d_cur = align::align_down(m.states@[cur].target(), a);
    let x = choose|x: int| x >= d_cur && #[trigger] f.filled_in_order(&m, cur, end, a, x);
    assert forall|t: int| o.within_alignment(rb, re, a, t) && t < x implies #[trigger] f.present(t) by {
        if t >= d_cur {
            lemma_step_present_if(o, m, f, range, a, cur, end, end, t);
        } else {
            assert(m.present(t));
            let i = choose|i: int| 0 <= i < m.states@.len() && (#[trigger] m.states@[i]).target() == t;
            assert(f.has_entry(m.states@[i]));
            let k = choose|k: int| 0 <= k < f.states@.len() && #[trigger] f.states@[k] == m.states@[i];
            assert(f.states@[k].target() == t);
        }
    }
    assert forall|t: int| #[trigger] f.present(t) && t >= x implies o.present(t) by {
        assert(m.present(t));
        let p = choose|p: int| 0 <= p < m.states@.len() && (#[trigger] m.states@[p]).target() == t;
        let i = p - total;
        assert(m.states@[i + total] == o.states@[i]);
        assert(o.states@[i].target() == t);
    }
    assert(f.filled_in_order(&o, rb, re, a, x));
    let t = choose|t: int| #[trigger] m.within_alignment(cur, end, a, t) && !m.present(t);
    if o.present(t) {
        let i = choose|i: int| 0 <= i < o.states@.len() && (#[trigger] o.states@[i]).target() == t;
        assert(m.has_entry(o.states@[i]));
        let k = choose|k: int| 0 <= k < m.states@.len() && #[trigger] m.states@[k] == o.states@[i];
        assert(m.states@[k].target() == t);
    }
    lemma_step_present_only_if(o, m, f, range, a, ext, cur, end, total, t);
}

impl AuthTreeDataBlocksUpdateStates {
    /// Outcome of an attempt to fill alignment gaps in an Allocation Block
    /// level index range.
    pub open spec fn blocks_alignment_gaps_filled(
        &self,
        old_states: &Self,
        range: AuthTreeDataBlocksUpdateStatesAllocationBlocksIndexRange,
        alignment_log2: nat,
        r: Result<AuthTreeDataBlocksUpdateStatesAllocationBlocksIndexRange, NvFsError>,
        alloc_bitmap: &AllocBitmap,
        pending_frees: &SparseAllocBitmap,
    ) -> bool {
        if alignment_log2 >= old_states.auth_log2() {
            &&& r matches Ok(aligned_range) ==> aligned_range.begin.offset() == 0 && aligned_range.end.offset() == 0
            &&& self.alignment_gaps_filled(
                old_states,
                covering_range(range),
                alignment_log2,
                match r {
                    Ok(aligned_range) => Ok(
                        AuthTreeDataBlocksUpdateStatesIndexRange {
                            begin: aligned_range.begin.auth_tree_data_blocks_update_states_index,
                            end: aligned_range.end.auth_tree_data_blocks_update_states_index,
                        },
                    ),
                    Err(e) => Err(e),
                },
                alloc_bitmap,
                pending_frees,
            )
        } else {
            &&& self.states@ == old_states.states@
            &&& r matches Ok(aligned_range) && old_states.extended_blocks_range(range, alignment_log2, aligned_range)
        }
    }

    /// Populate missing entries in an Allocation Block level index range to
    /// fill alignment gaps.
    ///
    /// Convenience function wrapping
    /// [`fill_states_index_range_regions_alignment_gaps()`](Self::fill_states_index_range_regions_alignment_gaps)
    /// to handle the Allocation Block level index domain case.
    pub fn fill_states_allocation_blocks_index_range_regions_alignment_gaps(
        &mut self,
        states_allocation_blocks_index_range: &AuthTreeDataBlocksUpdateStatesAllocationBlocksIndexRange,
        target_allocation_blocks_alignment_log2: u32,
        alloc_bitmap: &AllocBitmap,
        pending_frees: &SparseAllocBitmap,
    ) -> (r: (
        Result<AuthTreeDataBlocksUpdateStatesAllocationBlocksIndexRange, NvFsError>,
        Option<AuthTreeDataBlocksUpdateStatesFillAlignmentGapsRangeOffsets>,
    ))
        requires
            old(self).wf(),
            pending_frees.wf(),
            old(self).valid_blocks_range(states_allocation_blocks_index_range),
            target_allocation_blocks_alignment_log2 < usize::BITS,
            ({
                let c = covering_range(*states_allocation_blocks_index_range);
                c.begin.index < c.end.index ==> align::align_down(
                    old(self).states@[c.end.index - 1].target(),
                    target_allocation_blocks_alignment_log2 as nat,
                ) + align::block_size(target_allocation_blocks_alignment_log2 as nat) <= u64::MAX
            }),
        ensures
            final(self).wf(),
            final(self).same_layout(old(self)),
            final(self).blocks_alignment_gaps_filled(
                old(self),
                *states_allocation_blocks_index_range,
                target_allocation_blocks_alignment_log2 as nat,
                r.0,
                alloc_bitmap,
                pending_frees,
            ),
            r.0 matches Ok(aligned_range) ==> final(self).valid_blocks_range(&aligned_range),
            r.1 is None ==> final(self).states@ == old(self).states@,
            r.1 matches Some(offsets) ==> {
                &&& offsets.total() > 0
                &&& offsets.applies_to(old(self), final(self), covering_range(*states_allocation_blocks_index_range))
                &&& offsets.max_target_allocations_blocks_alignment_log2 == target_allocation_blocks_alignment_log2
            },
    {
        proof {
            align::lemma_block_size_pos(self.auth_log2());
        }
        if target_allocation_blocks_alignment_log2 >= self.auth_tree_data_block_allocation_blocks_log2 as u32 {
            // The requested alignment is a multiple of the Authentication Tree Data Block
            // size. Fill the containing range's region gaps accordingly.
            let states_index_range = AuthTreeDataBlocksUpdateStatesIndexRange::from(
                *states_allocation_blocks_index_range,
            );
            let (aligned_states_index_range, offsets) = self.fill_states_index_range_regions_alignment_gaps(
                &states_index_range,
                target_allocation_blocks_alignment_log2,
                alloc_bitmap,
                pending_frees,
            );
            let r = match aligned_states_index_range {
                Ok(range) => Ok(AuthTreeDataBlocksUpdateStatesAllocationBlocksIndexRange::from(range)),
                Err(e) => Err(e),
            };
            (r, offsets)
        } else {
            // All contiguous regions intersecting with the specified range are aligned to
            // the Authentication Tree Data Block size by design, which is larger
            // than the requested alignment. All that is left to do is to possibly extend
            // the range's bounds in order to make them aligned.
            (
                Ok(
                    self.extend_states_allocation_blocks_index_range_within_alignment(
                        states_allocation_blocks_index_range,
                        target_allocation_blocks_alignment_log2,
                    ),
                ),
                None,
            )
        }
    }
}

/// The smallest range of Authentication Tree Data Block level entries covering
/// an Allocation Block level range.
pub open spec fn covering_range(
    range: AuthTreeDataBlocksUpdateStatesAllocationBlocksIndexRange,
) -> AuthTreeDataBlocksUpdateStatesIndexRange {
    let c = AuthTreeDataBlocksUpdateStatesIndexRange::covering(range);
    AuthTreeDataBlocksUpdateStatesIndexRange {
        begin: AuthTreeDataBlocksUpdateStatesIndex { index: c.0 as usize },
        end: AuthTreeDataBlocksUpdateStatesIndex { index: c.1 as usize },
    }
}

/// Inserting entries in their initial states retains all existing ones, and
/// hence, what is found at a given location.
pub proof fn law_insertion_retains_entries(
    old_states: AuthTreeDataBlocksUpdateStates,
    new_states: AuthTreeDataBlocksUpdateStates,
    alloc_bitmap: &AllocBitmap,
    pending_frees: &SparseAllocBitmap,
    i: int,
    j: int,
)
    requires
        old_states.wf(),
        new_states.grown(&old_states, alloc_bitmap, pending_frees),
        0 <= i < old_states.states@.len(),
        0 <= j < new_states.states@.len(),
        new_states.states@[j].target() == old_states.states@[i].target(),
    ensures
        new_states.states@[j] == old_states.states@[i],
{
    reveal(AuthTreeDataBlocksUpdateStates::grown);
    let f = new_states.states@;
    assert(new_states.has_entry(old_states.states@[i]));
    let k = choose|k: int| 0 <= k < f.len() && #[trigger] f[k] == old_states.states@[i];
    if j < k {
        assert(f[j].target() < f[k].target());
    }
    if k < j {
        assert(f[k].target() < f[j].target());
    }
}

/// Having missing states inserted for a storage region, all of it is tracked,
/// with no changes to what is tracked elsewhere.
pub proof fn law_inserted_region_is_tracked(
    old_states: AuthTreeDataBlocksUpdateStates,
    new_states: AuthTreeDataBlocksUpdateStates,
    target_range: PhysicalAllocBlockRange,
    range: AuthTreeDataBlocksUpdateStatesAllocationBlocksIndexRange,
    inserted_states_count: int,
    alloc_bitmap: &AllocBitmap,
    pending_frees: &SparseAllocBitmap,
)
    requires
        old_states.wf(),
        new_states.wf(),
        target_range.wf(),
        old_states.insertion_region(target_range).0 < old_states.insertion_region(target_range).1,
        new_states.inserted(
            &old_states,
            target_range,
            range,
            inserted_states_count,
            alloc_bitmap,
            pending_frees,
        ),
    ensures
        new_states.grown(&old_states, alloc_bitmap, pending_frees),
        new_states.states@.len() == old_states.states@.len() + inserted_states_count,
        forall|t: int| #[trigger]
            new_states.present(t) <==> old_states.present(t) || old_states.insertion_region(target_range).0 <= t
                < old_states.insertion_region(target_range).1 && align::aligned(t, old_states.auth_log2()),
        ({
            let c = AuthTreeDataBlocksUpdateStatesIndexRange::covering(range);
            states::contiguous(new_states.states@, new_states.auth_log2(), c.0, c.1)
        }),
{
    let l = old_states.auth_log2();
    let (begin, end) = old_states.insertion_region(target_range);
    let n = align::blocks(end - begin, l);
    let lo = range.begin.block();
    align::lemma_align_down_bounds(target_range.begin.index as int, l);
    let d = align::align_down(target_range.end.index as int, l);
    align::lemma_align_down_bounds(target_range.end.index as int, l);
    align::lemma_aligned_next(d, l);
    align::lemma_block_size_pos(l);
    lemma_filled_grown(
        old_states,
        new_states,
        begin,
        end,
        lo,
        lo + n - inserted_states_count,
        alloc_bitmap,
        pending_frees,
    );
    reveal(AuthTreeDataBlocksUpdateStates::filled);
    let size = align::block_size(l);
    let c = AuthTreeDataBlocksUpdateStatesIndexRange::covering(range);
    // The range does not extend past the populated region.
    assert(c.1 <= lo + n) by {
        align::lemma_aligned_sum(end, begin, l);
        align::lemma_aligned_is_multiple(end - begin, l);
        let f = new_states.states@;
        assert(0 * size == 0) by (nonlinear_arith);
        assert(f[lo].target() == begin + (lo - lo) * size) by {
            assert(n >= 1) by (nonlinear_arith)
                requires
                    n * size > 0,
                    size >= 1,
            ;
        }
        let (eb, eo) = (range.end.block(), range.end.offset());
        assert((eb - lo) * size == eb * size - lo * size) by (nonlinear_arith);
        let k = eb - lo;
        if c.1 > lo + n {
            assert(k * size + eo == target_range.end.index - begin);
            if eo == 0 {
                assert(k * size >= n * size + size) by (nonlinear_arith)
                    requires
                        k >= n + 1,
                        size >= 1,
                ;
            } else {
                assert(k * size >= n * size) by (nonlinear_arith)
                    requires
                        k >= n,
                        size >= 1,
                ;
            }
        }
    }
    if c.0 < c.1 {
        assert forall|i: int| c.0 <= i < c.1 implies (#[trigger] new_states.states@[i]).target()
            == new_states.states@[c.0].target() + (i - c.0) * size by {
            assert(0 * size == 0) by (nonlinear_arith);
            assert(new_states.states@[lo].target() == begin + (lo - lo) * size);
        }
    }
}

/// Having alignment gaps filled, any block of the specified size with some
/// entry from the resulting range in it is tracked completely.
pub proof fn law_filled_blocks_are_complete(
    old_states: AuthTreeDataBlocksUpdateStates,
    new_states: AuthTreeDataBlocksUpdateStates,
    range: AuthTreeDataBlocksUpdateStatesIndexRange,
    alignment_log2: nat,
    aligned_range: AuthTreeDataBlocksUpdateStatesIndexRange,
    alloc_bitmap: &AllocBitmap,
    pending_frees: &SparseAllocBitmap,
    i: int,
    t: int,
)
    requires
        old_states.wf(),
        new_states.wf(),
        range.begin.index < range.end.index <= old_states.states@.len(),
        new_states.alignment_gaps_filled(
            &old_states,
            range,
            alignment_log2,
            Ok(aligned_range),
            alloc_bitmap,
            pending_frees,
        ),
        aligned_range.begin.index <= i < aligned_range.end.index,
        align::same_block(new_states.states@[i].target(), t, alignment_log2),
        align::aligned(t, old_states.auth_log2()),
    ensures
        new_states.present(t),
{
    let s = old_states.states@;
    let a = alignment_log2;
    let (rb, re) = (range.begin.index as int, range.end.index as int);
    let u = new_states.states@[i].target();
    assert(new_states.present(u));
    if old_states.within_alignment(rb, re, a, u) {
        let k = choose|k: int| rb <= k < re && align::same_block((#[trigger] s[k]).target(), u, a);
        assert(align::same_block(s[k].target(), t, a));
    } else {
        let k = choose|k: int| 0 <= k < s.len() && (#[trigger] s[k]).target() == u;
        align::lemma_align_down_bounds(s[rb].target(), a);
        align::lemma_align_down_bounds(s[re - 1].target(), a);
        align::lemma_align_down_bounds(u, a);
        if k < rb {
            assert(s[k].target() < s[rb].target());
            align::lemma_align_down_unique(u, align::align_down(s[rb].target(), a), a);
            assert(align::same_block(s[rb].target(), t, a));
        } else if k >= re {
            assert(s[re - 1].target() < s[k].target());
            align::lemma_align_down_unique(u, align::align_down(s[re - 1].target(), a), a);
            assert(align::same_block(s[re - 1].target(), t, a));
        } else {
            assert(align::same_block(s[k].target(), t, a));
        }
    }
}

} // verus!
