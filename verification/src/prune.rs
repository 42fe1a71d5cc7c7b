//! Removal of update tracking states without any updates to track.
use crate::align;
use crate::fs::NvFsError;
use crate::layout::PhysicalAllocBlockIndex;
use crate::states;
use crate::states::{AuthTreeDataBlockUpdateState, AuthTreeDataBlocksUpdateStates};
use vstd::prelude::*;

verus! {

impl AuthTreeDataBlocksUpdateStates {
    /// An entry needs to be kept if there are any data modifications in its
    /// containing IO Block or if that overlaps with the image header, because
    /// the latter is always updated at transaction commit.
    pub open spec fn needed(&self, i: int, image_header_end: int) -> bool {
        exists|j: int| #[trigger] self.needed_by(i, j, image_header_end)
    }

    /// An entry needs to be kept because of another one in the same IO Block.
    pub open spec fn needed_by(&self, i: int, j: int, image_header_end: int) -> bool {
        &&& 0 <= j < self.states@.len()
        &&& align::same_block(self.states@[i].target(), self.states@[j].target(), self.io_log2())
        &&& self.states@[j].modified_from(0) || self.states@[j].target() < image_header_end
    }

    /// The needed ones among the first `n` entries.
    pub open spec fn needed_entries(&self, n: int, image_header_end: int) -> Seq<AuthTreeDataBlockUpdateState>
        decreases n,
    {
        if n <= 0 {
            Seq::empty()
        } else if self.needed(n - 1, image_header_end) {
            self.needed_entries(n - 1, image_header_end).push(self.states@[n - 1])
        } else {
            self.needed_entries(n - 1, image_header_end)
        }
    }

    /// Location of the Journal Staging Copy block assigned to an entry, if any.
    pub open spec fn journal_block(&self, i: int) -> Option<PhysicalAllocBlockIndex> {
        match self.states@[i].journal_staging_copy_allocation_blocks_begin {
            Some(j) => Some(
                PhysicalAllocBlockIndex { index: align::align_down(j.index as int, self.journal_log2()) as u64 },
            ),
            None => None,
        }
    }

    /// The most recent Journal Staging Copy block assigned to any of the
    /// pruned entries directly preceding position `n`, if any.
    pub open spec fn last_abandoned(&self, n: int, image_header_end: int) -> Option<PhysicalAllocBlockIndex>
        decreases n,
    {
        if n <= 0 || self.needed(n - 1, image_header_end) {
            None
        } else if self.journal_block(n - 1) is Some {
            self.journal_block(n - 1)
        } else {
            self.last_abandoned(n - 1, image_header_end)
        }
    }

    /// The Journal Staging Copy blocks abandoned from pruning the first `n`
    /// entries.
    ///
    /// A block assigned to several successive pruned entries is considered only
    /// once.
    pub open spec fn abandoned(&self, n: int, image_header_end: int) -> Seq<PhysicalAllocBlockIndex>
        decreases n,
    {
        if n <= 0 {
            Seq::empty()
        } else {
            let block = self.journal_block(n - 1);
            let preceding = self.abandoned(n - 1, image_header_end);
            if self.needed(n - 1, image_header_end) || block is None || block == self.last_abandoned(
                n - 1,
                image_header_end,
            ) {
                preceding
            } else {
                preceding.push(block->Some_0)
            }
        }
    }

    /// Determine the end of the IO Block containing an entry.
    ///
    /// In addition to the index past the last entry in the same IO Block, it is
    /// returned whether any of those needs to be kept.
    fn inspect_io_block(
        &self,
        begin: usize,
        image_header_end: PhysicalAllocBlockIndex,
        Ghost(o): Ghost<Self>,
        Ghost(shift): Ghost<int>,
    ) -> (r: (usize, bool))
        requires
            o.wf(),
            self.same_layout(&o),
            0 <= shift,
            begin < self.states.len(),
            self.states@.len() + shift == o.states@.len(),
            forall|i: int| begin <= i < self.states@.len() ==> self.states@[i] == #[trigger] o.states@[i + shift],
            begin + shift > 0 ==> !align::same_block(
                o.states@[begin + shift - 1].target(),
                o.states@[begin + shift].target(),
                o.io_log2(),
            ),
        ensures
            begin < r.0 <= self.states@.len(),
            forall|i: int|
                begin + shift <= i < r.0 + shift ==> #[trigger] o.needed(i, image_header_end.index as int) == r.1,
            forall|i: int|
                begin + shift <= i < r.0 + shift ==> align::same_block(
                    o.states@[begin + shift].target(),
                    (#[trigger] o.states@[i]).target(),
                    o.io_log2(),
                ),
            r.0 < self.states@.len() ==> !align::same_block(
                o.states@[r.0 + shift - 1].target(),
                o.states@[r.0 + shift].target(),
                o.io_log2(),
            ),
    {
        let io_log2: u32 = self.io_block_allocation_blocks_log2 as u32;
        let ghost s = o.states@;
        let ghost io = o.io_log2();
        let ghost b = begin + shift;
        let first = self.states[begin].target_allocation_blocks_begin;
        proof {
            assert(self.states@[begin as int] == s[begin + shift]);
        }
        // The Allocation Blocks from the image header will always get updated at
        // transaction commit.
        let mut any_needed: bool = first.index < image_header_end.index || self.states[begin].has_modified_data_from(0);
        let mut end: usize = begin + 1;
        while end < self.states.len() && align::same_block_u64(
            first.index,
            self.states[end].target_allocation_blocks_begin.index,
            io_log2,
        )
            invariant
                o.wf(),
                self.same_layout(&o),
                s == o.states@,
                io == o.io_log2(),
                io_log2 == io,
                io < 64,
                0 <= shift,
                b == begin + shift,
                begin < end <= self.states@.len(),
                self.states@.len() + shift == s.len(),
                forall|i: int| begin <= i < self.states@.len() ==> self.states@[i] == #[trigger] s[i + shift],
                first == s[b].target_allocation_blocks_begin,
                forall|i: int| b <= i < end + shift ==> align::same_block(s[b].target(), (#[trigger] s[i]).target(), io),
                any_needed <==> exists|j: int|
                    b <= j < end + shift && ((#[trigger] s[j]).modified_from(0) || s[j].target()
                        < image_header_end.index),
            decreases self.states@.len() - end,
        {
            proof {
                assert(self.states@[end as int] == s[end + shift]);
                assert(s[b].target() < s[end + shift].target());
            }
            if self.states[end].has_modified_data_from(0) {
                any_needed = true;
                assert(s[end + shift].modified_from(0));
            }
            end = end + 1;
        }
        proof {
            let e = end + shift;
            if end < self.states@.len() {
                assert(self.states@[end as int] == s[e]);
                assert(align::same_block(s[b].target(), s[e - 1].target(), io));
            }
            // The IO Block does not extend beyond.
            assert forall|j: int| 0 <= j < s.len() && align::same_block(s[b].target(), (#[trigger] s[j]).target(), io)
                implies b <= j < e by {
                if j < b {
                    if j < b - 1 {
                        assert(s[j].target() < s[b - 1].target());
                    }
                    assert(s[b - 1].target() < s[b].target());
                    align::lemma_align_down_mono(s[j].target(), s[b - 1].target(), io);
                    align::lemma_align_down_mono(s[b - 1].target(), s[b].target(), io);
                } else if j >= e {
                    if e < j {
                        assert(s[e].target() < s[j].target());
                    }
                    assert(s[b].target() < s[e].target());
                    align::lemma_align_down_mono(s[b].target(), s[e].target(), io);
                    align::lemma_align_down_mono(s[e].target(), s[j].target(), io);
                }
            }
            let h = image_header_end.index as int;
            assert forall|i: int| b <= i < e implies #[trigger] o.needed(i, h) == any_needed by {
                assert(align::same_block(s[b].target(), s[i].target(), io));
                if any_needed {
                    let j = choose|j: int|
                        b <= j < e && ((#[trigger] s[j]).modified_from(0) || s[j].target() < h);
                    assert(align::same_block(s[b].target(), s[j].target(), io));
                    assert(o.needed_by(i, j, h));
                }
                if o.needed(i, h) {
                    let j = choose|j: int| #[trigger] o.needed_by(i, j, h);
                    assert(align::same_block(s[b].target(), s[j].target(), io));
                }
            }
        }
        (end, any_needed)
    }

    /// Prune entries not overlapping with an IO Block with pending data
    /// updates.
    ///
    /// In case of an error, only the entries up to some IO Block boundary might
    /// have been pruned.
    ///
    /// # Arguments:
    ///
    /// * `abandoned_journal_staging_copy_blocks` - Destination for collecting
    ///   abandoned journal staging copy blocks. Entries will point to the
    ///   beginning of abandoned blocks, all equal to the larger of an
    ///   Authentication Tree Data Block and an IO Block in size.
    /// * `image_header_end` - End of the filesystem image header on storage.
    pub fn prune_unmodified(
        &mut self,
        abandoned_journal_staging_copy_blocks: &mut Vec<PhysicalAllocBlockIndex>,
        image_header_end: PhysicalAllocBlockIndex,
    ) -> (r: Result<(), NvFsError>)
        requires
            old(self).wf(),
        ensures
            final(self).wf(),
            final(self).same_layout(old(self)),
            r is Ok ==> {
                let n = old(self).states@.len() as int;
                let h = image_header_end.index as int;
                &&& final(self).states@ == old(self).needed_entries(n, h)
                &&& final(abandoned_journal_staging_copy_blocks)@ == old(abandoned_journal_staging_copy_blocks)@
                    + old(self).abandoned(n, h)
            },
            r matches Err(e) ==> {
                let h = image_header_end.index as int;
                &&& e == NvFsError::MemoryAllocationFailure
                &&& exists|n: int|
                    {
                        &&& 0 <= n < old(self).states@.len()
                        &&& !old(self).needed(n, h)
                        &&& old(self).journal_block(n) is Some
                        &&& final(self).states@ == #[trigger] old(self).needed_entries(n, h) + old(
                            self,
                        ).states@.skip(n)
                        &&& final(abandoned_journal_staging_copy_blocks)@ == old(
                            abandoned_journal_staging_copy_blocks,
                        )@ + old(self).abandoned(n, h)
                    }
            },
    {
        let ghost o = *self;
        let ghost a = abandoned_journal_staging_copy_blocks@;
        let ghost h = image_header_end.index as int;
        let io_log2: u32 = self.io_block_allocation_blocks_log2 as u32;
        let auth_log2: u32 = self.auth_tree_data_block_allocation_blocks_log2 as u32;
        let journal_log2: u32 = if io_log2 > auth_log2 {
            io_log2
        } else {
            auth_log2
        };
        let mut cur: usize = 0;
        let mut last: Option<PhysicalAllocBlockIndex> = None;
        // Number of entries from the original collection processed so far.
        let ghost mut n: int = 0;
        proof {
            assert(self.states@ =~= o.needed_entries(0, h) + o.states@.skip(0));
            assert(a + o.abandoned(0, h) =~= a);
        }
        while cur < self.states.len()
            invariant
                o == *old(self),
                a == old(abandoned_journal_staging_copy_blocks)@,
                o.wf(),
                h == image_header_end.index,
                self.same_layout(&o),
                journal_log2 == o.journal_log2(),
                journal_log2 < 64,
                0 <= n <= o.states@.len(),
                cur == o.needed_entries(n, h).len(),
                self.states@ == o.needed_entries(n, h) + o.states@.skip(n),
                last == o.last_abandoned(n, h),
                abandoned_journal_staging_copy_blocks@ == a + o.abandoned(n, h),
                0 < n < o.states@.len() ==> !align::same_block(
                    o.states@[n - 1].target(),
                    o.states@[n].target(),
                    o.io_log2(),
                ),
            decreases o.states@.len() - n,
        {
            let ghost shift = n - cur;
            proof {
                o.lemma_needed_entries_len(n, h);
                assert forall|i: int| cur <= i < self.states@.len() implies self.states@[i] == #[trigger] o.states@[i
                    + shift] by {}
            }
            let (end, any_needed) = self.inspect_io_block(cur, image_header_end, Ghost(o), Ghost(shift));
            let ghost e = end + shift;
            proof {
                o.lemma_group_step(n, e, h, any_needed);
            }
            if any_needed {
                last = None;
                proof {
                    assert(self.states@ =~= o.needed_entries(e, h) + o.states@.skip(e));
                    n = e;
                }
                cur = end;
            } else {
                // All of the entries in the IO Block have their Journal Staging Copies in a
                // common block, if any.
                match self.states[cur].journal_staging_copy_allocation_blocks_begin {
                    Some(j) => {
                        let block = j.align_down(journal_log2);
                        let is_last: bool = match last {
                            Some(last) => last.index == block.index,
                            None => false,
                        };
                        assert(o.journal_block(n) == Some(block));
                        assert(o.needed(n, h) == any_needed);
                        if !is_last {
                            match abandoned_journal_staging_copy_blocks.try_reserve(1) {
                                Ok(()) => (),
                                Err(err) => {
                                    proof {
                                        o.lemma_pruned_prefix_wf(*self, n, h);
                                    }
                                    return Err(NvFsError::from(err));
                                },
                            }
                            abandoned_journal_staging_copy_blocks.push(block);
                            proof {
                                assert(abandoned_journal_staging_copy_blocks@ =~= a + o.abandoned(e, h));
                            }
                        }
                        last = Some(block);
                    },
                    None => {
                        assert(o.journal_block(n) is None);
                    },
                }
                let mut k: usize = end;
                while k > cur
                    invariant
                        o.wf(),
                        self.same_layout(&o),
                        cur == o.needed_entries(n, h).len(),
                        0 <= n,
                        n + (end - cur) == e,
                        e <= o.states@.len(),
                        cur <= k <= end,
                        self.states@ == o.needed_entries(n, h) + o.states@.subrange(n, n + (k - cur))
                            + o.states@.skip(e),
                    decreases k - cur,
                {
                    let _ = self.states.remove(k - 1);
                    k = k - 1;
                    proof {
                        assert(self.states@ =~= o.needed_entries(n, h) + o.states@.subrange(n, n + (k - cur))
                            + o.states@.skip(e));
                    }
                }
                proof {
                    assert(self.states@ =~= o.needed_entries(e, h) + o.states@.skip(e));
                    n = e;
                }
            }
        }
        proof {
            assert(n == o.states@.len());
            assert(self.states@ =~= o.needed_entries(n, h));
            o.lemma_pruned_prefix_wf(*self, n, h);
        }
        Ok(())
    }

    proof fn lemma_needed_entries_len(&self, n: int, h: int)
        requires
            0 <= n,
        ensures
            self.needed_entries(n, h).len() <= n,
        decreases n,
    {
        if n > 0 {
            self.lemma_needed_entries_len(n - 1, h);
        }
    }

    /// Either all or none of an IO Block's entries are kept.
    proof fn lemma_group_step(&self, n: int, e: int, h: int, any_needed: bool)
        requires
            self.wf(),
            0 <= n < e <= self.states@.len(),
            forall|i: int| n <= i < e ==> #[trigger] self.needed(i, h) == any_needed,
            forall|i: int|
                n <= i < e ==> align::same_block(
                    self.states@[n].target(),
                    (#[trigger] self.states@[i]).target(),
                    self.io_log2(),
                ),
        ensures
            self.needed_entries(e, h) == if any_needed {
                self.needed_entries(n, h) + self.states@.subrange(n, e)
            } else {
                self.needed_entries(n, h)
            },
            any_needed ==> self.last_abandoned(e, h) is None && self.abandoned(e, h) == self.abandoned(n, h),
            !any_needed ==> {
                let block = self.journal_block(n);
                let last = self.last_abandoned(n, h);
                &&& self.last_abandoned(e, h) == if block is Some {
                    block
                } else {
                    last
                }
                &&& self.abandoned(e, h) == if block is None || block == last {
                    self.abandoned(n, h)
                } else {
                    self.abandoned(n, h).push(block->Some_0)
                }
            },
        decreases e - n,
    {
        let s = self.states@;
        let (l, jl) = (self.auth_log2(), self.journal_log2());
        assert(self.needed(e - 1, h) == any_needed);
        if e == n + 1 {
            assert(s.subrange(n, e) =~= seq![s[n]]);
            assert(self.needed_entries(n, h) + s.subrange(n, e) =~= self.needed_entries(n, h).push(s[n]));
        } else {
            self.lemma_group_step(n, e - 1, h, any_needed);
            assert(s.subrange(n, e) =~= s.subrange(n, e - 1).push(s[e - 1]));
            assert(self.needed_entries(n, h) + s.subrange(n, e) =~= (self.needed_entries(n, h) + s.subrange(
                n,
                e - 1,
            )).push(s[e - 1]));
            // Entries from the same IO Block are from the same Journal Staging Copy block.
            align::lemma_same_block_coarser(s[n].target(), s[e - 1].target(), self.io_log2(), jl);
            assert(s[n].journal_agrees(&s[e - 1], jl));
            assert(self.journal_block(e - 1) == self.journal_block(n));
        }
    }

    /// Removing entries keeps the collection well-formed.
    proof fn lemma_pruned_prefix_wf(&self, f: Self, n: int, h: int)
        requires
            self.wf(),
            f.same_layout(self),
            0 <= n <= self.states@.len(),
            f.states@ == self.needed_entries(n, h) + self.states@.skip(n),
        ensures
            f.wf(),
    {
        let s = self.states@;
        let p = self.needed_entries(n, h);
        let (l, jl) = (self.auth_log2(), self.journal_log2());
        self.lemma_needed_entries_origin(n, h);
        assert forall|i: int| 0 <= i < f.states@.len() implies exists|k: int|
            0 <= k < s.len() && #[trigger] s[k] == #[trigger] f.states@[i] by {
            if i < p.len() {
                assert(f.states@[i] == p[i]);
            } else {
                assert(f.states@[i] == s[i - p.len() + n]);
            }
        }
        assert forall|i: int, j: int| 0 <= i < j < f.states@.len() implies (#[trigger] f.states@[i]).target() < (
        #[trigger] f.states@[j]).target() by {
            if j < p.len() {
                assert(p[i].target() < p[j].target());
            } else if i < p.len() {
                let k = choose|k: int| 0 <= k < n && #[trigger] s[k] == p[i];
                assert(s[k].target() < s[j - p.len() + n].target());
            }
        }
        assert forall|i: int, j: int|
            #![trigger f.states@[i], f.states@[j]]
            0 <= i < f.states@.len() && 0 <= j < f.states@.len() implies f.states@[i].journal_agrees(
            &f.states@[j],
            jl,
        ) by {
            let x = choose|x: int| 0 <= x < s.len() && #[trigger] s[x] == f.states@[i];
            let y = choose|y: int| 0 <= y < s.len() && #[trigger] s[y] == f.states@[j];
            assert(s[x].journal_agrees(&s[y], jl));
        }
    }

    /// The needed entries are in order.
    proof fn lemma_needed_entries_origin(&self, n: int, h: int)
        requires
            self.wf(),
            0 <= n <= self.states@.len(),
        ensures
            ({
                let p = self.needed_entries(n, h);
                &&& forall|i: int|
                    0 <= i < p.len() ==> exists|k: int| 0 <= k < n && #[trigger] self.states@[k] == #[trigger] p[i]
                &&& forall|i: int, j: int| 0 <= i < j < p.len() ==> (#[trigger] p[i]).target() < (#[trigger] p[j]).target()
            }),
        decreases n,
    {
        if n > 0 {
            self.lemma_needed_entries_origin(n - 1, h);
            let p = self.needed_entries(n, h);
            let q = self.needed_entries(n - 1, h);
            assert forall|i: int| 0 <= i < p.len() implies exists|k: int|
                0 <= k < n && #[trigger] self.states@[k] == #[trigger] p[i] by {
                if i < q.len() {
                    assert(p[i] == q[i]);
                } else {
                    assert(p[i] == self.states@[n - 1]);
                }
            }
            assert forall|i: int, j: int| 0 <= i < j < p.len() implies (#[trigger] p[i]).target() < (
            #[trigger] p[j]).target() by {
                assert(p[i] == q[i]);
                let k = choose|k: int| 0 <= k < n - 1 && #[trigger] self.states@[k] == q[i];
                if j < q.len() {
                    assert(p[j] == q[j]);
                } else {
                    assert(self.states@[k].target() < self.states@[n - 1].target());
                }
            }
        }
    }
}

/// Pruning keeps exactly the needed entries.
pub proof fn law_needed_entries(
    states: AuthTreeDataBlocksUpdateStates,
    n: int,
    image_header_end: int,
    i: int,
)
    requires
        0 <= i < n <= states.states@.len(),
        states.wf(),
    ensures
        states.needed(i, image_header_end) <==> states.needed_entries(n, image_header_end).contains(states.states@[i]),
    decreases n,
{
    let h = image_header_end;
    let q = states.needed_entries(n - 1, h);
    let p = states.needed_entries(n, h);
    let st = states.states@[i];
    if i == n - 1 {
        states.lemma_needed_entries_origin(n - 1, h);
        if states.needed(i, h) {
            assert(p[p.len() - 1] == st);
        } else if p.contains(st) {
            let k = choose|k: int| 0 <= k < p.len() && p[k] == st;
            let j = choose|j: int| 0 <= j < n - 1 && #[trigger] states.states@[j] == q[k];
            assert(states.states@[j].target() < states.states@[i].target());
        }
    } else {
        law_needed_entries(states, n - 1, h, i);
        if q.contains(st) {
            let k = choose|k: int| 0 <= k < q.len() && q[k] == st;
            assert(p[k] == st);
        }
        if p.contains(st) && !q.contains(st) {
            let k = choose|k: int| 0 <= k < p.len() && p[k] == st;
            if k < q.len() {
                assert(q[k] == st);
            }
            assert(states.states@[i].target() < states.states@[n - 1].target());
        }
    }
}

/// Any entry with data modifications is needed.
pub proof fn law_modified_entries_are_needed(states: AuthTreeDataBlocksUpdateStates, image_header_end: int, i: int)
    requires
        0 <= i < states.states@.len(),
        states.states@[i].modified_from(0),
    ensures
        states.needed(i, image_header_end),
{
    assert(states.needed_by(i, i, image_header_end));
}

/// All Journal Staging Copy blocks assigned to pruned entries are abandoned.
pub proof fn law_pruned_entries_abandon_their_journal_block(
    states: AuthTreeDataBlocksUpdateStates,
    n: int,
    image_header_end: int,
    i: int,
)
    requires
        0 <= i < n <= states.states@.len(),
        !states.needed(i, image_header_end),
        states.journal_block(i) is Some,
    ensures
        states.abandoned(n, image_header_end).contains(states.journal_block(i)->Some_0),
    decreases n,
{
    let h = image_header_end;
    let p = states.abandoned(n, h);
    let q = states.abandoned(n - 1, h);
    let block = states.journal_block(i)->Some_0;
    if i < n - 1 {
        law_pruned_entries_abandon_their_journal_block(states, n - 1, h, i);
        let k = choose|k: int| 0 <= k < q.len() && q[k] == block;
        assert(p[k] == block);
    } else if states.last_abandoned(n - 1, h) == Some(block) {
        lemma_last_abandoned_is_abandoned(states, n - 1, h);
    } else {
        assert(p[p.len() - 1] == block);
    }
}

proof fn lemma_last_abandoned_is_abandoned(states: AuthTreeDataBlocksUpdateStates, n: int, h: int)
    requires
        0 <= n <= states.states@.len(),
        states.last_abandoned(n, h) is Some,
    ensures
        states.abandoned(n, h).contains(states.last_abandoned(n, h)->Some_0),
    decreases n,
{
    let p = states.abandoned(n, h);
    let q = states.abandoned(n - 1, h);
    let block = states.last_abandoned(n, h)->Some_0;
    if states.journal_block(n - 1) is Some && states.last_abandoned(n - 1, h) != Some(block) {
        assert(p[p.len() - 1] == block);
    } else {
        lemma_last_abandoned_is_abandoned(states, n - 1, h);
        let k = choose|k: int| 0 <= k < q.len() && q[k] == block;
        assert(p[k] == block);
    }
}

} // verus!
