//! The parts of a transaction's state relevant to reading data.
use crate::align;
use crate::alloc_bitmap::SparseAllocBitmap;
use crate::states::AuthTreeDataBlocksUpdateStates;
use vstd::prelude::*;

verus! {

/// A transaction's update tracking states, alongside related information.
pub struct Transaction {
    /// The update tracking states.
    pub auth_tree_data_blocks_update_states: AuthTreeDataBlocksUpdateStates,
    /// Allocation Blocks to get freed upon transaction commit.
    pub pending_frees: SparseAllocBitmap,
    /// Base-2 logarithm of the storage device's IO block size in units of 128
    /// Bytes.
    pub chip_io_block_size_128b_log2: u32,
    /// Base-2 logarithm of the storage device's preferred bulk IO size in units
    /// of its IO blocks.
    pub preferred_chip_io_blocks_bulk_log2: u32,
    /// Whether the contents of Journal Staging Copies are getting disguised.
    pub journal_staging_copy_disguise_enabled: bool,
}

impl Transaction {
    /// Base-2 logarithm of the Minimum Read Block size in units of Allocation
    /// Blocks.
    pub open spec fn min_read_log2(&self) -> nat {
        min_read_block_log2(
            self.chip_io_block_size_128b_log2 as int,
            self.auth_tree_data_blocks_update_states.allocation_block_size_128b_log2 as int,
        )
    }

    /// Base-2 logarithm of the preferred read size in units of Allocation
    /// Blocks.
    pub open spec fn preferred_read_log2(&self) -> nat {
        preferred_read_block_log2(
            self.chip_io_block_size_128b_log2 as int,
            self.preferred_chip_io_blocks_bulk_log2 as int,
            self.auth_tree_data_blocks_update_states.allocation_block_size_128b_log2 as int,
            self.auth_tree_data_blocks_update_states.auth_log2(),
        )
    }

    /// The update tracking states are well-formed, the storage device's IO
    /// block size does not exceed that of the filesystem's IO Blocks and all
    /// Minimum Read Blocks tracked are addressable.
    pub open spec fn wf(&self) -> bool {
        let states = self.auth_tree_data_blocks_update_states;
        &&& states.wf()
        &&& self.pending_frees.wf()
        &&& self.min_read_log2() <= states.io_log2()
        &&& self.min_read_log2() < usize::BITS
        &&& self.preferred_chip_io_blocks_bulk_log2 + self.chip_io_block_size_128b_log2 <= u32::MAX
        &&& forall|i: int|
            0 <= i < states.states@.len() ==> align::align_down(
                (#[trigger] states.states@[i]).target(),
                self.min_read_log2(),
            ) + align::block_size(self.min_read_log2()) <= u64::MAX
    }

    /// The two only differ in their update tracking states.
    pub open spec fn same_environment(&self, other: &Self) -> bool {
        &&& self.auth_tree_data_blocks_update_states.same_layout(&other.auth_tree_data_blocks_update_states)
        &&& self.pending_frees == other.pending_frees
        &&& self.chip_io_block_size_128b_log2 == other.chip_io_block_size_128b_log2
        &&& self.preferred_chip_io_blocks_bulk_log2 == other.preferred_chip_io_blocks_bulk_log2
        &&& self.journal_staging_copy_disguise_enabled == other.journal_staging_copy_disguise_enabled
    }

    /// Well-formedness does not depend on the individual Allocation Blocks'
    /// states.
    pub proof fn lemma_same_shape_wf(&self, other: &Self)
        requires
            other.wf(),
            self.same_environment(other),
            self.auth_tree_data_blocks_update_states.same_shape(&other.auth_tree_data_blocks_update_states),
        ensures
            self.wf(),
    {
        self.auth_tree_data_blocks_update_states.lemma_same_shape_wf(&other.auth_tree_data_blocks_update_states);
        let (s, o) = (
            self.auth_tree_data_blocks_update_states.states@,
            other.auth_tree_data_blocks_update_states.states@,
        );
        assert forall|i: int| 0 <= i < s.len() implies align::align_down(
            (#[trigger] s[i]).target(),
            self.min_read_log2(),
        ) + align::block_size(self.min_read_log2()) <= u64::MAX by {
            assert(o[i].target() == s[i].target());
        }
    }
}

/// Base-2 logarithm of the minimum IO block size in units of Allocation Blocks.
///
/// The minimum IO unit is the maximum of the storage device's IO block and the
/// Allocation Block sizes.
pub open spec fn min_read_block_log2(
    chip_io_block_size_128b_log2: int,
    allocation_block_size_128b_log2: int,
) -> nat {
    if chip_io_block_size_128b_log2 >= allocation_block_size_128b_log2 {
        (chip_io_block_size_128b_log2 - allocation_block_size_128b_log2) as nat
    } else {
        0
    }
}

/// Base-2 logarithm of the preferred IO block size in units of Allocation
/// Blocks.
///
/// It's the value announced by the storage device, capped to what's possible,
/// but ramped up to an Authentication Tree Data Block at least.
pub open spec fn preferred_read_block_log2(
    chip_io_block_size_128b_log2: int,
    preferred_chip_io_blocks_bulk_log2: int,
    allocation_block_size_128b_log2: int,
    auth_tree_data_block_allocation_blocks_log2: nat,
) -> nat {
    let announced = min_read_block_log2(
        preferred_chip_io_blocks_bulk_log2 + chip_io_block_size_128b_log2,
        allocation_block_size_128b_log2,
    );
    let capped = if announced < usize::BITS {
        announced
    } else {
        (usize::BITS - 1) as nat
    };
    align::coarser(capped, auth_tree_data_block_allocation_blocks_log2)
}

/// Determine the minimum IO block size.
pub(crate) fn get_min_read_block_log2(
    chip_io_block_size_128b_log2: u32,
    allocation_block_size_128b_log2: u32,
) -> (r: u32)
    ensures
        r == min_read_block_log2(chip_io_block_size_128b_log2 as int, allocation_block_size_128b_log2 as int),
{
    if chip_io_block_size_128b_log2 >= allocation_block_size_128b_log2 {
        chip_io_block_size_128b_log2 - allocation_block_size_128b_log2
    } else {
        0
    }
}

/// Determine the preferred IO block size.
pub(crate) fn get_preferred_read_block_log2(
    chip_io_block_size_128b_log2: u32,
    preferred_chip_io_blocks_bulk_log2: u32,
    allocation_block_size_128b_log2: u32,
    auth_tree_data_block_allocation_blocks_log2: u32,
) -> (r: u32)
    requires
        preferred_chip_io_blocks_bulk_log2 + chip_io_block_size_128b_log2 <= u32::MAX,
    ensures
        r == preferred_read_block_log2(
            chip_io_block_size_128b_log2 as int,
            preferred_chip_io_blocks_bulk_log2 as int,
            allocation_block_size_128b_log2 as int,
            auth_tree_data_block_allocation_blocks_log2 as nat,
        ),
{
    let announced: u32 = get_min_read_block_log2(
        preferred_chip_io_blocks_bulk_log2 + chip_io_block_size_128b_log2,
        allocation_block_size_128b_log2,
    );
    let capped: u32 = if announced < usize::BITS {
        announced
    } else {
        usize::BITS - 1
    };
    if capped >= auth_tree_data_block_allocation_blocks_log2 {
        capped
    } else {
        auth_tree_data_block_allocation_blocks_log2
    }
}

} // verus!
