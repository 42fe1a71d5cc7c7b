//! Relations between the representations of storage allocation, sizes and errors.
use crate::align;
use crate::alloc_bitmap::{AllocBitmap, SparseAllocBitmap};
use crate::buffered_read;
use crate::fs::{
    CryptoError, FixedVecMemoryAllocationFailure, FixedVecNewFromFnError, NvBlkDevIoError, NvFsError, NvFsIoError,
    RngGenerateError, TryNewError,
};
use crate::layout::{AllocBlockCount, PhysicalAllocBlockIndex};
use crate::states_index::{
    AuthTreeDataBlocksUpdateStatesAllocationBlockIndex, AuthTreeDataBlocksUpdateStatesAllocationBlocksIndexRange,
    AuthTreeDataBlocksUpdateStatesIndex, AuthTreeDataBlocksUpdateStatesIndexRange,
};
use crate::transaction;
use vstd::prelude::*;
use vstd::std_specs::convert::FromSpec;

verus! {

/// Allocation Blocks are assigned to the bitmap's bits in order from least to most
/// significant.
pub proof fn law_allocation_bitmap_bits(alloc_bitmap: &AllocBitmap, word: int, j: u64)
    requires
        0 <= word < alloc_bitmap.words@.len(),
        j < 64,
    ensures
        alloc_bitmap.allocated(64 * word + j) <==> alloc_bitmap.words@[word] & (1u64 << j) != 0,
{
    let w = alloc_bitmap.words@[word];
    assert((64 * word + j) / 64 == word && (64 * word + j) % 64 == j);
    assert(((w >> j) & 1 == 1) <==> (w & (1u64 << j) != 0)) by (bit_vector)
        requires
            j < 64,
    ;
}

/// Anything past the bitmap's end is unallocated.
pub proof fn law_nothing_is_allocated_past_the_bitmap(alloc_bitmap: &AllocBitmap, location: int)
    requires
        alloc_bitmap.allocated(location),
    ensures
        0 <= location < 64 * alloc_bitmap.words@.len(),
{
}

/// A single Allocation Block is a block of its own, and there's something allocated
/// in a larger block exactly if there is in either of its halves.
pub proof fn law_block_allocation_is_that_of_its_halves(alloc_bitmap: &AllocBitmap, begin: int, log2: nat)
    ensures
        alloc_bitmap.any_allocated(begin, 0) <==> alloc_bitmap.allocated(begin),
        alloc_bitmap.any_allocated(begin, log2 + 1) <==> alloc_bitmap.any_allocated(begin, log2)
            || alloc_bitmap.any_allocated(begin + align::block_size(log2), log2),
{
    vstd::arithmetic::power2::lemma2_to64();
    vstd::arithmetic::power2::lemma_pow2_unfold(log2 + 1);
    align::lemma_block_size_pos(log2);
    let n = align::block_size(log2);
    assert(align::block_size(0) == 1);
    assert(align::block_size(log2 + 1) == 2 * n);
    if alloc_bitmap.allocated(begin) {
        assert(alloc_bitmap.any_allocated(begin, 0));
    }
    if alloc_bitmap.any_allocated(begin, log2 + 1) {
        let i = choose|i: int|
            begin <= i < begin + align::block_size(log2 + 1) && #[trigger] alloc_bitmap.allocated(i);
        if i < begin + n {
            assert(alloc_bitmap.any_allocated(begin, log2));
        } else {
            assert(alloc_bitmap.any_allocated(begin + n, log2));
        }
    }
    if alloc_bitmap.any_allocated(begin, log2) {
        let i = choose|i: int| begin <= i < begin + n && #[trigger] alloc_bitmap.allocated(i);
        assert(i < begin + align::block_size(log2 + 1));
    }
    if alloc_bitmap.any_allocated(begin + n, log2) {
        let i = choose|i: int| begin + n <= i < begin + n + n && #[trigger] alloc_bitmap.allocated(i);
        assert(i < begin + align::block_size(log2 + 1));
    }
}

/// A sparse bitmap represents the union of the bits from its individual words, each
/// relative to the word's own beginning.
pub proof fn law_sparse_bitmap_bits(bitmap: &SparseAllocBitmap, location: int)
    requires
        bitmap.wf(),
    ensures
        bitmap.has(location) <==> exists|i: int, j: u64|
            #![trigger bitmap.entries@[i], 1u64 << j]
            0 <= i < bitmap.entries@.len() && j < 64 && bitmap.entries@[i].begin.index + j == location
                && bitmap.entries@[i].bits & (1u64 << j) != 0,
{
    if bitmap.has(location) {
        let i = choose|k: int|
            0 <= k < bitmap.entries@.len() && #[trigger] bitmap.entries@[k].begin.index == location - location % 64
                && crate::alloc_bitmap::bit(bitmap.entries@[k].bits, location % 64);
        let j = (location % 64) as u64;
        let w = bitmap.entries@[i].bits;
        assert(((w >> j) & 1 == 1) ==> (w & (1u64 << j) != 0)) by (bit_vector)
            requires
                j < 64,
        ;
        assert(bitmap.entries@[i].begin.index + j == location);
    }
    if exists|i: int, j: u64|
        #![trigger bitmap.entries@[i], 1u64 << j]
        0 <= i < bitmap.entries@.len() && j < 64 && bitmap.entries@[i].begin.index + j == location
            && bitmap.entries@[i].bits & (1u64 << j) != 0 {
        let (i, j) = choose|i: int, j: u64|
            #![trigger bitmap.entries@[i], 1u64 << j]
            0 <= i < bitmap.entries@.len() && j < 64 && bitmap.entries@[i].begin.index + j == location
                && bitmap.entries@[i].bits & (1u64 << j) != 0;
        let w = bitmap.entries@[i].bits;
        assert((w & (1u64 << j) != 0) ==> ((w >> j) & 1 == 1)) by (bit_vector)
            requires
                j < 64,
        ;
        assert(bitmap.entries@[i].begin.index % 64 == 0);
        assert(location % 64 == j);
    }
}

/// The minimum unit of reading is the larger of the storage device's IO block and an
/// Allocation Block.
pub proof fn law_minimum_read_size_is_the_larger_unit(
    chip_io_block_size_128b_log2: nat,
    allocation_block_size_128b_log2: nat,
)
    ensures
        ({
            let m = transaction::min_read_block_log2(
                chip_io_block_size_128b_log2 as int,
                allocation_block_size_128b_log2 as int,
            );
            let size = align::block_size(m) * align::block_size(allocation_block_size_128b_log2);
            let chip_size = align::block_size(chip_io_block_size_128b_log2);
            let allocation_block_size = align::block_size(allocation_block_size_128b_log2);
            &&& size >= chip_size
            &&& size >= allocation_block_size
            &&& size == chip_size || size == allocation_block_size
        }),
{
    let (c, a) = (chip_io_block_size_128b_log2, allocation_block_size_128b_log2);
    let m = transaction::min_read_block_log2(c as int, a as int);
    vstd::arithmetic::power2::lemma2_to64();
    if c >= a {
        align::lemma_block_size_split(a, c);
        assert(align::block_size(m) * align::block_size(a) == align::block_size(a) * align::block_size(m))
            by (nonlinear_arith);
    } else {
        align::lemma_block_size_split(c, a);
        assert(align::block_size(0) == 1);
        assert(1 * align::block_size(a) == align::block_size(a));
    }
}

/// The preferred unit of reading is at least the minimum one and an Authentication Tree
/// Data Block, and, within what's representable, not any larger than the largest of
/// these and what's been announced by the storage device.
///
/// It's the same no matter whether reading through a transaction or not.
pub proof fn law_preferred_read_size(
    chip_io_block_size_128b_log2: nat,
    preferred_chip_io_blocks_bulk_log2: nat,
    allocation_block_size_128b_log2: nat,
    auth_log2: nat,
)
    requires
        auth_log2 < usize::BITS,
        transaction::min_read_block_log2(chip_io_block_size_128b_log2 as int, allocation_block_size_128b_log2 as int)
            < usize::BITS,
    ensures
        ({
            let p = transaction::preferred_read_block_log2(
                chip_io_block_size_128b_log2 as int,
                preferred_chip_io_blocks_bulk_log2 as int,
                allocation_block_size_128b_log2 as int,
                auth_log2,
            );
            let bulk = align::block_size(preferred_chip_io_blocks_bulk_log2 + chip_io_block_size_128b_log2);
            let size = align::block_size(p + allocation_block_size_128b_log2);
            &&& p >= transaction::min_read_block_log2(
                chip_io_block_size_128b_log2 as int,
                allocation_block_size_128b_log2 as int,
            )
            &&& p >= auth_log2
            &&& p < usize::BITS
            &&& p < usize::BITS - 1 ==> size >= bulk
            &&& size > bulk ==> p == auth_log2 || p == 0
            &&& p == buffered_read::preferred_bulk_log2(
                chip_io_block_size_128b_log2 as int,
                preferred_chip_io_blocks_bulk_log2 as int,
                allocation_block_size_128b_log2 as int,
                auth_log2,
            )
        }),
{
    let p = transaction::preferred_read_block_log2(
        chip_io_block_size_128b_log2 as int,
        preferred_chip_io_blocks_bulk_log2 as int,
        allocation_block_size_128b_log2 as int,
        auth_log2,
    );
    let (x, y) = (
        preferred_chip_io_blocks_bulk_log2 + chip_io_block_size_128b_log2,
        p + allocation_block_size_128b_log2,
    );
    if x <= y {
        align::lemma_block_size_split(x, y);
    }
    if y <= x {
        align::lemma_block_size_split(y, x);
    }
}

/// Memory allocation failures are reported as such, wherever they come from.
pub proof fn law_memory_allocation_failures_are_reported(
    try_new_error: TryNewError,
    fixed_vec_error: FixedVecMemoryAllocationFailure,
    reserve_error: std::collections::TryReserveError,
)
    ensures
        ({
            let failure = NvFsError::MemoryAllocationFailure;
            &&& <NvFsError as FromSpec<TryNewError>>::from_spec(try_new_error) == failure
            &&& <NvFsError as FromSpec<FixedVecMemoryAllocationFailure>>::from_spec(fixed_vec_error) == failure
            &&& <NvFsError as FromSpec<std::collections::TryReserveError>>::from_spec(reserve_error) == failure
            &&& <NvFsError as FromSpec<FixedVecNewFromFnError<core::convert::Infallible>>>::from_spec(
                FixedVecNewFromFnError::MemoryAllocationFailure,
            ) == failure
            &&& <NvFsError as FromSpec<FixedVecNewFromFnError<NvFsError>>>::from_spec(
                FixedVecNewFromFnError::MemoryAllocationFailure,
            ) == failure
            &&& <NvFsError as FromSpec<NvBlkDevIoError>>::from_spec(NvBlkDevIoError::MemoryAllocationFailure)
                == failure
            &&& <NvFsError as FromSpec<CryptoError>>::from_spec(CryptoError::MemoryAllocationFailure) == failure
            &&& <NvFsError as FromSpec<RngGenerateError>>::from_spec(
                RngGenerateError::CryptoError(CryptoError::MemoryAllocationFailure),
            ) == failure
        }),
{
}

/// The initialization function's own errors are passed through.
pub proof fn law_initialization_errors_are_passed_through(e: NvFsError)
    ensures
        <NvFsError as FromSpec<FixedVecNewFromFnError<NvFsError>>>::from_spec(FixedVecNewFromFnError::FnError(e)) == e,
{
}

/// Storage device errors remain distinguishable, and exactly the ones which are about a
/// certain storage region are reported as IO errors.
pub proof fn law_storage_errors_are_distinguishable(a: NvBlkDevIoError, b: NvBlkDevIoError)
    ensures
        <NvFsError as FromSpec<NvBlkDevIoError>>::from_spec(a) == <NvFsError as FromSpec<NvBlkDevIoError>>::from_spec(b)
            ==> a == b,
        <NvFsError as FromSpec<NvBlkDevIoError>>::from_spec(a) is IoError <==> (a is IoBlockOutOfRange
            || a is IoBlockNotMapped || a is IoFailure),
        a is Internal <==> <NvFsError as FromSpec<NvBlkDevIoError>>::from_spec(a) == NvFsError::Internal,
        a is OperationNotSupported <==> <NvFsError as FromSpec<NvBlkDevIoError>>::from_spec(a)
            == NvFsError::OperationNotSupported,
        a is IoBlockOutOfRange <==> <NvFsError as FromSpec<NvBlkDevIoError>>::from_spec(a) == NvFsError::IoError(
            NvFsIoError::RegionOutOfRange,
        ),
        a is IoBlockNotMapped <==> <NvFsError as FromSpec<NvBlkDevIoError>>::from_spec(a) == NvFsError::IoError(
            NvFsIoError::RegionNotMapped,
        ),
{
}

/// Cryptographic errors remain distinguishable, including those from the random number
/// generator. Data found in an indeterminate state is reported the same as when reading
/// it.
pub proof fn law_cryptographic_errors_are_distinguishable(a: CryptoError, b: CryptoError)
    ensures
        <NvFsError as FromSpec<CryptoError>>::from_spec(a) == <NvFsError as FromSpec<CryptoError>>::from_spec(b)
            ==> a == b,
        <NvFsError as FromSpec<CryptoError>>::from_spec(a) matches NvFsError::CryptoError(e) ==> e == a,
        <NvFsError as FromSpec<CryptoError>>::from_spec(a) is CryptoError <==> !(a is MemoryAllocationFailure)
            && !(a is BufferStateIndeterminate),
        <NvFsError as FromSpec<CryptoError>>::from_spec(CryptoError::BufferStateIndeterminate)
            == NvFsError::FailedDataUpdateRead,
        <NvFsError as FromSpec<RngGenerateError>>::from_spec(RngGenerateError::CryptoError(a))
            == <NvFsError as FromSpec<CryptoError>>::from_spec(a),
        <NvFsError as FromSpec<RngGenerateError>>::from_spec(RngGenerateError::ReseedRequired)
            == <NvFsError as FromSpec<CryptoError>>::from_spec(CryptoError::RngFailure),
{
}

/// Counts and locations are represented as plain numbers.
pub proof fn law_numbers_are_converted_unchanged(x: u64)
    ensures
        <AllocBlockCount as FromSpec<u64>>::from_spec(x).count == x,
        <u64 as FromSpec<AllocBlockCount>>::from_spec(AllocBlockCount { count: x }) == x,
        <PhysicalAllocBlockIndex as FromSpec<u64>>::from_spec(x).index == x,
        <u64 as FromSpec<PhysicalAllocBlockIndex>>::from_spec(PhysicalAllocBlockIndex { index: x }) == x,
{
}

/// Indices of entries are represented as plain numbers, and an entry's first Allocation
/// Block has an offset of zero within it.
pub proof fn law_indices_are_converted_unchanged(
    x: usize,
    index: AuthTreeDataBlocksUpdateStatesAllocationBlockIndex,
    range: AuthTreeDataBlocksUpdateStatesIndexRange,
)
    ensures
        <AuthTreeDataBlocksUpdateStatesIndex as FromSpec<usize>>::from_spec(x).index == x,
        <usize as FromSpec<AuthTreeDataBlocksUpdateStatesIndex>>::from_spec(
            AuthTreeDataBlocksUpdateStatesIndex { index: x },
        ) == x,
        <AuthTreeDataBlocksUpdateStatesIndex as FromSpec<
            AuthTreeDataBlocksUpdateStatesAllocationBlockIndex,
        >>::from_spec(index) == index.auth_tree_data_blocks_update_states_index,
        ({
            let first = <AuthTreeDataBlocksUpdateStatesAllocationBlockIndex as FromSpec<
                AuthTreeDataBlocksUpdateStatesIndex,
            >>::from_spec(AuthTreeDataBlocksUpdateStatesIndex { index: x });
            &&& first.auth_tree_data_blocks_update_states_index.index == x
            &&& first.allocation_block_index_in_auth_tree_data_block == 0
        }),
        ({
            let blocks = <AuthTreeDataBlocksUpdateStatesAllocationBlocksIndexRange as FromSpec<
                AuthTreeDataBlocksUpdateStatesIndexRange,
            >>::from_spec(range);
            forall|b: int, k: int|
                k >= 0 ==> (#[trigger] blocks.has(b, k) <==> range.begin.index <= b < range.end.index)
        }),
{
}

} // verus!
