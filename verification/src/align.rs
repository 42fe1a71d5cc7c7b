//! Alignment arithmetic on power-of-two sized blocks.
use vstd::prelude::*;

verus! {

/// Size of a block with given base-2 logarithm.
pub open spec fn block_size(log2: nat) -> int {
    vstd::arithmetic::power2::pow2(log2) as int
}

/// Base-2 logarithm of the larger one of two block sizes.
pub open spec fn coarser(a: nat, b: nat) -> nat {
    if a > b {
        a
    } else {
        b
    }
}

/// The largest multiple of the block size which is not greater than `x`.
#[verifier::opaque]
pub open spec fn align_down(x: int, log2: nat) -> int {
    x - x % block_size(log2)
}

/// Whether `x` is a multiple of the block size.
pub open spec fn aligned(x: int, log2: nat) -> bool {
    align_down(x, log2) == x
}

/// Number of complete blocks in a region of length `x`.
#[verifier::opaque]
pub open spec fn blocks(x: int, log2: nat) -> int {
    x / block_size(log2)
}

/// Whether `x` and `y` are located within the same block.
pub open spec fn same_block(x: int, y: int, log2: nat) -> bool {
    align_down(x, log2) == align_down(y, log2)
}

pub broadcast proof fn lemma_block_size_pos(log2: nat)
    ensures
        #[trigger] block_size(log2) >= 1,
{
    vstd::arithmetic::power2::lemma_pow2_pos(log2);
}

pub broadcast proof fn lemma_align_down_bounds(x: int, log2: nat)
    ensures
        #[trigger] align_down(x, log2) <= x < align_down(x, log2) + block_size(log2),
        aligned(align_down(x, log2), log2),
        x >= 0 ==> align_down(x, log2) >= 0,
{
    reveal(align_down);
    lemma_block_size_pos(log2);
    let b = block_size(log2);
    vstd::arithmetic::div_mod::lemma_mod_bound(x, b);
    vstd::arithmetic::div_mod::lemma_fundamental_div_mod(x, b);
    let q = x / b;
    assert(x - x % b == b * q);
    vstd::arithmetic::div_mod::lemma_mod_multiples_basic(q, b);
    assert(b * q == q * b) by (nonlinear_arith);
    if x >= 0 {
        vstd::arithmetic::div_mod::lemma_div_pos_is_pos(x, b);
        assert(b * q >= 0) by (nonlinear_arith)
            requires
                b >= 1,
                q >= 0,
        ;
    }
}

/// The multiples of the block size are exactly the products with it.
pub proof fn lemma_aligned_is_multiple(x: int, log2: nat)
    ensures
        aligned(x, log2) ==> x == blocks(x, log2) * block_size(log2),
        x >= 0 ==> blocks(x, log2) >= 0,
{
    reveal(align_down);
    reveal(blocks);
    lemma_block_size_pos(log2);
    let b = block_size(log2);
    vstd::arithmetic::div_mod::lemma_fundamental_div_mod(x, b);
    assert(b * (x / b) == (x / b) * b) by (nonlinear_arith);
    if x >= 0 {
        vstd::arithmetic::div_mod::lemma_div_pos_is_pos(x, b);
    }
}

pub proof fn lemma_multiple_is_aligned(k: int, log2: nat)
    ensures
        aligned(k * block_size(log2), log2),
        blocks(k * block_size(log2), log2) == k,
{
    reveal(align_down);
    reveal(blocks);
    lemma_block_size_pos(log2);
    let b = block_size(log2);
    vstd::arithmetic::div_mod::lemma_mod_multiples_basic(k, b);
    vstd::arithmetic::div_mod::lemma_div_multiples_vanish(k, b);
    assert(k * b == b * k) by (nonlinear_arith);
}

/// Multiples of the block size are closed under addition and subtraction.
pub proof fn lemma_aligned_sum(x: int, y: int, log2: nat)
    requires
        aligned(x, log2),
        aligned(y, log2),
    ensures
        aligned(x + y, log2),
        aligned(x - y, log2),
        blocks(x + y, log2) == blocks(x, log2) + blocks(y, log2),
        blocks(x - y, log2) == blocks(x, log2) - blocks(y, log2),
{
    lemma_aligned_is_multiple(x, log2);
    lemma_aligned_is_multiple(y, log2);
    let b = block_size(log2);
    let (p, q) = (blocks(x, log2), blocks(y, log2));
    assert((p + q) * b == p * b + q * b) by (nonlinear_arith);
    assert((p - q) * b == p * b - q * b) by (nonlinear_arith);
    lemma_multiple_is_aligned(p + q, log2);
    lemma_multiple_is_aligned(p - q, log2);
}

/// The block size itself and zero are multiples of the block size.
pub proof fn lemma_aligned_unit(log2: nat)
    ensures
        aligned(block_size(log2), log2),
        aligned(0, log2),
        blocks(block_size(log2), log2) == 1,
        blocks(0, log2) == 0,
{
    lemma_multiple_is_aligned(1, log2);
    lemma_multiple_is_aligned(0, log2);
}

/// The next multiple of the block size.
pub proof fn lemma_aligned_next(x: int, log2: nat)
    requires
        aligned(x, log2),
    ensures
        aligned(x + block_size(log2), log2),
        aligned(x - block_size(log2), log2),
        blocks(x + block_size(log2), log2) == blocks(x, log2) + 1,
        blocks(x - block_size(log2), log2) == blocks(x, log2) - 1,
{
    lemma_aligned_unit(log2);
    lemma_aligned_sum(x, block_size(log2), log2);
}

/// Distinct multiples of the block size are at least one block apart.
pub proof fn lemma_aligned_gap(x: int, y: int, log2: nat)
    requires
        aligned(x, log2),
        aligned(y, log2),
        x < y,
    ensures
        x + block_size(log2) <= y,
{
    lemma_aligned_sum(y, x, log2);
    lemma_aligned_is_multiple(y - x, log2);
    lemma_block_size_pos(log2);
    let b = block_size(log2);
    let d = blocks(y - x, log2);
    assert(d >= 1) by (nonlinear_arith)
        requires
            d * b > 0,
            b >= 1,
    ;
    assert(d * b >= b) by (nonlinear_arith)
        requires
            d >= 1,
            b >= 1,
    ;
}

/// A block is determined by any location within.
pub proof fn lemma_align_down_unique(x: int, begin: int, log2: nat)
    requires
        aligned(begin, log2),
        begin <= x < begin + block_size(log2),
    ensures
        align_down(x, log2) == begin,
{
    lemma_align_down_bounds(x, log2);
    let a = align_down(x, log2);
    if a < begin {
        lemma_aligned_gap(a, begin, log2);
    }
    if begin < a {
        lemma_aligned_gap(begin, a, log2);
    }
}

pub proof fn lemma_align_down_mono(x: int, y: int, log2: nat)
    requires
        x <= y,
    ensures
        align_down(x, log2) <= align_down(y, log2),
{
    lemma_align_down_bounds(x, log2);
    lemma_align_down_bounds(y, log2);
    if align_down(y, log2) < align_down(x, log2) {
        lemma_aligned_gap(align_down(y, log2), align_down(x, log2), log2);
    }
}

/// Larger blocks are composed of smaller ones.
pub proof fn lemma_block_size_split(fine: nat, coarse: nat)
    requires
        fine <= coarse,
    ensures
        block_size(coarse) == block_size(fine) * block_size((coarse - fine) as nat),
        block_size(fine) <= block_size(coarse),
        aligned(block_size(coarse), fine),
        blocks(block_size(coarse), fine) == block_size((coarse - fine) as nat),
{
    let d = (coarse - fine) as nat;
    vstd::arithmetic::power2::lemma_pow2_adds(fine, d);
    lemma_block_size_pos(fine);
    lemma_block_size_pos(d);
    let (p, q) = (block_size(fine), block_size(d));
    assert(p * q >= p) by (nonlinear_arith)
        requires
            p >= 1,
            q >= 1,
    ;
    assert(p * q == q * p) by (nonlinear_arith);
    lemma_multiple_is_aligned(q, fine);
}

/// Alignment to a larger block size implies alignment to a smaller one.
pub proof fn lemma_aligned_finer(x: int, fine: nat, coarse: nat)
    requires
        fine <= coarse,
        aligned(x, coarse),
    ensures
        aligned(x, fine),
{
    lemma_block_size_split(fine, coarse);
    lemma_aligned_is_multiple(x, coarse);
    let (p, q, k) = (block_size(fine), block_size((coarse - fine) as nat), blocks(x, coarse));
    assert(k * (p * q) == (k * q) * p) by (nonlinear_arith);
    lemma_multiple_is_aligned(k * q, fine);
}

/// A smaller block does not cross any of a larger block's boundaries.
pub proof fn lemma_same_block_coarser(x: int, y: int, fine: nat, coarse: nat)
    requires
        fine <= coarse,
        same_block(x, y, fine),
    ensures
        same_block(x, y, coarse),
{
    lemma_align_down_bounds(x, fine);
    lemma_align_down_bounds(y, fine);
    let c = align_down(x, coarse);
    lemma_align_down_bounds(x, coarse);
    lemma_aligned_finer(c, fine, coarse);
    lemma_block_size_split(fine, coarse);
    lemma_aligned_sum(c, block_size(coarse), fine);
    let f = align_down(x, fine);
    if f < c {
        lemma_aligned_gap(f, c, fine);
    }
    lemma_aligned_gap(f, c + block_size(coarse), fine);
    lemma_align_down_unique(y, c, coarse);
}

/// Block counts grow monotonically with the region's length.
pub proof fn lemma_blocks_mono(x: int, y: int, log2: nat)
    requires
        x <= y,
    ensures
        blocks(x, log2) <= blocks(y, log2),
{
    reveal(blocks);
    lemma_block_size_pos(log2);
    vstd::arithmetic::div_mod::lemma_div_is_ordered(x, y, block_size(log2));
}

/// Counting blocks disregards anything past the last complete one.
pub proof fn lemma_blocks_align_down(x: int, log2: nat)
    ensures
        blocks(align_down(x, log2), log2) == blocks(x, log2),
        align_down(x, log2) == blocks(x, log2) * block_size(log2),
{
    reveal(blocks);
    reveal(align_down);
    lemma_block_size_pos(log2);
    let b = block_size(log2);
    vstd::arithmetic::div_mod::lemma_fundamental_div_mod(x, b);
    assert(b * (x / b) == (x / b) * b) by (nonlinear_arith);
    vstd::arithmetic::div_mod::lemma_div_multiples_vanish(x / b, b);
}

/// Powers of two with an exponent less than a machine word's width fit that
/// word.
pub proof fn lemma_block_size_u64(log2: nat)
    requires
        log2 < 64,
    ensures
        block_size(log2) <= 0x8000_0000_0000_0000,
        (1u64 << log2) == block_size(log2),
        aligned(0x1_0000_0000_0000_0000, log2),
{
    vstd::arithmetic::power2::lemma2_to64();
    vstd::arithmetic::power2::lemma2_to64_rest();
    if log2 < 63 {
        vstd::arithmetic::power2::lemma_pow2_strictly_increases(log2, 63);
    }
    vstd::bits::lemma_u64_shl_is_mul(1u64, log2 as u64);
    lemma_block_size_split(log2, 64);
}

pub proof fn lemma_block_size_usize(log2: nat)
    requires
        log2 < usize::BITS,
    ensures
        block_size(log2) <= usize::MAX,
        (1usize << log2) == block_size(log2),
{
    lemma_block_size_u64(log2);
    vstd::arithmetic::power2::lemma2_to64();
    vstd::arithmetic::power2::lemma2_to64_rest();
    if usize::BITS == 32 {
        if log2 < 31 {
            vstd::arithmetic::power2::lemma_pow2_strictly_increases(log2, 31);
        }
    }
    vstd::bits::lemma_usize_shl_is_mul(1usize, log2 as usize);
}

/// The largest block boundary is one block size away from the end of the
/// address space.
pub proof fn lemma_aligned_u64_room(x: u64, log2: nat)
    requires
        log2 < 64,
        aligned(x as int, log2),
    ensures
        x + block_size(log2) <= 0x1_0000_0000_0000_0000,
{
    lemma_block_size_u64(log2);
    lemma_aligned_gap(x as int, 0x1_0000_0000_0000_0000, log2);
}

/// Size of a block with given base-2 logarithm.
pub fn block_size_u64(log2: u32) -> (r: u64)
    requires
        log2 < 64,
    ensures
        r == block_size(log2 as nat),
{
    proof {
        lemma_block_size_u64(log2 as nat);
    }
    1u64 << log2
}

/// Size of a block with given base-2 logarithm.
pub fn block_size_usize(log2: u32) -> (r: usize)
    requires
        log2 < usize::BITS,
    ensures
        r == block_size(log2 as nat),
{
    proof {
        lemma_block_size_usize(log2 as nat);
    }
    1usize << log2
}

/// Number of complete blocks in a region of length `x`.
pub fn blocks_u64(x: u64, log2: u32) -> (r: u64)
    requires
        log2 < 64,
    ensures
        r == blocks(x as int, log2 as nat),
{
    proof {
        reveal(blocks);
        vstd::bits::lemma_u64_shr_is_div(x, log2 as u64);
    }
    x >> log2
}

/// The largest multiple of the block size which is not greater than `x`.
pub fn align_down_u64(x: u64, log2: u32) -> (r: u64)
    requires
        log2 < 64,
    ensures
        r == align_down(x as int, log2 as nat),
{
    let b: u64 = block_size_u64(log2);
    proof {
        reveal(align_down);
        lemma_block_size_pos(log2 as nat);
        vstd::arithmetic::div_mod::lemma_mod_bound(x as int, b as int);
        vstd::arithmetic::div_mod::lemma_mod_decreases(x as nat, b as nat);
    }
    x - x % b
}

/// Whether `x` and `y` are located within the same block.
pub fn same_block_u64(x: u64, y: u64, log2: u32) -> (r: bool)
    requires
        log2 < 64,
    ensures
        r == same_block(x as int, y as int, log2 as nat),
{
    align_down_u64(x, log2) == align_down_u64(y, log2)
}

} // verus!
