//! Orders: block sizes of the buddy allocator.
//!
//! A block of order `o` spans `2^(o + MIN_SIZE_P2)` bytes and must be
//! aligned to its own size. This module holds the arithmetic shared by the
//! allocator: block sizes, alignment, the buddy-address relation, and the
//! lemmas connecting the bit-level formulas used at run time with their
//! arithmetic meaning.

use vstd::prelude::*;

verus! {

use vstd::arithmetic::power2::{
    pow2, lemma_pow2_adds, lemma_pow2_pos, lemma_pow2_strictly_increases, lemma2_to64,
    lemma2_to64_rest,
};
use vstd::arithmetic::div_mod::{
    lemma_fundamental_div_mod, lemma_mod_multiples_basic, lemma_mod_multiples_vanish,
    lemma_small_mod, lemma_mod_division_less_than_divisor,
};
use vstd::bits::{
    lemma_u64_shl_is_mul, lemma_u64_pow2_no_overflow, lemma_u64_low_bits_mask_is_mod,
    low_bits_mask,
};

/// Log2 of the granule size: the smallest allocatable unit is `2^12` bytes.
pub const MIN_SIZE_P2: usize = 12;

/// The granule size in bytes.
pub const GRANULE: u64 = 4096;

/// Largest valid order: a block of `MAX_ORDER` spans `2^63` bytes, the
/// largest power-of-two span that still fits in a 64-bit machine word.
pub const MAX_ORDER: usize = 51;

/// Number of free lists the buddy allocator keeps (orders `0..=MAX_ORDER`).
pub const ORDER_COUNT: usize = 52;

/// Size in bytes of a block of order `o`.
pub open spec fn order_size_spec(o: int) -> int {
    pow2((o + MIN_SIZE_P2) as nat) as int
}

/// A block address must be a multiple of its own size.
pub open spec fn block_aligned(a: int, o: int) -> bool {
    a % order_size_spec(o) == 0
}

/// The block's span stays inside the machine address space.
pub open spec fn block_fits(a: int, o: int) -> bool {
    0 <= a && a + order_size_spec(o) <= u64::MAX + 1
}

pub open spec fn valid_block(a: int, o: int) -> bool {
    &&& 0 <= o <= MAX_ORDER
    &&& block_aligned(a, o)
    &&& block_fits(a, o)
}

/// Byte `b` lies inside the block of order `o` at address `a`.
pub open spec fn in_block(a: int, o: int, b: int) -> bool {
    a <= b < a + order_size_spec(o)
}

/// The two blocks overlap somewhere.
pub open spec fn blocks_overlap(a1: int, o1: int, a2: int, o2: int) -> bool {
    a1 < a2 + order_size_spec(o2) && a2 < a1 + order_size_spec(o1)
}

/// The unique sibling of the block at `a`: the same-size block whose
/// address differs from `a` exactly by the block size, on the side that
/// keeps the pair aligned to the next order.
pub open spec fn buddy_addr(a: int, o: int) -> int {
    if a % (2 * order_size_spec(o)) == 0 {
        a + order_size_spec(o)
    } else {
        a - order_size_spec(o)
    }
}

pub proof fn lemma_order_size_pos(o: int)
    requires
        0 <= o,
    ensures
        order_size_spec(o) >= GRANULE,
        order_size_spec(o) == GRANULE * pow2(o as nat),
{
    lemma_pow2_adds(12, o as nat);
    lemma2_to64();
    lemma_pow2_pos(o as nat);
    assert(GRANULE * pow2(o as nat) >= GRANULE * 1) by (nonlinear_arith)
        requires
            pow2(o as nat) >= 1,
    ;
}

pub proof fn lemma_order_size_double(o: int)
    requires
        0 <= o,
    ensures
        order_size_spec(o + 1) == 2 * order_size_spec(o),
{
    lemma_pow2_adds((o + 12) as nat, 1);
    lemma2_to64();
}

pub proof fn lemma_order_size_increases(o1: int, o2: int)
    requires
        0 <= o1 < o2,
    ensures
        order_size_spec(o1) < order_size_spec(o2),
{
    lemma_pow2_strictly_increases((o1 + 12) as nat, (o2 + 12) as nat);
}

pub proof fn lemma_order_size_values()
    ensures
        order_size_spec(0) == 0x1000,
        order_size_spec(1) == 0x2000,
        order_size_spec(2) == 0x4000,
        order_size_spec(3) == 0x8000,
        order_size_spec(MAX_ORDER as int) == 0x8000_0000_0000_0000,
        order_size_spec(ORDER_COUNT as int) == u64::MAX + 1,
{
    lemma2_to64();
    lemma2_to64_rest();
}

/// An address aligned to twice the block size is aligned to the block size,
/// and its neighbour one block size up keeps block-size alignment.
pub proof fn lemma_align_half(a: int, s: int)
    requires
        s > 0,
        a % (2 * s) == 0,
    ensures
        a % s == 0,
{
    let q = a / (2 * s);
    lemma_fundamental_div_mod(a, 2 * s);
    assert(a == (2 * s) * q + a % (2 * s));
    assert((2 * s) * q == (2 * q) * s) by (nonlinear_arith);
    lemma_mod_multiples_basic(2 * q, s);
}

/// An address aligned to a block size is aligned either to twice that size
/// or to an odd multiple of it; adding or subtracting one block size flips
/// between the two cases.
pub proof fn lemma_align_two_cases(a: int, s: int)
    requires
        s > 0,
        a % s == 0,
    ensures
        a % (2 * s) == 0 || a % (2 * s) == s,
        a % (2 * s) == 0 ==> (a + s) % (2 * s) == s,
        a % (2 * s) == s ==> (a - s) % (2 * s) == 0,
        (a + s) % s == 0,
        a - s >= 0 ==> (a - s) % s == 0,
{
    let s2 = 2 * s;
    let q = a / s2;
    let r = a % s2;
    lemma_fundamental_div_mod(a, s2);
    lemma_mod_division_less_than_divisor(a, s2);
    assert(a == s2 * q + r && 0 <= r < s2);
    // r is itself a multiple of s below 2s, hence 0 or s.
    assert(s2 * q == (2 * q) * s) by (nonlinear_arith)
        requires
            s2 == 2 * s,
    ;
    lemma_mod_multiples_vanish(2 * q, r, s);
    assert(r % s == 0);
    assert(r == 0 || r == s) by {
        if r != 0 && r != s {
            if r < s {
                lemma_small_mod(r as nat, s as nat);
            } else {
                assert(0 < r - s < s);
                assert((r - s) % s == r % s) by {
                    lemma_mod_multiples_vanish(-1, r, s);
                }
                lemma_small_mod((r - s) as nat, s as nat);
            }
        }
    }
    if r == 0 {
        assert((a + s) % s2 == s) by {
            lemma_mod_multiples_vanish(q, s, s2);
            lemma_small_mod(s as nat, s2 as nat);
        }
    }
    if r == s {
        assert((a - s) % s2 == 0) by {
            lemma_mod_multiples_vanish(q, 0, s2);
            lemma_small_mod(0, s2 as nat);
        }
    }
    assert((a + s) % s == 0) by {
        lemma_mod_multiples_vanish(1, a, s);
        assert(a % s == 0);
    }
    if a - s >= 0 {
        assert((a - s) % s == 0) by {
            lemma_mod_multiples_vanish(-1, a, s);
        }
    }
}

/// Everything the allocator needs about the buddy of a valid block: the
/// buddy is the XOR sibling, valid itself, disjoint from the block, the
/// relation is an involution, and the lower of the two is aligned to the
/// next order.
pub proof fn lemma_buddy_properties(a: int, o: int)
    requires
        0 <= o < MAX_ORDER + 1,
        block_aligned(a, o),
        block_fits(a, o),
    ensures
        buddy_addr(a, o) != a,
        buddy_addr(buddy_addr(a, o), o) == buddy_addr(a, o) + (if buddy_addr(a, o) % (2
            * order_size_spec(o)) == 0 {
            order_size_spec(o)
        } else {
            -order_size_spec(o)
        }),
        buddy_addr(buddy_addr(a, o), o) == a,
        block_aligned(buddy_addr(a, o), o),
        buddy_addr(a, o) == a + order_size_spec(o) || buddy_addr(a, o) == a - order_size_spec(o),
        a % (2 * order_size_spec(o)) == 0 ==> buddy_addr(a, o) == a + order_size_spec(o),
        a % (2 * order_size_spec(o)) != 0 ==> buddy_addr(a, o) == a - order_size_spec(o) && a
            - order_size_spec(o) >= 0,
        !blocks_overlap(a, o, buddy_addr(a, o), o),
        block_aligned(if buddy_addr(a, o) < a {
            buddy_addr(a, o)
        } else {
            a
        }, o + 1),
{
    let s = order_size_spec(o);
    lemma_order_size_pos(o);
    lemma_order_size_double(o);
    lemma_align_two_cases(a, s);
    if a % (2 * s) == 0 {
        lemma_align_two_cases(a + s, s);
        assert((a + s) % (2 * s) == s);
    } else {
        assert((a as int) % (2 * s) == s);
        // a >= s: a mod 2s == s and a == 2s*q + s with q >= 0
        lemma_fundamental_div_mod(a, 2 * s);
        let q = a / (2 * s);
        vstd::arithmetic::div_mod::lemma_div_pos_is_pos(a, 2 * s);
        assert((2 * s) * q >= 0) by (nonlinear_arith)
            requires
                q >= 0,
                s > 0,
        ;
        lemma_align_two_cases(a - s, s);
        assert((a - s) % (2 * s) == 0);
    }
}

/// Alignment to a larger order carries down to every smaller order.
pub proof fn lemma_align_lower(a: int, o1: int, o2: int)
    requires
        0 <= o2 <= o1,
        a % order_size_spec(o1) == 0,
    ensures
        a % order_size_spec(o2) == 0,
    decreases o1 - o2,
{
    if o2 < o1 {
        lemma_order_size_double(o1 - 1);
        lemma_order_size_pos(o1 - 1);
        lemma_align_half(a, order_size_spec(o1 - 1));
        lemma_align_lower(a, o1 - 1, o2);
    }
}

/// An address aligned to a block size is aligned to every power of two no
/// larger than that block size.
pub proof fn lemma_pow2_align_divides(a: int, al: int, o: int)
    requires
        0 <= o,
        vstd::arithmetic::power2::is_pow2(al),
        al <= order_size_spec(o),
        a % order_size_spec(o) == 0,
    ensures
        a % al == 0,
{
    let k = (o + 12) as nat;
    vstd::arithmetic::power2::is_pow2_equiv(al);
    let j = choose|j: nat| vstd::arithmetic::power::pow(2, j) == al;
    vstd::arithmetic::power::lemma_pow_positive(2, j);
    assert(pow2(j) == al);
    lemma_pow2_pos(j);
    if j > k {
        lemma_pow2_strictly_increases(k, j);
    }
    assert(j <= k);
    lemma_pow2_adds(j, (k - j) as nat);
    let m = pow2((k - j) as nat) as int;
    lemma_pow2_pos((k - j) as nat);
    assert(order_size_spec(o) == al * m);
    vstd::arithmetic::div_mod::lemma_mod_mod(a, al, m);
    assert((a % (al * m)) % al == a % al);
}

/// A power of two that fits in a 64-bit word is at most the largest
/// order's block size.
pub proof fn lemma_pow2_fits_max_order(al: int)
    requires
        vstd::arithmetic::power2::is_pow2(al),
        al <= u64::MAX,
    ensures
        al <= order_size_spec(MAX_ORDER as int),
{
    vstd::arithmetic::power2::is_pow2_equiv(al);
    let j = choose|j: nat| vstd::arithmetic::power::pow(2, j) == al;
    vstd::arithmetic::power::lemma_pow_positive(2, j);
    assert(pow2(j) == al);
    lemma2_to64();
    lemma2_to64_rest();
    if j > 64 {
        lemma_pow2_strictly_increases(64, j);
    }
    if j == 64 || j > 64 {
        assert(pow2(j) >= pow2(64));
    }
    assert(j <= 63);
    if j < 63 {
        lemma_pow2_strictly_increases(j, 63);
    }
    assert(pow2(j) <= pow2(63));
}

/// An aligned block never reaches past the end of the address space: its
/// base, a multiple of its size, leaves room for one whole block.
pub proof fn lemma_aligned_fits(a: u64, o: int)
    requires
        0 <= o <= MAX_ORDER,
        block_aligned(a as int, o),
    ensures
        block_fits(a as int, o),
{
    let k = (o + 12) as nat;
    let s = order_size_spec(o);
    lemma_order_size_pos(o);
    lemma_pow2_adds(k, (64 - k) as nat);
    lemma2_to64();
    lemma2_to64_rest();
    lemma_pow2_pos((64 - k) as nat);
    let m = pow2((64 - k) as nat) as int;
    assert(s * m == u64::MAX + 1);
    let q = (a as int) / s;
    lemma_fundamental_div_mod(a as int, s);
    vstd::arithmetic::div_mod::lemma_div_pos_is_pos(a as int, s);
    assert(a as int == s * q);
    if q >= m {
        assert(s * q >= s * m) by (nonlinear_arith)
            requires
                s > 0,
                q >= m,
        ;
    }
    assert(q <= m - 1);
    assert(s * q <= s * (m - 1)) by (nonlinear_arith)
        requires
            s > 0,
            q <= m - 1,
    ;
    assert(s * (m - 1) == s * m - s) by (nonlinear_arith);
}

/// Splitting a block of order `o + 1` in half yields exactly the bytes of
/// its two order-`o` halves.
pub proof fn lemma_split_bytes(a: int, o: int, b: int)
    requires
        0 <= o,
    ensures
        in_block(a, o + 1, b) <==> (in_block(a, o, b) || in_block(a + order_size_spec(o), o, b)),
{
    lemma_order_size_double(o);
}

// ---------------------------------------------------------------------------
// Derived orders for sizes, alignments and addresses.
// ---------------------------------------------------------------------------
/// Smallest order whose block size holds `value` bytes, or `ORDER_COUNT`
/// when even the largest block is too small.
pub open spec fn order_for_size_rec(value: int, o: int) -> int
    decreases ORDER_COUNT - o,
{
    if o >= ORDER_COUNT {
        ORDER_COUNT as int
    } else if value <= order_size_spec(o) {
        o
    } else {
        order_for_size_rec(value, o + 1)
    }
}

pub open spec fn order_for_size(value: int) -> int {
    order_for_size_rec(value, 0)
}

/// Largest order `<= MAX_ORDER` whose block size fits inside `value`
/// bytes (0 when `value` is below one granule).
pub open spec fn fit_order_rec(value: int, o: int) -> int
    decreases o,
{
    if o <= 0 {
        0
    } else if order_size_spec(o) <= value {
        o
    } else {
        fit_order_rec(value, o - 1)
    }
}

pub open spec fn max_fit_order(value: int) -> int {
    fit_order_rec(value, MAX_ORDER as int)
}

/// Largest order `<= MAX_ORDER` to whose block size the address `a` is
/// aligned.
pub open spec fn align_order_rec(a: int, o: int) -> int
    decreases o,
{
    if o <= 0 {
        0
    } else if a % order_size_spec(o) == 0 {
        o
    } else {
        align_order_rec(a, o - 1)
    }
}

pub open spec fn max_align_order(a: int) -> int {
    align_order_rec(a, MAX_ORDER as int)
}

/// The order a request is actually served at: large enough for the
/// requested byte size and at least the explicitly requested order.
pub open spec fn effective_order(size: int, order: int) -> int {
    if order_for_size(size) > order {
        order_for_size(size)
    } else {
        order
    }
}

pub proof fn lemma_order_for_size_rec(value: int, o: int)
    requires
        0 <= o <= ORDER_COUNT,
    ensures
        o <= order_for_size_rec(value, o) <= ORDER_COUNT,
        order_for_size_rec(value, o) < ORDER_COUNT ==> value <= order_size_spec(
            order_for_size_rec(value, o),
        ),
        forall|j: int|
            o <= j < order_for_size_rec(value, o) ==> value > #[trigger] order_size_spec(j),
    decreases ORDER_COUNT - o,
{
    if o < ORDER_COUNT && value > order_size_spec(o) {
        lemma_order_for_size_rec(value, o + 1);
    }
}

pub proof fn lemma_fit_order_rec(value: int, o: int)
    requires
        0 <= o <= MAX_ORDER,
    ensures
        0 <= fit_order_rec(value, o) <= o,
        fit_order_rec(value, o) > 0 ==> order_size_spec(fit_order_rec(value, o)) <= value,
        forall|j: int|
            fit_order_rec(value, o) < j <= o ==> #[trigger] order_size_spec(j) > value,
    decreases o,
{
    if o > 0 && order_size_spec(o) > value {
        lemma_fit_order_rec(value, o - 1);
    }
}

pub proof fn lemma_align_order_rec(a: int, o: int)
    requires
        0 <= o <= MAX_ORDER,
    ensures
        0 <= align_order_rec(a, o) <= o,
        align_order_rec(a, o) > 0 ==> a % order_size_spec(align_order_rec(a, o)) == 0,
        forall|j: int| align_order_rec(a, o) < j <= o ==> a % #[trigger] order_size_spec(j) != 0,
    decreases o,
{
    if o > 0 && a % order_size_spec(o) != 0 {
        lemma_align_order_rec(a, o - 1);
    }
}

// ---------------------------------------------------------------------------
// Executable helpers.
// ---------------------------------------------------------------------------
/// Size in bytes of a block of the given order.
pub fn order_size(order: usize) -> (r: u64)
    requires
        order <= MAX_ORDER,
    ensures
        r == order_size_spec(order as int),
        r >= GRANULE,
{
    let k: u64 = (order as u64) + (MIN_SIZE_P2 as u64);
    proof {
        lemma_u64_pow2_no_overflow(k as nat);
        lemma_u64_shl_is_mul(1, k);
        lemma_order_size_pos(order as int);
    }
    1u64 << k
}

/// Natural alignment of a block of the given order; identical to its size.
pub fn order_align(order: usize) -> (r: u64)
    requires
        order <= MAX_ORDER,
    ensures
        r == order_size_spec(order as int),
        r >= GRANULE,
{
    order_size(order)
}

/// Mask of the address bits below the given order's alignment.
pub fn bottom_mask(order: usize) -> (r: u64)
    requires
        order <= MAX_ORDER,
    ensures
        r == order_size_spec(order as int) - 1,
{
    order_align(order) - 1
}

/// Whether `a` is aligned to the given order's block size.
pub fn order_aligned(a: u64, order: usize) -> (r: bool)
    requires
        order <= MAX_ORDER,
    ensures
        r == block_aligned(a as int, order as int),
{
    let mask: u64 = bottom_mask(order);
    proof {
        lemma_u64_low_bits_mask_is_mod(a, (order + MIN_SIZE_P2) as nat);
        lemma_u64_pow2_no_overflow((order + MIN_SIZE_P2) as nat);
        assert(low_bits_mask((order + MIN_SIZE_P2) as nat) == mask);
    }
    a & mask == 0
}

/// The XOR formula computes exactly the buddy address of an aligned block.
pub proof fn lemma_xor_buddy(a: u64, order: usize)
    requires
        order <= MAX_ORDER,
        block_aligned(a as int, order as int),
        block_fits(a as int, order as int),
    ensures
        a ^ (order_size_spec(order as int) as u64) == buddy_addr(a as int, order as int),
{
    let k = (order + MIN_SIZE_P2) as u64;
    lemma_u64_pow2_no_overflow(k as nat);
    lemma_u64_shl_is_mul(1, k);
    let s = order_size_spec(order as int);
    assert(s == 1u64 << k);
    vstd::bits::lemma_u64_shr_is_div(a, k);
    let q = (a as int) / s;
    lemma_fundamental_div_mod(a as int, s);
    vstd::arithmetic::div_mod::lemma_div_pos_is_pos(a as int, s);
    assert((a >> k) == q);
    lemma_u64_low_bits_mask_is_mod(a >> k, 1);
    lemma2_to64();
    assert(low_bits_mask(1) == 1);
    assert(((a >> k) & 1) == q % 2);
    lemma_fundamental_div_mod(q, 2);
    let t = q / 2;
    if q % 2 == 0 {
        assert(a == (2 * s) * t) by (nonlinear_arith)
            requires
                a == s * q,
                q == 2 * t,
        ;
        lemma_mod_multiples_basic(t, 2 * s);
        assert((a as int) % (2 * s) == 0);
        assert(((a >> k) & 1) == 0 ==> (a ^ (1u64 << k)) == a + (1u64 << k)) by (bit_vector)
            requires
                k < 64u64,
        ;
    } else {
        assert(a == (2 * s) * t + s) by (nonlinear_arith)
            requires
                a == s * q,
                q == 2 * t + 1,
        ;
        lemma_mod_multiples_vanish(t, s, 2 * s);
        lemma_small_mod(s as nat, (2 * s) as nat);
        assert((a as int) % (2 * s) == s);
        assert(((a >> k) & 1) == 1 ==> (a ^ (1u64 << k)) == a - (1u64 << k)) by (bit_vector)
            requires
                k < 64u64,
        ;
    }
}

/// Smallest order whose block holds `value` bytes (`ORDER_COUNT` when none
/// does).
pub fn round_up_order_of_size(value: u64) -> (r: usize)
    ensures
        r == order_for_size(value as int),
{
    let mut o: usize = 0;
    loop
        invariant
            0 <= o <= ORDER_COUNT,
            order_for_size(value as int) == order_for_size_rec(value as int, o as int),
        decreases ORDER_COUNT - o,
    {
        if o == ORDER_COUNT {
            return o;
        }
        if value <= order_size(o) {
            return o;
        }
        o = o + 1;
    }
}

/// Largest order whose block size fits inside `value` bytes.
pub fn max_order_of_size(value: u64) -> (r: usize)
    ensures
        r == max_fit_order(value as int),
{
    let mut o: usize = MAX_ORDER;
    loop
        invariant
            0 <= o <= MAX_ORDER,
            max_fit_order(value as int) == fit_order_rec(value as int, o as int),
        decreases o,
    {
        if o == 0 {
            return 0;
        }
        if order_size(o) <= value {
            return o;
        }
        o = o - 1;
    }
}

/// Largest order to whose block size the address `value` is aligned.
pub fn max_order_of_ptr(value: u64) -> (r: usize)
    ensures
        r == max_align_order(value as int),
{
    let mut o: usize = MAX_ORDER;
    loop
        invariant
            0 <= o <= MAX_ORDER,
            max_align_order(value as int) == align_order_rec(value as int, o as int),
        decreases o,
    {
        if o == 0 {
            return 0;
        }
        if order_aligned(value, o) {
            return o;
        }
        o = o - 1;
    }
}

} // verus!
