//! A mathematical model of the bits of a `u32`, field extraction over
//! half-open ranges, and parity over inclusive ranges.

use bit_field::BitField;
use vstd::arithmetic::div_mod::*;
use vstd::arithmetic::power2::*;
use vstd::bits::*;
use vstd::prelude::*;

verus! {

/// Width in bits of a scanned payload.
pub const PAYLOAD_BITS: usize = 32;

/// Bit `k` of `i`, bit 0 being the least significant. Positions at or above
/// the payload width read as 0.
pub open spec fn bit_of(i: u32, k: nat) -> bool {
    (i as nat / pow2(k)) % 2 == 1
}

/// The unsigned value held by the bits of `i` in the half-open range
/// `[lo, hi)`, shifted down so that bit `lo` becomes bit 0.
pub open spec fn bits_in(i: u32, lo: nat, hi: nat) -> nat {
    (i as nat / pow2(lo)) % pow2((hi - lo) as nat)
}

/// Number of set bits of `i` at positions in the half-open range `[lo, end)`.
pub open spec fn ones_in(i: u32, lo: nat, end: nat) -> nat
    decreases end,
{
    if end <= lo {
        0
    } else {
        ones_in(i, lo, (end - 1) as nat) + if bit_of(i, (end - 1) as nat) {
            1nat
        } else {
            0nat
        }
    }
}

/// Parity (0 or 1) of the number of set bits of `i` at positions in the
/// *inclusive* range `[lo, hi]`. Field extraction uses half-open ranges; the
/// parity computation deliberately includes the upper bound.
pub open spec fn parity_of(i: u32, lo: nat, hi: nat) -> nat {
    ones_in(i, lo, hi + 1) % 2
}

/// Relies on bit_field's `BitField::get_bits` on `u32`: the bits of `i` in
/// `lo..hi`, shifted down to bit 0 (0 for an empty range). It panics unless
/// `lo < 32`, `hi <= 32` and `lo <= hi`.
#[verifier::external_body]
fn get_bits(i: u32, lo: usize, hi: usize) -> (r: u32)
    requires
        lo < PAYLOAD_BITS,
        hi <= PAYLOAD_BITS,
        lo <= hi,
    ensures
        r as nat == bits_in(i, lo as nat, hi as nat),
{
    i.get_bits(lo..hi)
}

/// Reads the half-open field `[range.0, range.1)` of `i`.
pub(crate) fn read_field(i: u32, range: (usize, usize)) -> (r: u32)
    requires
        range.0 <= range.1 <= PAYLOAD_BITS,
    ensures
        r as nat == bits_in(i, range.0 as nat, range.1 as nat),
{
    if range.0 == range.1 {
        proof {
            lemma2_to64();
            lemma_small_mod(0, 1);
        }
        0
    } else {
        get_bits(i, range.0, range.1)
    }
}

/// The value spelled by the bits of `i` in `[lo, end)`: bit `k` weighs
/// `2^(k - lo)`.
pub open spec fn bit_sum(i: u32, lo: nat, end: nat) -> nat
    decreases end,
{
    if end <= lo {
        0
    } else {
        bit_sum(i, lo, (end - 1) as nat) + if bit_of(i, (end - 1) as nat) {
            pow2((end - 1 - lo) as nat)
        } else {
            0nat
        }
    }
}

/// Widening a field by one bit at the top adds that bit at its weight.
proof fn lemma_bits_in_step(i: u32, lo: nat, hi: nat)
    requires
        lo <= hi,
    ensures
        bits_in(i, lo, hi + 1) == bits_in(i, lo, hi) + if bit_of(i, hi) {
            pow2((hi - lo) as nat)
        } else {
            0nat
        },
{
    let n = (hi - lo) as nat;
    let x = i as nat / pow2(lo);
    lemma2_to64();
    lemma_pow2_pos(lo);
    lemma_pow2_pos(n);
    lemma_pow2_adds(n, 1);
    lemma_pow2_adds(lo, n);
    assert((hi + 1 - lo) as nat == n + 1);
    lemma_mod_breakdown(x as int, pow2(n) as int, 2);
    lemma_div_denominator(i as int, pow2(lo) as int, pow2(n) as int);
    assert(lo + n == hi);
    let b = (x / pow2(n)) % 2;
    lemma_mod_pos_bound((x / pow2(n)) as int, 2);
    if b == 1 {
        assert(pow2(n) * b == pow2(n));
    } else {
        assert(pow2(n) * b == 0);
    }
}

/// A field is read bit by bit: `bits_in(i, lo, hi)` is exactly the value of
/// the `hi - lo` bits of `i` starting at position `lo`.
pub proof fn lemma_bits_in_reads_each_bit(i: u32, lo: nat, hi: nat)
    requires
        lo <= hi,
    ensures
        bits_in(i, lo, hi) == bit_sum(i, lo, hi),
    decreases hi,
{
    if hi == lo {
        lemma2_to64();
        lemma_small_mod(0, 1);
        assert(pow2(0) == 1);
        assert((i as nat / pow2(lo)) % 1 == 0);
    } else {
        lemma_bits_in_reads_each_bit(i, lo, (hi - 1) as nat);
        lemma_bits_in_step(i, lo, (hi - 1) as nat);
    }
}

/// Changing bits of the payload outside `[lo, hi)` never changes the value
/// read from that range.
pub proof fn lemma_bits_in_ignores_other_bits(i: u32, j: u32, lo: nat, hi: nat)
    requires
        lo <= hi,
        forall|k: nat| lo <= k < hi ==> bit_of(i, k) == bit_of(j, k),
    ensures
        bits_in(i, lo, hi) == bits_in(j, lo, hi),
{
    lemma_bits_in_reads_each_bit(i, lo, hi);
    lemma_bits_in_reads_each_bit(j, lo, hi);
    lemma_bit_sum_agrees(i, j, lo, hi);
}

proof fn lemma_bit_sum_agrees(i: u32, j: u32, lo: nat, end: nat)
    requires
        forall|k: nat| lo <= k < end ==> bit_of(i, k) == bit_of(j, k),
    ensures
        bit_sum(i, lo, end) == bit_sum(j, lo, end),
    decreases end,
{
    if end > lo {
        lemma_bit_sum_agrees(i, j, lo, (end - 1) as nat);
        assert(bit_of(i, (end - 1) as nat) == bit_of(j, (end - 1) as nat));
    }
}

/// Positions at or above the payload width are never set.
proof fn lemma_bit_above_width(i: u32, k: nat)
    requires
        k >= PAYLOAD_BITS,
    ensures
        !bit_of(i, k),
{
    lemma2_to64();
    if k > 32 {
        lemma_pow2_strictly_increases(32, k);
    }
    lemma_basic_div(i as int, pow2(k) as int);
}

/// Counting set bits past the payload width adds nothing.
proof fn lemma_ones_above_width(i: u32, lo: nat, end: nat)
    requires
        end >= PAYLOAD_BITS,
    ensures
        ones_in(i, lo, end) == ones_in(i, lo, PAYLOAD_BITS as nat),
    decreases end,
{
    if end > PAYLOAD_BITS {
        lemma_ones_above_width(i, lo, (end - 1) as nat);
        lemma_bit_above_width(i, (end - 1) as nat);
    }
}

/// Bit `k` of `i` as computed by a shift, for `k` below the payload width.
proof fn lemma_bit_of_by_shift(i: u32, k: u32)
    requires
        k < PAYLOAD_BITS,
    ensures
        ((i >> k) % 2 == 1) == bit_of(i, k as nat),
        (i >> k) % 2 < 2,
{
    lemma_u32_shr_is_div(i, k);
}

/// Flipping bit `k` of `i` changes bit `k` and no other.
proof fn lemma_flip_bit(i: u32, k: u32, j: nat)
    requires
        k < PAYLOAD_BITS,
    ensures
        bit_of(i ^ (1u32 << k), j) == (bit_of(i, j) != (j == k)),
{
    let f = i ^ (1u32 << k);
    if j >= PAYLOAD_BITS {
        lemma_bit_above_width(i, j);
        lemma_bit_above_width(f, j);
    } else {
        let jj = j as u32;
        lemma_bit_of_by_shift(i, jj);
        lemma_bit_of_by_shift(f, jj);
        assert((((i ^ (1u32 << k)) >> jj) % 2 == 1) == (((i >> jj) % 2 == 1) != (jj == k)))
            by (bit_vector)
            requires
                k < 32,
                jj < 32,
        ;
    }
}

proof fn lemma_flip_ones(i: u32, k: u32, lo: nat, end: nat)
    requires
        k < PAYLOAD_BITS,
        lo <= k,
    ensures
        end <= k ==> ones_in(i ^ (1u32 << k), lo, end) == ones_in(i, lo, end),
        end > k ==> ones_in(i ^ (1u32 << k), lo, end) == ones_in(i, lo, end) + 1
            || ones_in(i, lo, end) == ones_in(i ^ (1u32 << k), lo, end) + 1,
    decreases end,
{
    if end > lo {
        lemma_flip_ones(i, k, lo, (end - 1) as nat);
        lemma_flip_bit(i, k, (end - 1) as nat);
    }
}

/// Flipping any single bit inside the inclusive range `[lo, hi]` flips the
/// parity of that range.
pub proof fn lemma_flip_toggles_parity(i: u32, k: u32, lo: nat, hi: nat)
    requires
        k < PAYLOAD_BITS,
        lo <= k <= hi,
    ensures
        parity_of(i ^ (1u32 << k), lo, hi) == 1 - parity_of(i, lo, hi),
{
    lemma_flip_ones(i, k, lo, hi + 1);
}

/// Parity (0 or 1) of the number of set bits of `i` in the *inclusive*
/// range `[range.0, range.1]`. An empty range (`range.0 > range.1`) has
/// parity 0, and positions at or above the payload width count as unset.
pub fn parity_sum(i: u32, range: (usize, usize)) -> (r: u8)
    ensures
        r as nat == parity_of(i, range.0 as nat, range.1 as nat),
        r < 2,
{
    let end: usize = if range.1 < PAYLOAD_BITS {
        range.1 + 1
    } else {
        PAYLOAD_BITS
    };
    let mut sum: u8 = 0;
    let mut k: usize = range.0;
    while k < end
        invariant
            end <= PAYLOAD_BITS,
            range.0 <= k,
            k <= end || k == range.0,
            sum < 2,
            sum as nat == ones_in(i, range.0 as nat, k as nat) % 2,
        decreases end - k,
    {
        proof {
            lemma_bit_of_by_shift(i, k as u32);
        }
        let bit: u32 = (i >> (k as u32)) % 2;
        sum = (sum + bit as u8) % 2;
        k = k + 1;
    }
    proof {
        if range.1 >= PAYLOAD_BITS {
            lemma_ones_above_width(i, range.0 as nat, range.1 as nat + 1);
        }
    }
    sum
}

} // verus!
