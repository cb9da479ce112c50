//! The format descriptor of a Wiegand variant, and the codec over it.

use crate::bits::{
    bit_of, bit_sum, bits_in, lemma_bits_in_ignores_other_bits, lemma_bits_in_reads_each_bit,
    parity_of, parity_sum, read_field, PAYLOAD_BITS,
};
use vstd::arithmetic::power2::*;
use vstd::prelude::*;
use vstd::string::*;

verus! {

/// Bit layout of one Wiegand variant. Bit 0 is the least significant bit of
/// the payload.
#[derive(Clone, Copy, Debug, PartialEq, Eq)]
pub struct WiegandFormat {
    /// Position of the leading (even) parity bit.
    pub parity_even: usize,
    /// Position of the trailing (odd) parity bit.
    pub parity_odd: usize,
    /// Half-open range `[lower, upper)` of the facility code.
    pub facility_code: (usize, usize),
    /// Half-open range `[lower, upper)` of the card number.
    pub card_number: (usize, usize),
}

/// Errors of the codec.
#[derive(Clone, Copy, Debug, PartialEq, Eq)]
pub enum WiegandError {
    /// A computed parity bit does not match the one received.
    InvalidParity,
    /// A field range has `lower > upper`, or reaches past the payload width.
    InvalidRange,
}

/// A field range is usable when `lower <= upper <= 32`.
pub open spec fn range_valid(range: (usize, usize)) -> bool {
    range.0 <= range.1 <= PAYLOAD_BITS
}

/// The digit `'1'` for a set bit, `'0'` otherwise.
pub open spec fn digit(b: bool) -> char {
    if b {
        '1'
    } else {
        '0'
    }
}

/// Binary digits of `n`, most significant first, without leading zeros
/// (`"0"` for zero).
pub open spec fn binary_digits(n: nat) -> Seq<char>
    decreases n,
{
    if n < 2 {
        seq![digit(n == 1)]
    } else {
        binary_digits(n / 2).push(digit(n % 2 == 1))
    }
}

/// Number of binary digits of `n` written without leading zeros (1 for
/// zero).
pub open spec fn bit_width(n: nat) -> nat
    decreases n,
{
    if n < 2 {
        1
    } else {
        1 + bit_width(n / 2)
    }
}

/// The unpadded binary form of `n` has `bit_width(n)` digits, each `0` or
/// `1`, led by `1` unless `n` is zero; `bit_width(n)` is the least width that
/// holds `n`.
pub proof fn lemma_binary_digits_shape(n: nat)
    ensures
        binary_digits(n).len() == bit_width(n),
        forall|k: int|
            0 <= k < binary_digits(n).len() ==> binary_digits(n)[k] == '0' || binary_digits(n)[k]
                == '1',
        n > 0 ==> binary_digits(n)[0] == '1',
        n < pow2(bit_width(n)),
        n > 0 ==> pow2((bit_width(n) - 1) as nat) <= n,
    decreases n,
{
    lemma2_to64();
    if n >= 2 {
        let w = bit_width(n / 2);
        lemma_binary_digits_shape(n / 2);
        lemma_pow2_unfold(w + 1);
        lemma_pow2_unfold(w);
        assert(binary_digits(n)[0] == binary_digits(n / 2)[0]);
    }
}

impl WiegandFormat {
    /// Both field ranges are usable.
    pub open spec fn ranges_valid(self) -> bool {
        range_valid(self.facility_code) && range_valid(self.card_number)
    }

    /// The facility code and card number of payload `i`: each field read as
    /// an unsigned value and narrowed to its output width, keeping the low
    /// bits.
    pub open spec fn spec_decode(self, i: u32) -> Result<(u8, u16), WiegandError> {
        if self.ranges_valid() {
            Ok(
                (
                    (bits_in(i, self.facility_code.0 as nat, self.facility_code.1 as nat)
                        % 256) as u8,
                    (bits_in(i, self.card_number.0 as nat, self.card_number.1 as nat)
                        % 65536) as u16,
                ),
            )
        } else {
            Err(WiegandError::InvalidRange)
        }
    }

    /// The textual frame of payload `i`: the even parity digit, the binary
    /// digits of `i` unpadded, then the odd parity digit.
    pub open spec fn spec_render(self, i: u32) -> Seq<char> {
        seq![digit(parity_of(i, self.facility_code.0 as nat, self.facility_code.1 as nat) == 1)]
            + binary_digits(i as nat) + seq![
            digit(parity_of(i, self.card_number.0 as nat, self.card_number.1 as nat) == 0),
        ]
    }

    /// Decodes a `(facility_code, card_number)` pair from a scanned payload.
    /// Parity is not checked here; a range with `lower > upper`, or past the
    /// payload width, gives `InvalidRange`.
    pub fn decode(&self, i: u32) -> (r: Result<(u8, u16), WiegandError>)
        ensures
            r == self.spec_decode(i),
    {
        let fc = self.facility_code;
        let cn = self.card_number;
        if !(fc.0 <= fc.1 && fc.1 <= PAYLOAD_BITS && cn.0 <= cn.1 && cn.1 <= PAYLOAD_BITS) {
            return Err(WiegandError::InvalidRange);
        }
        let facility_code = (read_field(i, fc) % 256) as u8;
        let card_number = (read_field(i, cn) % 65536) as u16;
        Ok((facility_code, card_number))
    }

    /// Renders payload `i` as `"<even><binary of i><odd>"`. The even digit is
    /// `1` when the facility code's inclusive range holds an odd number of
    /// set bits; the odd digit is `1` when the card number's inclusive range
    /// holds an even number. The payload is not padded to the frame width.
    pub fn to_string(&self, i: u32) -> (r: String)
        ensures
            r@ == self.spec_render(i),
    {
        let parity_bit_even = parity_sum(i, self.facility_code) == 1;
        let parity_bit_odd = parity_sum(i, self.card_number) == 0;
        let mut r = String::new();
        r.append(digit_str(parity_bit_even));
        let payload = binary_string(i);
        r.append(payload.as_str());
        r.append(digit_str(parity_bit_odd));
        r
    }
}

/// The rendered frame is a parity digit, the unpadded binary digits of the
/// payload, and a parity digit: only `0` and `1`, `bit_width(i) + 2` long,
/// its second digit `1` unless the payload is zero.
pub proof fn lemma_render_shape(f: WiegandFormat, i: u32)
    ensures
        f.spec_render(i).len() == bit_width(i as nat) + 2,
        forall|k: int|
            0 <= k < f.spec_render(i).len() ==> f.spec_render(i)[k] == '0' || f.spec_render(i)[k]
                == '1',
        f.spec_render(i).subrange(1, f.spec_render(i).len() - 1) == binary_digits(i as nat),
        i > 0 ==> f.spec_render(i)[1] == '1',
{
    lemma_binary_digits_shape(i as nat);
    let r = f.spec_render(i);
    let d = binary_digits(i as nat);
    assert(r.subrange(1, r.len() - 1) =~= d);
    assert forall|k: int| 0 <= k < r.len() implies r[k] == '0' || r[k] == '1' by {
        if 1 <= k < r.len() - 1 {
            assert(r[k] == d[k - 1]);
        }
    }
}

/// Each decoded field is the value of exactly the bits of its half-open
/// range, narrowed to its output width; bits of the payload outside that
/// range never change it.
pub proof fn lemma_decode_reads_only_field_bits(f: WiegandFormat, i: u32, j: u32)
    requires
        f.ranges_valid(),
    ensures
        f.spec_decode(i) is Ok,
        f.spec_decode(i)->Ok_0.0 == (bit_sum(i, f.facility_code.0 as nat, f.facility_code.1 as nat)
            % 256) as u8,
        f.spec_decode(i)->Ok_0.1 == (bit_sum(i, f.card_number.0 as nat, f.card_number.1 as nat)
            % 65536) as u16,
        (forall|k: nat|
            f.facility_code.0 <= k < f.facility_code.1 ==> bit_of(i, k) == bit_of(j, k))
            ==> f.spec_decode(i)->Ok_0.0 == f.spec_decode(j)->Ok_0.0,
        (forall|k: nat| f.card_number.0 <= k < f.card_number.1 ==> bit_of(i, k) == bit_of(j, k))
            ==> f.spec_decode(i)->Ok_0.1 == f.spec_decode(j)->Ok_0.1,
{
    let fc = f.facility_code;
    let cn = f.card_number;
    lemma_bits_in_reads_each_bit(i, fc.0 as nat, fc.1 as nat);
    lemma_bits_in_reads_each_bit(i, cn.0 as nat, cn.1 as nat);
    if forall|k: nat| fc.0 <= k < fc.1 ==> bit_of(i, k) == bit_of(j, k) {
        lemma_bits_in_ignores_other_bits(i, j, fc.0 as nat, fc.1 as nat);
    }
    if forall|k: nat| cn.0 <= k < cn.1 ==> bit_of(i, k) == bit_of(j, k) {
        lemma_bits_in_ignores_other_bits(i, j, cn.0 as nat, cn.1 as nat);
    }
}

/// Decoding depends on the descriptor and the payload alone: two decodes of
/// one payload with one descriptor give the same result.
pub proof fn lemma_decode_repeatable(
    f: WiegandFormat,
    i: u32,
    first: Result<(u8, u16), WiegandError>,
    second: Result<(u8, u16), WiegandError>,
)
    requires
        first == f.spec_decode(i),
        second == f.spec_decode(i),
    ensures
        first == second,
{
}

/// The one-digit string for a bit.
fn digit_str(b: bool) -> (r: &'static str)
    ensures
        r@ == seq![digit(b)],
{
    proof {
        reveal_strlit("1");
        reveal_strlit("0");
    }
    if b {
        "1"
    } else {
        "0"
    }
}

/// Binary digits of `n`, most significant first, without leading zeros.
fn binary_string(n: u32) -> (r: String)
    ensures
        r@ == binary_digits(n as nat),
    decreases n,
{
    if n < 2 {
        String::from_str(digit_str(n == 1))
    } else {
        let mut r = binary_string(n / 2);
        r.append(digit_str(n % 2 == 1));
        r
    }
}

} // verus!
