//! Decoding and rendering of Wiegand access-control card frames over a
//! configurable bit layout.

mod bits;
mod format;

pub use bits::{
    bit_of, bit_sum, bits_in, lemma_bits_in_ignores_other_bits, lemma_bits_in_reads_each_bit,
    lemma_flip_toggles_parity, ones_in, parity_of, parity_sum, PAYLOAD_BITS,
};
pub use format::{
    binary_digits, bit_width, digit, lemma_binary_digits_shape, lemma_decode_reads_only_field_bits,
    lemma_decode_repeatable, lemma_render_shape, range_valid, WiegandError, WiegandFormat,
};
