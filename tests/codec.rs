use wiegand::{parity_sum, WiegandError, WiegandFormat};

fn standard() -> WiegandFormat {
    WiegandFormat {
        parity_even: 0,
        parity_odd: 25,
        card_number: (0, 16),
        facility_code: (16, 24),
    }
}

#[test]
fn standard_format() {
    let standard_wiegand = WiegandFormat {
        parity_even: 0,
        parity_odd: 25,
        card_number: (0, 16),
        facility_code: (16, 24),
    };

    let rfid_payload = 5666862u32;

    assert_eq!(standard_wiegand.decode(rfid_payload).unwrap(), (86u8, 30766u16));
}

#[test]
fn inverted_facility_range_is_rejected() {
    let format = WiegandFormat {
        facility_code: (10, 5),
        ..standard()
    };
    assert_eq!(format.decode(5666862), Err(WiegandError::InvalidRange));
}

#[test]
fn inverted_card_range_is_rejected() {
    let format = WiegandFormat {
        card_number: (16, 0),
        ..standard()
    };
    assert_eq!(format.decode(0), Err(WiegandError::InvalidRange));
}

#[test]
fn range_past_payload_width_is_rejected() {
    let format = WiegandFormat {
        card_number: (0, 33),
        ..standard()
    };
    assert_eq!(format.decode(1), Err(WiegandError::InvalidRange));
}

#[test]
fn full_width_range_is_accepted() {
    let format = WiegandFormat {
        card_number: (16, 32),
        facility_code: (24, 32),
        ..standard()
    };
    assert_eq!(format.decode(0xABCD_1234), Ok((0xAB, 0xABCD)));
}

#[test]
fn empty_ranges_read_zero() {
    let format = WiegandFormat {
        card_number: (32, 32),
        facility_code: (7, 7),
        ..standard()
    };
    assert_eq!(format.decode(u32::MAX), Ok((0, 0)));
}

#[test]
fn wide_facility_code_keeps_low_bits() {
    let format = WiegandFormat {
        facility_code: (2, 14),
        ..standard()
    };
    assert_eq!(format.decode(0xABCD).unwrap().0, 243);
}

#[test]
fn bits_outside_a_field_do_not_change_it() {
    let format = standard();
    let payload = 5666862u32;
    let (facility, card) = format.decode(payload).unwrap();
    let outside_facility = payload ^ 0xFF00_FFFF;
    assert_eq!(format.decode(outside_facility).unwrap().0, facility);
    let outside_card = payload ^ 0xFFFF_0000;
    assert_eq!(format.decode(outside_card).unwrap().1, card);
    let inside_card = payload ^ 0x0000_0100;
    assert_ne!(format.decode(inside_card).unwrap().1, card);
}

#[test]
fn decoding_twice_gives_the_same_result() {
    let format = standard();
    let first = format.decode(5666862);
    let second = format.decode(5666862);
    assert_eq!(first, second);
    assert_eq!(format, standard());
}

#[test]
fn parity_counts_the_inclusive_range() {
    assert_eq!(parity_sum(0b1011, (0, 3)), 1);
    assert_eq!(parity_sum(0b1000, (0, 3)), 1);
    assert_eq!(parity_sum(0b1000, (0, 2)), 0);
    assert_eq!(parity_sum(0b0110, (1, 2)), 0);
}

#[test]
fn parity_of_empty_range_is_zero() {
    assert_eq!(parity_sum(u32::MAX, (5, 4)), 0);
}

#[test]
fn parity_ignores_positions_past_the_width() {
    assert_eq!(parity_sum(u32::MAX, (0, 40)), 0);
    assert_eq!(parity_sum(u32::MAX, (3, 40)), 1);
    assert_eq!(parity_sum(u32::MAX, (33, usize::MAX)), 0);
}

#[test]
fn flipping_a_bit_flips_parity() {
    let payload = 5666862u32;
    assert_eq!(parity_sum(payload, (0, 16)), 0);
    assert_eq!(parity_sum(payload ^ (1 << 5), (0, 16)), 1);
    for k in 0..=16u32 {
        let flipped = payload ^ (1 << k);
        assert_ne!(parity_sum(flipped, (0, 16)), parity_sum(payload, (0, 16)));
    }
    assert_eq!(parity_sum(payload ^ (1 << 20), (0, 16)), parity_sum(payload, (0, 16)));
}

#[test]
fn render_standard_payload() {
    assert_eq!(
        standard().to_string(5666862),
        "0101011001111000001011101"
    );
}

#[test]
fn render_shape() {
    let rendered = standard().to_string(5666862);
    assert_eq!(rendered.len(), 23 + 2);
    assert!(rendered.chars().all(|c| c == '0' || c == '1'));
    assert_eq!(&rendered[1..rendered.len() - 1], "10101100111100000101110");
}

#[test]
fn render_zero_payload() {
    assert_eq!(standard().to_string(0), "001");
}

#[test]
fn render_full_payload() {
    let rendered = standard().to_string(u32::MAX);
    assert_eq!(rendered.len(), 34);
    assert_eq!(rendered, format!("1{}0", "1".repeat(32)));
}
