use esp32::button::ButtonState;
use esp32::keypad::{assemble_mask, convert, key_char, read_char, row_bits};

#[test]
fn convert_decodes_every_key() {
    // bit 4*c + r, column by column as the scan assembles it
    assert_eq!(convert(1 << 0), 1);
    assert_eq!(convert(1 << 1), 4);
    assert_eq!(convert(1 << 2), 7);
    assert_eq!(convert(1 << 3), -1); // *
    assert_eq!(convert(1 << 4), 2);
    assert_eq!(convert(1 << 5), 5);
    assert_eq!(convert(1 << 6), 8);
    assert_eq!(convert(1 << 7), 0);
    assert_eq!(convert(1 << 8), 3);
    assert_eq!(convert(1 << 9), 6);
    assert_eq!(convert(1 << 10), 9);
    assert_eq!(convert(1 << 11), -2); // #
    assert_eq!(convert(1 << 12), -3); // A
    assert_eq!(convert(1 << 13), -4); // B
    assert_eq!(convert(1 << 14), -5); // C
    assert_eq!(convert(1 << 15), -6); // D
}

#[test]
fn convert_yields_sentinel_for_unknown_masks() {
    assert_eq!(convert(0), -10);
    assert_eq!(convert(3), -10);
    assert_eq!(convert(0xffff), -10);
}

#[test]
fn bit_zero_decodes_to_digit_one() {
    assert_eq!(convert(1), 1);
    assert_eq!(read_char(1), Some('1'));
}

#[test]
fn bit_eleven_decodes_to_hash() {
    assert_eq!(convert(1 << 11), -2);
    assert_eq!(read_char(1 << 11), Some('#'));
}

#[test]
fn zero_mask_reads_as_space() {
    assert_eq!(read_char(0), Some(' '));
}

#[test]
fn unknown_mask_reads_as_no_character() {
    assert_eq!(read_char(3), None);
    assert_eq!(key_char(-10), None);
    assert_eq!(key_char(10), None);
}

#[test]
fn key_chars_cover_all_codes() {
    assert_eq!(key_char(-1), Some('*'));
    assert_eq!(key_char(-2), Some('#'));
    assert_eq!(key_char(-3), Some('A'));
    assert_eq!(key_char(-4), Some('B'));
    assert_eq!(key_char(-5), Some('C'));
    assert_eq!(key_char(-6), Some('D'));
    for d in 0..=9i16 {
        let expected = char::from_digit(d as u32, 10).unwrap();
        assert_eq!(key_char(d), Some(expected));
    }
}

#[test]
fn scan_assembly_places_each_column() {
    assert_eq!(row_bits(true, false, false, false), 1);
    assert_eq!(row_bits(false, true, false, true), 2 | 8);
    assert_eq!(row_bits(false, false, false, false), 0);
    assert_eq!(assemble_mask(1, 0, 0, 0), 1);
    assert_eq!(assemble_mask(0, 1, 0, 0), 1 << 4);
    assert_eq!(assemble_mask(0, 0, 1, 0), 1 << 8);
    assert_eq!(assemble_mask(0, 0, 0, 8), 1 << 15);
    // a full scan of key 5: row 1 active while column 1 is driven
    let mask = assemble_mask(
        row_bits(false, false, false, false),
        row_bits(false, true, false, false),
        row_bits(false, false, false, false),
        row_bits(false, false, false, false),
    );
    assert_eq!(convert(mask), 5);
    assert_eq!(read_char(mask), Some('5'));
}

#[test]
fn button_state_round_trips_through_its_raw_byte() {
    assert_eq!(ButtonState::from(0).to_raw(), 0);
    assert_eq!(ButtonState::from(1).to_raw(), 1);
    assert!(matches!(ButtonState::from(0), ButtonState::Pressed));
    assert!(matches!(ButtonState::from(1), ButtonState::Released));
}

#[test]
fn button_state_prints_its_name() {
    assert_eq!(ButtonState::Pressed.to_printable(), "Button::Pressed");
    assert_eq!(ButtonState::Released.to_printable(), "Button::Released");
}

#[test]
fn button_state_defaults_to_released() {
    assert!(matches!(ButtonState::default(), ButtonState::Released));
}
