use vstd::prelude::*;

verus! {

// The keypad's decode logic. The electrical scan itself (driving the four
// column lines low one at a time and sampling the four row inputs) happens
// at the pins and hands back plain values; everything here turns those
// values into the 16-bit mask and the mask into a key.

pub const KEYA: u16 = 1 << 12;

pub const KEYB: u16 = 1 << 13;

pub const KEYC: u16 = 1 << 14;

pub const KEYD: u16 = 1 << 15;

pub const KEY_0: u16 = 1 << 7;

pub const KEY_1: u16 = 1;

pub const KEY_2: u16 = 1 << 4;

pub const KEY_3: u16 = 1 << 8;

pub const KEY_4: u16 = 1 << 1;

pub const KEY_5: u16 = 1 << 5;

pub const KEY_6: u16 = 1 << 9;

pub const KEY_7: u16 = 1 << 2;

pub const KEY_8: u16 = 1 << 6;

pub const KEY_9: u16 = 1 << 10;

pub const KEY_HASH: u16 = 1 << 11;

pub const KEY_STAR: u16 = 1 << 3;

/// The four active-low row samples of one column as a 4-bit value, row r at
/// bit r.
pub open spec fn spec_row_bits(r0: bool, r1: bool, r2: bool, r3: bool) -> u16 {
    (if r0 {
        1u16
    } else {
        0u16
    }) | (if r1 {
        2u16
    } else {
        0u16
    }) | (if r2 {
        4u16
    } else {
        0u16
    }) | (if r3 {
        8u16
    } else {
        0u16
    })
}

/// Packs one column's row samples into its 4-bit group.
pub fn row_bits(r0: bool, r1: bool, r2: bool, r3: bool) -> (m: u16)
    ensures
        m == spec_row_bits(r0, r1, r2, r3),
        m < 16,
{
    let m: u16 = (if r0 {
        1
    } else {
        0
    }) | (if r1 {
        2
    } else {
        0
    }) | (if r2 {
        4
    } else {
        0
    }) | (if r3 {
        8
    } else {
        0
    });
    proof {
        assert(m < 16) by (bit_vector)
            requires
                m == ((if r0 { 1u16 } else { 0u16 }) | (if r1 { 2u16 } else { 0u16 }) | (
                if r2 { 4u16 } else { 0u16 }) | (if r3 { 8u16 } else { 0u16 })),
        ;
    }
    m
}

/// The whole scan mask: column c's 4-bit sample at bits 4c to 4c+3.
pub open spec fn spec_assemble_mask(c0: u16, c1: u16, c2: u16, c3: u16) -> u16 {
    c0 | (c1 << 4) | (c2 << 8) | (c3 << 12)
}

/// Merges the four column samples into the 16-bit key mask.
pub fn assemble_mask(c0: u16, c1: u16, c2: u16, c3: u16) -> (m: u16)
    requires
        c0 < 16,
        c1 < 16,
        c2 < 16,
        c3 < 16,
    ensures
        m == spec_assemble_mask(c0, c1, c2, c3),
{
    c0 | (c1 << 4) | (c2 << 8) | (c3 << 12)
}

/// The fixed bijection from the sixteen key masks to signed key codes:
/// digits map to themselves, `*` `#` and the four side keys to distinct
/// small negatives, and any other mask to the unrecognized sentinel -10.
pub open spec fn spec_convert(mask: u16) -> i16 {
    if mask == KEY_1 {
        1i16
    } else if mask == KEY_4 {
        4i16
    } else if mask == KEY_7 {
        7i16
    } else if mask == KEY_STAR {
        -1i16
    } else if mask == KEY_2 {
        2i16
    } else if mask == KEY_5 {
        5i16
    } else if mask == KEY_8 {
        8i16
    } else if mask == KEY_0 {
        0i16
    } else if mask == KEY_3 {
        3i16
    } else if mask == KEY_6 {
        6i16
    } else if mask == KEY_9 {
        9i16
    } else if mask == KEY_HASH {
        -2i16
    } else if mask == KEYA {
        -3i16
    } else if mask == KEYB {
        -4i16
    } else if mask == KEYC {
        -5i16
    } else if mask == KEYD {
        -6i16
    } else {
        -10i16
    }
}

/// Decodes the scan mask into a signed key code via the fixed table.
pub fn convert(mask: u16) -> (code: i16)
    ensures
        code == spec_convert(mask),
{
    if mask == KEY_1 {
        1
    } else if mask == KEY_4 {
        4
    } else if mask == KEY_7 {
        7
    } else if mask == KEY_STAR {
        -1
    } else if mask == KEY_2 {
        2
    } else if mask == KEY_5 {
        5
    } else if mask == KEY_8 {
        8
    } else if mask == KEY_0 {
        0
    } else if mask == KEY_3 {
        3
    } else if mask == KEY_6 {
        6
    } else if mask == KEY_9 {
        9
    } else if mask == KEY_HASH {
        -2
    } else if mask == KEYA {
        -3
    } else if mask == KEYB {
        -4
    } else if mask == KEYC {
        -5
    } else if mask == KEYD {
        -6
    } else {
        -10
    }
}

/// The printable character of a key code; the unrecognized sentinel and any
/// other stray code have none, an explicit error rather than an undefined
/// digit conversion.
pub open spec fn spec_key_char(code: i16) -> Option<char> {
    if code == -1 {
        Some('*')
    } else if code == -2 {
        Some('#')
    } else if code == -3 {
        Some('A')
    } else if code == -4 {
        Some('B')
    } else if code == -5 {
        Some('C')
    } else if code == -6 {
        Some('D')
    } else if code == 0 {
        Some('0')
    } else if code == 1 {
        Some('1')
    } else if code == 2 {
        Some('2')
    } else if code == 3 {
        Some('3')
    } else if code == 4 {
        Some('4')
    } else if code == 5 {
        Some('5')
    } else if code == 6 {
        Some('6')
    } else if code == 7 {
        Some('7')
    } else if code == 8 {
        Some('8')
    } else if code == 9 {
        Some('9')
    } else {
        None
    }
}

/// Turns a key code into its printable character.
pub fn key_char(code: i16) -> (r: Option<char>)
    ensures
        r == spec_key_char(code),
{
    if code == -1 {
        Some('*')
    } else if code == -2 {
        Some('#')
    } else if code == -3 {
        Some('A')
    } else if code == -4 {
        Some('B')
    } else if code == -5 {
        Some('C')
    } else if code == -6 {
        Some('D')
    } else if code == 0 {
        Some('0')
    } else if code == 1 {
        Some('1')
    } else if code == 2 {
        Some('2')
    } else if code == 3 {
        Some('3')
    } else if code == 4 {
        Some('4')
    } else if code == 5 {
        Some('5')
    } else if code == 6 {
        Some('6')
    } else if code == 7 {
        Some('7')
    } else if code == 8 {
        Some('8')
    } else if code == 9 {
        Some('9')
    } else {
        None
    }
}

/// What one scan yields: a space while no key is down, the key's character
/// while one is, and no character at all for a mask outside the table.
pub open spec fn spec_read_char(mask: u16) -> Option<char> {
    if mask == 0 {
        Some(' ')
    } else {
        spec_key_char(spec_convert(mask))
    }
}

/// Decodes one scan's mask: an all-zero mask yields a space without
/// consulting the decode table; an unrecognized mask yields no character.
pub fn read_char(mask: u16) -> (r: Option<char>)
    ensures
        r == spec_read_char(mask),
        mask == 0 ==> r == Some(' '),
{
    if mask == 0 {
        Some(' ')
    } else {
        key_char(convert(mask))
    }
}

} // verus!
