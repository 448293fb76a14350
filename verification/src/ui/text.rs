//! Character codes of the bitmap fonts' musical glyphs.

use vstd::prelude::*;

verus! {

// character codes -- these are invalid as character literals in the fonts'
// encoding, so they are kept as code points.

pub const SHARP: u32 = 0x81;
pub const DOUBLE_SHARP: u32 = 0x82;
pub const SUB_SHARP: u32 = 0x83;
pub const FLAT: u32 = 0x84;
pub const DOUBLE_FLAT: u32 = 0x85;
pub const SUB_FLAT: u32 = 0x86;
pub const UP: u32 = 0x87;
pub const DOUBLE_UP: u32 = 0x88;
pub const SUB_UP: u32 = 0x8a;
pub const DOWN: u32 = 0x8b;
pub const DOUBLE_DOWN: u32 = 0x8c;
pub const SUB_DOWN: u32 = 0x8e;
pub const SUP_3: u32 = 0x8f;
pub const SUP_4: u32 = 0x90;
pub const SUP_5: u32 = 0x91;
pub const SUP_6: u32 = 0x92;
pub const SUP_7: u32 = 0x93;
pub const SUP_8: u32 = 0x94;
pub const SUP_9: u32 = 0x95;
pub const SUP_QUESTION: u32 = 0x96;

/// The code point of the superscript glyph for `digit`: digits 3 to 9 have
/// their own glyphs, every other value shows a superscript question mark.
pub open spec fn superscript_code(digit: u8) -> u32 {
    if digit == 3 {
        SUP_3
    } else if digit == 4 {
        SUP_4
    } else if digit == 5 {
        SUP_5
    } else if digit == 6 {
        SUP_6
    } else if digit == 7 {
        SUP_7
    } else if digit == 8 {
        SUP_8
    } else if digit == 9 {
        SUP_9
    } else {
        SUP_QUESTION
    }
}

/// Returns the character code for a superscript digit.
pub fn digit_superscript(digit: u8) -> (r: char)
    ensures
        r as u32 == superscript_code(digit),
{
    match digit {
        3 => '\u{8f}',
        4 => '\u{90}',
        5 => '\u{91}',
        6 => '\u{92}',
        7 => '\u{93}',
        8 => '\u{94}',
        9 => '\u{95}',
        _ => '\u{96}',
    }
}

} // verus!
