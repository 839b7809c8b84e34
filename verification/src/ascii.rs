//! Named byte values for the ASCII characters the manifest and version
//! grammars are written in terms of.

use vstd::prelude::*;

verus! {

pub const TAB: u8 = 9;

pub const NEWLINE: u8 = 10;

pub const CARRIAGE_RETURN: u8 = 13;

pub const SPACE: u8 = 32;

pub const QUOTE: u8 = 34;

pub const HASH: u8 = 35;

pub const PLUS: u8 = 43;

pub const DASH: u8 = 45;

pub const DOT: u8 = 46;

pub const EQUALS: u8 = 61;

pub const BACKSLASH: u8 = 92;

pub const LBRACKET: u8 = 91;

pub const RBRACKET: u8 = 93;

pub const UNDERSCORE: u8 = 95;

pub const DIGIT_ZERO: u8 = 48;

pub const DIGIT_NINE: u8 = 57;

pub const UPPER_A: u8 = 65;

pub const UPPER_Z: u8 = 90;

pub const LOWER_A: u8 = 97;

pub const LOWER_Z: u8 = 122;

pub const LOWER_C: u8 = 99;

pub const LOWER_E: u8 = 101;

pub const LOWER_G: u8 = 103;

pub const LOWER_H: u8 = 104;

pub const LOWER_I: u8 = 105;

pub const LOWER_J: u8 = 106;

pub const LOWER_K: u8 = 107;

pub const LOWER_M: u8 = 109;

pub const LOWER_N: u8 = 110;

pub const LOWER_O: u8 = 111;

pub const LOWER_P: u8 = 112;

pub const LOWER_R: u8 = 114;

pub const LOWER_S: u8 = 115;

pub const LOWER_T: u8 = 116;

pub const LOWER_V: u8 = 118;

} // verus!
