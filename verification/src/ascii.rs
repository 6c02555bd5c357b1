use vstd::prelude::*;

verus! {

// Byte values of the ASCII characters that the markup and the escaper emit.
pub const LT: u8 = 60;  // '<'
pub const GT: u8 = 62;  // '>'
pub const AMP: u8 = 38;  // '&'
pub const APOS: u8 = 39;  // '\''
pub const QUOT: u8 = 34;  // '"'
pub const SPACE: u8 = 32;  // ' '
pub const HASH: u8 = 35;  // '#'
pub const SEMI: u8 = 59;  // ';'
pub const NEWLINE: u8 = 10;  // '\n'
pub const DIGIT_ZERO: u8 = 48;  // '0'

} // verus!
