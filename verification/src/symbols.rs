//! The ASCII bytes that the wire format is written with.

use vstd::prelude::*;

verus! {

/// `0`, the first of the ten digits.
pub const ZERO: u8 = 48;

/// `9`, the last of the ten digits.
pub const NINE: u8 = 57;

/// `-`, the sign of a negative integer.
pub const MINUS: u8 = 45;

/// `:`, which parts the length of a byte string from its bytes.
pub const COLON: u8 = 58;

/// `i`, which opens an integer.
pub const INTEGER: u8 = 105;

/// `l`, which opens a list.
pub const LIST: u8 = 108;

/// `d`, which opens a dictionary.
pub const DICTIONARY: u8 = 100;

/// `e`, which closes an integer, a list or a dictionary.
pub const END: u8 = 101;

} // verus!
