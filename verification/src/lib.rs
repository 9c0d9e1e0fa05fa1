//! Core of a declarative scene-description ("COB") loading pipeline.
//!
//! The library parses a human-readable text format into value trees that can
//! be re-serialized byte-for-byte, resolves named constants across an import
//! graph, and tracks which parsed values are applied to live targets so that
//! reloads apply exactly the newly declared set.

pub mod builtin;
pub mod cache;
pub mod channel;
pub mod constants;
pub mod data_macro;
pub mod document;
pub mod err;
pub mod fill;
pub mod hex;
pub mod num;
pub mod registry;
pub mod ser;
pub mod states;
pub mod style;
pub mod value;

use vstd::prelude::*;

verus! {

/// ASCII code of `0`.
pub const CH_ZERO: u8 = 48;
/// ASCII code of `9`.
pub const CH_NINE: u8 = 57;
/// ASCII code of `a`.
pub const CH_LOWER_A: u8 = 97;
/// ASCII code of `f`.
pub const CH_LOWER_F: u8 = 102;
/// ASCII code of `A`.
pub const CH_UPPER_A: u8 = 65;
/// ASCII code of `F`.
pub const CH_UPPER_F: u8 = 70;

/// True for the ASCII characters the format treats as hexadecimal digits.
pub open spec fn is_hex_digit(b: u8) -> bool {
    (CH_ZERO <= b && b <= CH_NINE) || (CH_LOWER_A <= b && b <= CH_LOWER_F) || (CH_UPPER_A <= b
        && b <= CH_UPPER_F)
}

/// Numeric value of one hexadecimal digit.
pub open spec fn hex_digit_value(b: u8) -> int {
    if CH_ZERO <= b && b <= CH_NINE {
        b - CH_ZERO
    } else if CH_LOWER_A <= b && b <= CH_LOWER_F {
        b - CH_LOWER_A + 10
    } else {
        b - CH_UPPER_A + 10
    }
}

/// Reports whether a byte is a hexadecimal digit.
pub fn check_hex_digit(b: u8) -> (r: bool)
    ensures
        r == is_hex_digit(b),
{
    (CH_ZERO <= b && b <= CH_NINE) || (CH_LOWER_A <= b && b <= CH_LOWER_F) || (CH_UPPER_A <= b
        && b <= CH_UPPER_F)
}

/// Numeric value of one hexadecimal digit, as executable code.
pub fn eval_hex_digit(b: u8) -> (r: u8)
    requires
        is_hex_digit(b),
    ensures
        r == hex_digit_value(b),
        r < 16,
{
    if CH_ZERO <= b && b <= CH_NINE {
        b - CH_ZERO
    } else if CH_LOWER_A <= b && b <= CH_LOWER_F {
        b - CH_LOWER_A + 10
    } else {
        b - CH_UPPER_A + 10
    }
}

} // verus!
