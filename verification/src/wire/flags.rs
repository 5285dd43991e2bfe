//! Tag byte flags (high 4 bits of a tag byte).

use vstd::prelude::*;

verus! {

/// No flags set.
pub const NONE: u8 = 0x00;

/// Field is a string dictionary reference (optimization hint).
pub const STRING_DICT_REF: u8 = 0x01;

/// Field has an inline schema annotation.
pub const HAS_SCHEMA_ANNOTATION: u8 = 0x02;

} // verus!
