//! The flag bits of a fragment's format.

use vstd::prelude::*;

verus! {

/// The fragment names a key instead of holding text.
pub const COMMAND: i32 = 1;

/// No space goes before the fragment.
pub const ATTACH: i32 = 2;

/// The fragment attaches to a neighbour that is glue too.
pub const GLUE: i32 = 4;

/// The first character is put in upper case.
pub const CAPITALIZE: i32 = 8;

/// All characters are put in lower case.
pub const LOWERCASE: i32 = 16;

/// All characters are put in upper case.
pub const UPPERCASE: i32 = 32;

/// Every bit but the three case bits.
pub const RESET_CAPS: i32 = !(CAPITALIZE | LOWERCASE | UPPERCASE);

} // verus!
