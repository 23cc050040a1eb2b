//! Orthographic helpers for Hangul syllables.

use vstd::prelude::*;

verus! {

/// First code point of the precomposed Hangul syllable block.
pub const HANGUL_BASE: u32 = 0xAC00;

/// Last code point of the precomposed Hangul syllable block.
pub const HANGUL_LAST: u32 = 0xD7A3;

/// A precomposed Hangul syllable carries a final consonant (jongseong)
/// exactly when its index within the syllable block is not a multiple of 28.
pub open spec fn spec_has_support(c: char) -> bool {
    HANGUL_BASE <= c as u32 <= HANGUL_LAST && (c as u32 - HANGUL_BASE) % 28 != 0
}

/// Whether `c` is a Hangul syllable that ends in a final consonant.
///
/// Returns `false` for every character outside the Hangul syllable block,
/// `false` for syllables whose block index is a multiple of 28 (those have
/// no final consonant), and `true` for every other syllable in the block.
pub fn has_support(c: char) -> (r: bool)
    ensures
        r == spec_has_support(c),
{
    let u = c as u32;
    HANGUL_BASE <= u && u <= HANGUL_LAST && (u - HANGUL_BASE) % 28 != 0
}

} // verus!
