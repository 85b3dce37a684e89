//! The glyph ramp: fifteen characters ordered from empty to brightest.
use vstd::prelude::*;

verus! {

/// Number of glyphs in the ramp.
pub const RAMP_LEN: usize = 15;

/// The glyphs, darkest first.
pub const RAMP: &'static str = " .,:;i1tfLCG08@";

/// The ramp as a sequence of characters.
pub open spec fn ramp() -> Seq<char> {
    RAMP@
}

/// `c` is one of the ramp's glyphs.
pub open spec fn is_glyph(c: char) -> bool {
    exists|i: int| 0 <= i < RAMP_LEN && ramp()[i] == c
}

/// The ramp index of a brightness given in fifteenths of full brightness,
/// rounded down: the level itself, held under the ramp's length, so that full
/// brightness is shown by the last glyph.
pub open spec fn bucket(level: int) -> int {
    if level < 0 {
        0
    } else if level < RAMP_LEN {
        level
    } else {
        RAMP_LEN - 1
    }
}

/// The glyph that shows brightness `level`.
pub open spec fn glyph_of(level: int) -> char {
    ramp()[bucket(level)]
}

/// Clamps a brightness level to an index of the ramp.
pub fn glyph_index(level: usize) -> (index: usize)
    ensures
        index == bucket(level as int),
        index < RAMP_LEN,
{
    if level < RAMP_LEN {
        level
    } else {
        RAMP_LEN - 1
    }
}

/// The glyph that shows brightness `level`.
pub fn glyph(level: usize) -> (c: char)
    ensures
        c == glyph_of(level as int),
        is_glyph(c),
{
    proof {
        reveal_strlit(" .,:;i1tfLCG08@");
    }
    RAMP.get_char(glyph_index(level))
}

/// The glyph that shows brightness `level`, as a slice of the ramp.
pub fn glyph_str(level: usize) -> (s: &'static str)
    ensures
        s@ == seq![glyph_of(level as int)],
{
    proof {
        reveal_strlit(" .,:;i1tfLCG08@");
    }
    let index = glyph_index(level);
    RAMP.substring_ascii(index, index + 1)
}

/// Every brightness level is shown by a glyph of the ramp.
pub proof fn lemma_glyph_of_in_ramp(level: int)
    ensures
        is_glyph(glyph_of(level)),
{
}

/// A brighter level is never shown by a glyph further down the ramp.
pub proof fn lemma_bucket_monotone(darker: int, brighter: int)
    requires
        darker <= brighter,
    ensures
        bucket(darker) <= bucket(brighter),
{
}

/// The ramp has `RAMP_LEN` glyphs, the blank first and the brightest last:
/// level 0 is shown blank, and every level from the last index on by `@`.
pub proof fn lemma_ramp_ends(level: int)
    ensures
        ramp().len() == RAMP_LEN,
        glyph_of(0) == ' ',
        level >= RAMP_LEN - 1 ==> glyph_of(level) == '@',
{
    reveal_strlit(" .,:;i1tfLCG08@");
}

} // verus!
