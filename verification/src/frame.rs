//! A frame's text: one glyph per pixel, rows first, with or without a line
//! break between rows.
use crate::ramp::{glyph_of, glyph_str, is_glyph, lemma_glyph_of_in_ramp};
use vstd::prelude::*;

verus! {

/// Place of pixel `(sx, sy)` among the pixels of a frame `width` wide, rows
/// first.
pub open spec fn pixel_index(width: nat, sx: nat, sy: nat) -> nat {
    sy * width + sx
}

/// The glyphs of row `sy`, left to right.
pub open spec fn row_text(width: nat, levels: Seq<usize>, sy: nat) -> Seq<char> {
    Seq::new(width, |sx: int| glyph_of(levels[pixel_index(width, sx as nat, sy) as int] as int))
}

/// The text of the first `height` rows of a frame whose pixels have the
/// brightness levels `levels`: the rows from the top down, joined by a line
/// break where `row_breaks` asks for it.
pub open spec fn frame_text(
    width: nat,
    height: nat,
    row_breaks: bool,
    levels: Seq<usize>,
) -> Seq<char>
    decreases height,
{
    if height == 0 {
        Seq::empty()
    } else {
        let above = frame_text(width, (height - 1) as nat, row_breaks, levels);
        let joined = if row_breaks && height > 1 {
            above.push('\n')
        } else {
            above
        };
        joined + row_text(width, levels, (height - 1) as nat)
    }
}

/// Distance in the text from one row's first glyph to the next row's.
pub open spec fn row_stride(width: nat, row_breaks: bool) -> nat {
    if row_breaks {
        width + 1
    } else {
        width
    }
}

/// Place in the text of the glyph of pixel `(sx, sy)`.
pub open spec fn text_index(width: nat, row_breaks: bool, sx: nat, sy: nat) -> nat {
    sy * row_stride(width, row_breaks) + sx
}

/// Length of a frame's text: one glyph per pixel, and one line break between
/// each row and the next where `row_breaks` asks for it.
pub open spec fn text_len(width: nat, height: nat, row_breaks: bool) -> nat {
    if row_breaks && height > 0 {
        (width * height + height - 1) as nat
    } else {
        width * height
    }
}

/// Writes out the frame of `width` by `height` pixels whose brightness levels
/// are `levels`, rows first. Gives `None` when `levels` is not one level per
/// pixel.
pub fn compose_frame(
    width: usize,
    height: usize,
    row_breaks: bool,
    levels: &Vec<usize>,
) -> (text: Option<String>)
    ensures
        text is Some <==> levels.len() == width * height,
        text is Some ==> text->0@ == frame_text(width as nat, height as nat, row_breaks, levels@),
{
    match width.checked_mul(height) {
        Some(count) => if count == levels.len() {
            Some(write_frame(width, height, row_breaks, levels))
        } else {
            None
        },
        None => None,
    }
}

/// Writes out a frame whose levels are known to be one per pixel.
pub(crate) fn write_frame(
    width: usize,
    height: usize,
    row_breaks: bool,
    levels: &Vec<usize>,
) -> (text: String)
    requires
        levels.len() == width * height,
    ensures
        text@ == frame_text(width as nat, height as nat, row_breaks, levels@),
{
    let mut text = String::new();
    let mut next: usize = 0;
    let mut sy: usize = 0;
    while sy < height
        invariant
            sy <= height,
            levels.len() == width * height,
            next == sy * width,
            text@ == frame_text(width as nat, sy as nat, row_breaks, levels@),
        decreases height - sy,
    {
        if row_breaks && sy > 0 {
            text.append("\n");
            proof {
                reveal_strlit("\n");
            }
        }
        let ghost joined = text@;
        let mut sx: usize = 0;
        while sx < width
            invariant
                sx <= width,
                sy < height,
                levels.len() == width * height,
                next == sy * width + sx,
                text@ == joined + row_text(width as nat, levels@, sy as nat).take(sx as int),
            decreases width - sx,
        {
            proof {
                lemma_pixel_in_frame(width as nat, height as nat, sx as nat, sy as nat);
            }
            text.append(glyph_str(levels[next]));
            proof {
                let row = row_text(width as nat, levels@, sy as nat);
                assert(row.take(sx + 1) =~= row.take(sx as int).push(row[sx as int]));
                assert(text@ =~= joined + row.take(sx + 1));
            }
            next = next + 1;
            sx = sx + 1;
        }
        proof {
            let row = row_text(width as nat, levels@, sy as nat);
            assert(row.take(width as int) =~= row);
            assert(sy * width + width == (sy + 1) * width) by (nonlinear_arith);
        }
        sy = sy + 1;
    }
    text
}

/// A pixel inside the frame has its place among the frame's pixels.
pub proof fn lemma_pixel_in_frame(width: nat, height: nat, sx: nat, sy: nat)
    requires
        sx < width,
        sy < height,
    ensures
        pixel_index(width, sx, sy) < width * height,
{
    assert(sy * width + width <= height * width) by (nonlinear_arith)
        requires
            sy + 1 <= height,
    ;
    assert(height * width == width * height) by (nonlinear_arith);
}

/// A frame's text has one glyph per pixel, and with row breaks one character
/// more for each row but the last.
pub proof fn lemma_frame_text_len(width: nat, height: nat, row_breaks: bool, levels: Seq<usize>)
    ensures
        frame_text(width, height, row_breaks, levels).len() == text_len(width, height, row_breaks),
    decreases height,
{
    if height > 0 {
        lemma_frame_text_len(width, (height - 1) as nat, row_breaks, levels);
        assert(width * (height - 1) + width == width * height) by (nonlinear_arith);
    } else {
        assert(width * height == 0) by (nonlinear_arith)
            requires
                height == 0,
        ;
    }
}

/// Every character of a frame's text is a glyph of the ramp, or, with row
/// breaks, a line break.
pub proof fn lemma_frame_text_chars(
    width: nat,
    height: nat,
    row_breaks: bool,
    levels: Seq<usize>,
    i: int,
)
    requires
        0 <= i < frame_text(width, height, row_breaks, levels).len(),
    ensures
        is_glyph(frame_text(width, height, row_breaks, levels)[i]) || (row_breaks && frame_text(
            width,
            height,
            row_breaks,
            levels,
        )[i] == '\n'),
    decreases height,
{
    if height > 0 {
        let above = frame_text(width, (height - 1) as nat, row_breaks, levels);
        let joined = if row_breaks && height > 1 {
            above.push('\n')
        } else {
            above
        };
        let row = row_text(width, levels, (height - 1) as nat);
        if i < above.len() {
            lemma_frame_text_chars(width, (height - 1) as nat, row_breaks, levels, i);
        } else if i >= joined.len() {
            let sx = i - joined.len();
            let level = levels[pixel_index(width, sx as nat, (height - 1) as nat) as int];
            lemma_glyph_of_in_ramp(level as int);
            assert((joined + row)[i] == row[sx]);
        }
    }
}

/// The glyph of pixel `(sx, sy)` stands at its place in the text, and shows
/// that pixel's level.
pub proof fn lemma_frame_text_glyph(
    width: nat,
    height: nat,
    row_breaks: bool,
    levels: Seq<usize>,
    sx: nat,
    sy: nat,
)
    requires
        sx < width,
        sy < height,
    ensures
        text_index(width, row_breaks, sx, sy) < frame_text(width, height, row_breaks, levels).len(),
        frame_text(width, height, row_breaks, levels)[text_index(width, row_breaks, sx, sy) as int]
            == glyph_of(levels[pixel_index(width, sx, sy) as int] as int),
    decreases height,
{
    let above = frame_text(width, (height - 1) as nat, row_breaks, levels);
    let joined = if row_breaks && height > 1 {
        above.push('\n')
    } else {
        above
    };
    let row = row_text(width, levels, (height - 1) as nat);
    let at = text_index(width, row_breaks, sx, sy) as int;
    lemma_frame_text_len(width, (height - 1) as nat, row_breaks, levels);
    if sy + 1 < height {
        lemma_frame_text_glyph(width, (height - 1) as nat, row_breaks, levels, sx, sy);
        assert((joined + row)[at] == above[at]);
    } else {
        assert(joined.len() == sy * row_stride(width, row_breaks)) by (nonlinear_arith)
            requires
                sy + 1 == height,
                above.len() == text_len(width, sy, row_breaks),
                joined.len() == above.len() + if row_breaks && height > 1 {
                    1nat
                } else {
                    0nat
                },
        ;
        assert((joined + row)[at] == row[sx as int]);
    }
}

/// With row breaks, a line break follows the last glyph of every row but the
/// last.
pub proof fn lemma_frame_text_break(width: nat, height: nat, levels: Seq<usize>, sy: nat)
    requires
        sy + 1 < height,
    ensures
        text_index(width, true, width, sy) < frame_text(width, height, true, levels).len(),
        frame_text(width, height, true, levels)[text_index(width, true, width, sy) as int] == '\n',
    decreases height,
{
    let above = frame_text(width, (height - 1) as nat, true, levels);
    let joined = above.push('\n');
    let row = row_text(width, levels, (height - 1) as nat);
    let at = text_index(width, true, width, sy) as int;
    lemma_frame_text_len(width, (height - 1) as nat, true, levels);
    if sy + 2 < height {
        lemma_frame_text_break(width, (height - 1) as nat, levels, sy);
        assert((joined + row)[at] == above[at]);
    } else {
        assert(above.len() == sy * (width + 1) + width) by (nonlinear_arith)
            requires
                sy + 2 == height,
                above.len() == text_len(width, (sy + 1) as nat, true),
        ;
        assert((joined + row)[at] == joined[at]);
    }
}

} // verus!
