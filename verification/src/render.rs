//! The frame renderer: one ray per pixel, rows first, each ray marched
//! through the scene and its brightness shown as a glyph.
use crate::frame::{
    frame_text, lemma_frame_text_chars, lemma_frame_text_glyph, lemma_frame_text_len,
    lemma_pixel_in_frame, pixel_index, text_index, text_len, write_frame,
};
use crate::march::{
    cast_ray, lemma_ray_level_is_unique, probe_relation, ray_level, shade_relation, single_valued,
    Probe,
};
use crate::ramp::{glyph_of, is_glyph};
use vstd::arithmetic::div_mod::lemma_fundamental_div_mod;
use vstd::prelude::*;

verus! {

/// Tells whether a screen is wider than tall. The view window is stretched
/// along the screen's longer axis; a square screen counts as tall.
pub fn is_wide(screen_width: usize, screen_height: usize) -> (wide: bool)
    ensures
        wide == (screen_width > screen_height),
{
    screen_width > screen_height
}

/// Where `ray` can start the ray of a pixel.
pub open spec fn ray_relation<P, R: Fn(usize, usize) -> P>(ray: R) -> spec_fn(
    usize,
    usize,
    P,
) -> bool {
    |sx: usize, sy: usize, start: P| call_ensures(ray, (sx, sy), start)
}

/// `level` is a brightness that pixel `(sx, sy)` can be given: that of a ray
/// started for the pixel.
pub open spec fn pixel_level<P>(
    started: spec_fn(usize, usize, P) -> bool,
    probed: spec_fn(P, Probe<P>) -> bool,
    shaded: spec_fn(P, usize) -> bool,
    sx: usize,
    sy: usize,
    level: usize,
) -> bool {
    exists|start: P|
        #![trigger started(sx, sy, start)]
        started(sx, sy, start) && ray_level(probed, shaded, start, level)
}

/// `levels` holds, rows first, a brightness for every pixel of a screen
/// `width` by `height`.
pub open spec fn renders<P>(
    started: spec_fn(usize, usize, P) -> bool,
    probed: spec_fn(P, Probe<P>) -> bool,
    shaded: spec_fn(P, usize) -> bool,
    width: usize,
    height: usize,
    levels: Seq<usize>,
) -> bool {
    &&& levels.len() == width * height
    &&& forall|sx: usize, sy: usize|
        #![trigger pixel_index(width as nat, sx as nat, sy as nat)]
        sx < width && sy < height ==> pixel_level(
            started,
            probed,
            shaded,
            sx,
            sy,
            levels[pixel_index(width as nat, sx as nat, sy as nat) as int],
        )
}

/// The glyph at the place of pixel `(sx, sy)` in `text` shows a brightness
/// that the pixel can be given.
pub open spec fn shows_pixel<P>(
    started: spec_fn(usize, usize, P) -> bool,
    probed: spec_fn(P, Probe<P>) -> bool,
    shaded: spec_fn(P, usize) -> bool,
    width: usize,
    row_breaks: bool,
    text: Seq<char>,
    sx: usize,
    sy: usize,
) -> bool {
    exists|level: usize|
        #![trigger pixel_level(started, probed, shaded, sx, sy, level)]
        {
            &&& pixel_level(started, probed, shaded, sx, sy, level)
            &&& text[text_index(width as nat, row_breaks, sx as nat, sy as nat) as int] == glyph_of(
                level as int,
            )
        }
}

/// Casts one ray per pixel, rows first, and collects the brightness levels.
pub fn trace_pixels<P, R: Fn(usize, usize) -> P, F: Fn(&P) -> Probe<P>, S: Fn(&P) -> usize>(
    width: usize,
    height: usize,
    ray: &R,
    probe: &F,
    shade: &S,
) -> (levels: Vec<usize>)
    requires
        forall|sx: usize, sy: usize| sx < width && sy < height ==> call_requires(*ray, (sx, sy)),
        forall|p: P| call_requires(*probe, (&p,)),
        forall|p: P| call_requires(*shade, (&p,)),
    ensures
        renders(
            ray_relation(*ray),
            probe_relation(*probe),
            shade_relation(*shade),
            width,
            height,
            levels@,
        ),
{
    let ghost started = ray_relation(*ray);
    let ghost probed = probe_relation(*probe);
    let ghost shaded = shade_relation(*shade);
    let mut levels: Vec<usize> = Vec::new();
    let mut sy: usize = 0;
    while sy < height
        invariant
            forall|sx: usize, sy: usize|
                sx < width && sy < height ==> call_requires(*ray, (sx, sy)),
            forall|p: P| call_requires(*probe, (&p,)),
            forall|p: P| call_requires(*shade, (&p,)),
            started == ray_relation(*ray),
            probed == probe_relation(*probe),
            shaded == shade_relation(*shade),
            sy <= height,
            levels.len() == sy * width,
            forall|px: usize, py: usize|
                #![trigger pixel_index(width as nat, px as nat, py as nat)]
                px < width && py < sy ==> pixel_level(
                    started,
                    probed,
                    shaded,
                    px,
                    py,
                    levels[pixel_index(width as nat, px as nat, py as nat) as int],
                ),
        decreases height - sy,
    {
        let mut sx: usize = 0;
        while sx < width
            invariant
                forall|sx: usize, sy: usize|
                    sx < width && sy < height ==> call_requires(*ray, (sx, sy)),
                forall|p: P| call_requires(*probe, (&p,)),
                forall|p: P| call_requires(*shade, (&p,)),
                started == ray_relation(*ray),
                probed == probe_relation(*probe),
                shaded == shade_relation(*shade),
                sx <= width,
                sy < height,
                levels.len() == sy * width + sx,
                forall|px: usize, py: usize|
                    #![trigger pixel_index(width as nat, px as nat, py as nat)]
                    px < width && (py < sy || (py == sy && px < sx)) ==> pixel_level(
                        started,
                        probed,
                        shaded,
                        px,
                        py,
                        levels[pixel_index(width as nat, px as nat, py as nat) as int],
                    ),
            decreases width - sx,
        {
            let start = ray(sx, sy);
            assert(started(sx, sy, start));
            let level = cast_ray(start, probe, shade);
            let ghost before = levels@;
            levels.push(level);
            proof {
                assert forall|px: usize, py: usize|
                    px < width && (py < sy || (py == sy && px < sx + 1)) implies pixel_level(
                    started,
                    probed,
                    shaded,
                    px,
                    py,
                    levels[#[trigger] pixel_index(width as nat, px as nat, py as nat) as int],
                ) by {
                    if py < sy {
                        lemma_pixel_in_frame(width as nat, sy as nat, px as nat, py as nat);
                        assert(width * sy == sy * width) by (nonlinear_arith);
                    }
                    if py < sy || px < sx {
                        assert(levels[pixel_index(width as nat, px as nat, py as nat) as int]
                            == before[pixel_index(width as nat, px as nat, py as nat) as int]);
                    }
                }
            }
            sx = sx + 1;
        }
        proof {
            assert(sy * width + width == (sy + 1) * width) by (nonlinear_arith);
        }
        sy = sy + 1;
    }
    proof {
        assert(height * width == width * height) by (nonlinear_arith);
    }
    levels
}

/// Renders the scene onto a screen of `screen_width` by `screen_height`
/// glyphs and returns the frame's text. For each pixel, rows first, `ray`
/// starts a ray, `probe` is asked along it until the march ends, and `shade`
/// gives the brightness of the surface point reached; a ray that reaches none
/// is shown blank. With `row_breaks` a line break stands between each row and
/// the next.
pub fn render_scene<P, R: Fn(usize, usize) -> P, F: Fn(&P) -> Probe<P>, S: Fn(&P) -> usize>(
    screen_width: usize,
    screen_height: usize,
    row_breaks: bool,
    ray: &R,
    probe: &F,
    shade: &S,
) -> (text: String)
    requires
        forall|sx: usize, sy: usize|
            sx < screen_width && sy < screen_height ==> call_requires(*ray, (sx, sy)),
        forall|p: P| call_requires(*probe, (&p,)),
        forall|p: P| call_requires(*shade, (&p,)),
    ensures
        exists|levels: Seq<usize>|
            #![trigger frame_text(screen_width as nat, screen_height as nat, row_breaks, levels)]
            {
                &&& renders(
                    ray_relation(*ray),
                    probe_relation(*probe),
                    shade_relation(*shade),
                    screen_width,
                    screen_height,
                    levels,
                )
                &&& text@ == frame_text(
                    screen_width as nat,
                    screen_height as nat,
                    row_breaks,
                    levels,
                )
            },
        text@.len() == text_len(screen_width as nat, screen_height as nat, row_breaks),
        forall|i: int|
            0 <= i < text@.len() ==> is_glyph(#[trigger] text@[i]) || (row_breaks && text@[i]
                == '\n'),
        forall|sx: usize, sy: usize|
            sx < screen_width && sy < screen_height ==> #[trigger] shows_pixel(
                ray_relation(*ray),
                probe_relation(*probe),
                shade_relation(*shade),
                screen_width,
                row_breaks,
                text@,
                sx,
                sy,
            ),
{
    let levels = trace_pixels(screen_width, screen_height, ray, probe, shade);
    let text = write_frame(screen_width, screen_height, row_breaks, &levels);
    proof {
        let started = ray_relation(*ray);
        let probed = probe_relation(*probe);
        let shaded = shade_relation(*shade);
        lemma_frame_text_len(screen_width as nat, screen_height as nat, row_breaks, levels@);
        assert forall|sx: usize, sy: usize|
            sx < screen_width && sy < screen_height implies #[trigger] shows_pixel(
            started,
            probed,
            shaded,
            screen_width,
            row_breaks,
            text@,
            sx,
            sy,
        ) by {
            lemma_frame_text_glyph(
                screen_width as nat,
                screen_height as nat,
                row_breaks,
                levels@,
                sx as nat,
                sy as nat,
            );
            let level = levels@[pixel_index(screen_width as nat, sx as nat, sy as nat) as int];
            assert(pixel_level(started, probed, shaded, sx, sy, level));
        }
        assert forall|i: int| 0 <= i < text@.len() implies is_glyph(#[trigger] text@[i]) || (
        row_breaks && text@[i] == '\n') by {
            lemma_frame_text_chars(
                screen_width as nat,
                screen_height as nat,
                row_breaks,
                levels@,
                i,
            );
        }
    }
    text
}

/// A frame is a function of the scene and the screen's size: where a pixel
/// has one ray, a probe one result and a point one brightness, the pixels of
/// a screen have one brightness each.
pub proof fn lemma_levels_are_unique<P>(
    started: spec_fn(usize, usize, P) -> bool,
    probed: spec_fn(P, Probe<P>) -> bool,
    shaded: spec_fn(P, usize) -> bool,
    width: usize,
    height: usize,
    levels: Seq<usize>,
    other: Seq<usize>,
)
    requires
        forall|sx: usize, sy: usize, a: P, b: P|
            #![trigger started(sx, sy, a), started(sx, sy, b)]
            started(sx, sy, a) && started(sx, sy, b) ==> a == b,
        single_valued(probed),
        forall|at: P, a: usize, b: usize|
            #![trigger shaded(at, a), shaded(at, b)]
            shaded(at, a) && shaded(at, b) ==> a == b,
        renders(started, probed, shaded, width, height, levels),
        renders(started, probed, shaded, width, height, other),
    ensures
        levels == other,
{
    assert forall|i: int| 0 <= i < levels.len() implies levels[i] == other[i] by {
        assert(width > 0) by (nonlinear_arith)
            requires
                0 <= i < width * height,
        ;
        let column = i % (width as int);
        let row = i / (width as int);
        lemma_fundamental_div_mod(i, width as int);
        assert(0 <= row < height) by (nonlinear_arith)
            requires
                i == width * row + column,
                0 <= column < width,
                0 <= i < width * height,
        ;
        let sx = column as usize;
        let sy = row as usize;
        assert(pixel_index(width as nat, sx as nat, sy as nat) == i) by (nonlinear_arith)
            requires
                i == width * sy + sx,
                pixel_index(width as nat, sx as nat, sy as nat) == sy * width + sx,
        ;
        let one = levels[i];
        let two = other[i];
        assert(pixel_level(started, probed, shaded, sx, sy, one));
        assert(pixel_level(started, probed, shaded, sx, sy, two));
        let start = choose|start: P|
            #![trigger started(sx, sy, start)]
            started(sx, sy, start) && ray_level(probed, shaded, start, one);
        let again = choose|start: P|
            #![trigger started(sx, sy, start)]
            started(sx, sy, start) && ray_level(probed, shaded, start, two);
        lemma_ray_level_is_unique(probed, shaded, start, one, two);
    }
    assert(levels =~= other);
}

} // verus!
