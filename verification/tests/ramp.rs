use ascii_sdf::{glyph, glyph_index, glyph_str, RAMP, RAMP_LEN};

#[test]
fn ramp_has_fifteen_glyphs_from_blank_to_brightest() {
    assert_eq!(RAMP_LEN, 15);
    assert_eq!(RAMP, " .,:;i1tfLCG08@");
    assert_eq!(RAMP.chars().count(), RAMP_LEN);
    assert_eq!(glyph(0), ' ');
    assert_eq!(glyph(14), '@');
}

#[test]
fn glyph_follows_the_ramp_level_by_level() {
    let expected = [' ', '.', ',', ':', ';', 'i', '1', 't', 'f', 'L', 'C', 'G', '0', '8', '@'];
    for level in 0..15usize {
        assert_eq!(glyph(level), expected[level]);
        assert_eq!(glyph_index(level), level);
    }
}

#[test]
fn full_brightness_and_beyond_clamp_to_the_last_glyph() {
    assert_eq!(glyph_index(14), 14);
    assert_eq!(glyph_index(15), 14);
    assert_eq!(glyph_index(1000), 14);
    assert_eq!(glyph_index(usize::MAX), 14);
    assert_eq!(glyph(15), '@');
    assert_eq!(glyph(usize::MAX), '@');
}

#[test]
fn glyph_index_never_decreases_with_the_level() {
    let mut last = 0usize;
    for level in 0..40usize {
        let index = glyph_index(level);
        assert!(index >= last);
        assert!(index < RAMP_LEN);
        last = index;
    }
}

#[test]
fn glyph_str_is_the_glyph_as_a_slice() {
    for level in 0..20usize {
        let s = glyph_str(level);
        assert_eq!(s.chars().count(), 1);
        assert_eq!(s.chars().next(), Some(glyph(level)));
    }
    assert_eq!(glyph_str(9), "L");
    assert_eq!(glyph_str(99), "@");
}
