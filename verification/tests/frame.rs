use ascii_sdf::compose_frame;

#[test]
fn compose_frame_writes_rows_first() {
    let levels = vec![0, 1, 2, 3, 4, 5];
    assert_eq!(compose_frame(3, 2, false, &levels), Some(String::from(" .,:;i")));
    assert_eq!(compose_frame(2, 3, false, &levels), Some(String::from(" .,:;i")));
}

#[test]
fn compose_frame_breaks_between_rows_only() {
    let levels = vec![0, 1, 2, 3, 4, 5];
    assert_eq!(compose_frame(3, 2, true, &levels), Some(String::from(" .,\n:;i")));
    assert_eq!(compose_frame(2, 3, true, &levels), Some(String::from(" .\n,:\n;i")));
    assert_eq!(compose_frame(6, 1, true, &levels), Some(String::from(" .,:;i")));
    assert_eq!(compose_frame(1, 6, true, &levels), Some(String::from(" \n.\n,\n:\n;\ni")));
}

#[test]
fn compose_frame_clamps_levels_to_the_ramp() {
    let levels = vec![0, 14, 9, 100];
    assert_eq!(compose_frame(2, 2, true, &levels), Some(String::from(" @\nL@")));
    let bright = vec![15, usize::MAX];
    assert_eq!(compose_frame(2, 1, false, &bright), Some(String::from("@@")));
}

#[test]
fn compose_frame_of_no_pixels_is_empty_but_for_breaks() {
    let none: Vec<usize> = Vec::new();
    assert_eq!(compose_frame(0, 0, false, &none), Some(String::new()));
    assert_eq!(compose_frame(0, 0, true, &none), Some(String::new()));
    assert_eq!(compose_frame(5, 0, true, &none), Some(String::new()));
    assert_eq!(compose_frame(0, 3, false, &none), Some(String::new()));
    assert_eq!(compose_frame(0, 3, true, &none), Some(String::from("\n\n")));
}

#[test]
fn compose_frame_refuses_a_wrong_number_of_levels() {
    let levels = vec![0, 1, 2, 3, 4];
    assert_eq!(compose_frame(3, 2, false, &levels), None);
    assert_eq!(compose_frame(2, 2, true, &levels), None);
    assert_eq!(compose_frame(0, 0, false, &levels), None);
    assert_eq!(compose_frame(5, 1, false, &levels), Some(String::from(" .,:;")));
}

#[test]
fn compose_frame_refuses_a_screen_too_large_to_count() {
    let levels: Vec<usize> = Vec::new();
    assert_eq!(compose_frame(usize::MAX, 2, false, &levels), None);
    assert_eq!(compose_frame(usize::MAX, usize::MAX, true, &levels), None);
}
