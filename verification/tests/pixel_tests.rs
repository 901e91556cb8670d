use storm_radar::pixel::{
    acquire_intensity, classify_pixels, range_match, standard_color_list, Color, Pixel, DELTA,
};

fn rgba(r: u8, g: u8, b: u8, a: u8) -> Color {
    Color { r, g, b, a }
}

#[test]
fn range_match_accepts_within_tolerance() {
    let target = rgba(100, 150, 200, 255);
    assert!(range_match(&rgba(100, 150, 200, 255), &target, 10));
    assert!(range_match(&rgba(110, 140, 210, 245), &target, 10));
    assert!(range_match(&rgba(90, 160, 190, 255), &target, 10));
}

#[test]
fn range_match_rejects_outside_tolerance() {
    let target = rgba(100, 150, 200, 255);
    assert!(!range_match(&rgba(111, 150, 200, 255), &target, 10));
    assert!(!range_match(&rgba(100, 139, 200, 255), &target, 10));
    assert!(!range_match(&rgba(100, 150, 189, 255), &target, 10));
}

#[test]
fn range_match_saturates_at_channel_bounds() {
    // a target near 0 or 255 clamps its window instead of wrapping
    let low = rgba(5, 5, 5, 255);
    assert!(range_match(&rgba(0, 0, 0, 255), &low, 10));
    let high = rgba(250, 250, 250, 255);
    assert!(range_match(&rgba(255, 255, 255, 255), &high, 10));
}

#[test]
fn acquire_intensity_exact_palette() {
    assert_eq!(acquire_intensity(&rgba(0, 0, 246, 255)), 15);
    assert_eq!(acquire_intensity(&rgba(0, 254, 0, 255)), 20);
    assert_eq!(acquire_intensity(&rgba(0, 200, 0, 255)), 25);
    assert_eq!(acquire_intensity(&rgba(0, 144, 0, 255)), 30);
    assert_eq!(acquire_intensity(&rgba(254, 254, 0, 255)), 35);
    assert_eq!(acquire_intensity(&rgba(230, 192, 0, 255)), 40);
    assert_eq!(acquire_intensity(&rgba(254, 144, 0, 255)), 45);
    assert_eq!(acquire_intensity(&rgba(254, 0, 0, 255)), 50);
    assert_eq!(acquire_intensity(&rgba(166, 0, 0, 255)), 55);
    assert_eq!(acquire_intensity(&rgba(100, 0, 0, 255)), 60);
    assert_eq!(acquire_intensity(&rgba(254, 0, 254, 255)), 65);
    assert_eq!(acquire_intensity(&rgba(152, 84, 200, 255)), 70);
}

#[test]
fn acquire_intensity_within_tolerance_and_unmatched() {
    // shifted by at most DELTA per channel: same tier
    assert_eq!(DELTA, 10);
    assert_eq!(acquire_intensity(&rgba(10, 10, 236, 245)), 15);
    assert_eq!(acquire_intensity(&rgba(244, 10, 10, 255)), 50);
    // far from every palette entry: tier 0
    assert_eq!(acquire_intensity(&rgba(128, 128, 128, 255)), 0);
    assert_eq!(acquire_intensity(&rgba(0, 0, 0, 0)), 0);
}

#[test]
fn standard_color_list_matches_palette() {
    let list = standard_color_list();
    assert_eq!(list.len(), 12);
    assert_eq!(list[0], rgba(0, 0, 246, 255));
    assert_eq!(list[11], rgba(152, 84, 200, 255));
}

#[test]
fn classify_pixels_keeps_matching_samples_in_order() {
    let list = standard_color_list();
    let samples = vec![
        (3, 4, rgba(254, 0, 0, 255)),     // tier 50
        (5, 6, rgba(128, 128, 128, 255)), // no match: dropped
        (7, 8, rgba(0, 0, 246, 255)),     // tier 15
    ];
    let result = classify_pixels(&samples, &list);
    assert_eq!(result.len(), 2);
    assert_eq!(
        result[0],
        Pixel { x: 3, y: 4, color: rgba(254, 0, 0, 255), intensity: 50 }
    );
    assert_eq!(
        result[1],
        Pixel { x: 7, y: 8, color: rgba(0, 0, 246, 255), intensity: 15 }
    );
}

#[test]
fn classify_pixels_empty_input() {
    let list = standard_color_list();
    let samples: Vec<(i32, i32, Color)> = Vec::new();
    assert_eq!(classify_pixels(&samples, &list).len(), 0);
}
