use storm_radar::azimuth::{azimuth_to_direction, calculate_azimuth_mdeg, Compass};
use storm_radar::pixel::{Color, Pixel};
use storm_radar::shape::{
    classify_storm_type, count_strong_pixels, farthest_sq_offset_from_axis, is_ellipse_drawable,
    longest_distance_from_center, Point, StormType,
};
use storm_radar::storm::{
    calculate_center_distance_sq, calculate_intensity_center, default_radar_center,
};

fn px(x: i32, y: i32, intensity: u32) -> Pixel {
    Pixel { x, y, color: Color { r: 0, g: 0, b: 0, a: 255 }, intensity }
}

#[test]
fn azimuth_cardinal_directions_are_exact() {
    // due north (dy > 0) is exactly 0; due east exactly 90 degrees
    assert_eq!(calculate_azimuth_mdeg(0, 7, 0), 0);
    assert_eq!(calculate_azimuth_mdeg(7, 0, 0), 90000);
    assert_eq!(calculate_azimuth_mdeg(0, -7, 0), 180000);
    assert_eq!(calculate_azimuth_mdeg(-7, 0, 0), 270000);
    // the degenerate origin defaults to north
    assert_eq!(calculate_azimuth_mdeg(0, 0, 0), 0);
}

#[test]
fn azimuth_quadrants_turn_the_arcsine_into_a_compass_angle() {
    // north-east quadrant: 90 - asin
    assert_eq!(calculate_azimuth_mdeg(5, 5, 45000), 45000);
    // north-west quadrant: 270 + asin
    assert_eq!(calculate_azimuth_mdeg(-5, 5, 45000), 315000);
    // south-west quadrant: 270 - asin
    assert_eq!(calculate_azimuth_mdeg(-5, -5, 45000), 225000);
    // south-east quadrant: 90 + asin
    assert_eq!(calculate_azimuth_mdeg(5, -5, 45000), 135000);
    // a north-west bearing that rounds up to a full quarter wraps to 0
    assert_eq!(calculate_azimuth_mdeg(-1, 5000000, 90000), 0);
}

#[test]
fn azimuth_is_always_below_a_full_turn() {
    for &dx in &[-9i64, -1, 0, 1, 9] {
        for &dy in &[-9i64, -1, 0, 1, 9] {
            for &asin in &[0u32, 1, 22500, 89999, 90000] {
                let a = calculate_azimuth_mdeg(dx, dy, asin);
                assert!(a < 360000);
            }
        }
    }
}

#[test]
fn compass_bins_have_boundaries_at_odd_multiples_of_22500() {
    assert_eq!(azimuth_to_direction(0), Compass::North);
    assert_eq!(azimuth_to_direction(22500), Compass::North);
    assert_eq!(azimuth_to_direction(22501), Compass::NorthEast);
    assert_eq!(azimuth_to_direction(67500), Compass::NorthEast);
    assert_eq!(azimuth_to_direction(90000), Compass::East);
    assert_eq!(azimuth_to_direction(157000), Compass::SouthEast);
    assert_eq!(azimuth_to_direction(180000), Compass::South);
    assert_eq!(azimuth_to_direction(247000), Compass::SouthWest);
    assert_eq!(azimuth_to_direction(270000), Compass::West);
    assert_eq!(azimuth_to_direction(337500), Compass::NorthWest);
    assert_eq!(azimuth_to_direction(337501), Compass::North);
    assert_eq!(azimuth_to_direction(360000), Compass::North);
}

#[test]
fn centroid_is_the_weighted_mean_rounded_to_nearest() {
    // weights 45 at x=0 and 90 at x=10: mean 900/135 = 6.67 -> 7
    let pixels = vec![px(0, 0, 45), px(10, 0, 90)];
    let c = calculate_intensity_center(&pixels, 45);
    assert_eq!(c, Point { x: 7, y: 0 });
}

#[test]
fn centroid_ignores_pixels_below_the_floor() {
    let pixels = vec![px(0, 0, 45), px(10, 0, 90), px(1000, 1000, 10)];
    let c = calculate_intensity_center(&pixels, 45);
    assert_eq!(c, Point { x: 7, y: 0 });
}

#[test]
fn centroid_defaults_to_origin_with_zero_weight() {
    let pixels = vec![px(50, 60, 10), px(70, 80, 0)];
    let c = calculate_intensity_center(&pixels, 45);
    assert_eq!(c, Point { x: 0, y: 0 });
}

#[test]
fn centroid_stays_inside_the_qualifying_bounding_box() {
    let pixels = vec![
        px(10, 20, 50),
        px(14, 29, 70),
        px(12, 24, 45),
        px(-500, -500, 5), // below the floor: outside the box but ignored
    ];
    let c = calculate_intensity_center(&pixels, 45);
    assert!(10 <= c.x && c.x <= 14);
    assert!(20 <= c.y && c.y <= 29);
}

#[test]
fn distance_is_kept_squared() {
    let d = calculate_center_distance_sq(Point { x: 303, y: 304 }, default_radar_center());
    assert_eq!(d, 25);
}

#[test]
fn major_axis_picks_the_farthest_strong_pixel() {
    let center = Point { x: 0, y: 0 };
    let pixels = vec![
        px(1, 0, 50),
        px(5, 0, 50),
        px(9, 0, 10), // farther but too weak to count
        px(-3, 4, 50),
    ];
    let (major_sq, farthest) = longest_distance_from_center(&pixels, center);
    assert_eq!(major_sq, 25);
    // (5,0) and (-3,4) tie at 25; the earliest strict maximum wins
    assert_eq!(farthest, Point { x: 5, y: 0 });
}

#[test]
fn major_axis_degenerates_without_strong_pixels() {
    let center = Point { x: 3, y: 3 };
    let pixels = vec![px(1, 0, 10), px(5, 0, 44)];
    let (major_sq, farthest) = longest_distance_from_center(&pixels, center);
    assert_eq!(major_sq, 0);
    assert_eq!(farthest, Point { x: 0, y: 0 });
}

#[test]
fn axis_offset_is_the_largest_squared_cross_product() {
    let start = Point { x: 0, y: 0 };
    let end = Point { x: 10, y: 0 };
    let pixels = vec![
        px(5, 3, 50),  // cross = 10 * 3 = 30 gives 900 after squaring
        px(2, -1, 50), // cross magnitude 10
        px(4, 9, 10),  // weak: ignored
    ];
    let cross_sq = farthest_sq_offset_from_axis(&pixels, start, end);
    assert_eq!(cross_sq, 900);
}

#[test]
fn strong_pixel_count_uses_the_shape_floor() {
    let pixels = vec![px(0, 0, 45), px(1, 0, 70), px(2, 0, 44), px(3, 0, 0)];
    assert_eq!(count_strong_pixels(&pixels), 2);
}

#[test]
fn ellipse_needs_fifty_strong_pixels() {
    let mut pixels = Vec::new();
    for i in 0..49 {
        pixels.push(px(i, 0, 50));
    }
    assert!(!is_ellipse_drawable(&pixels));
    pixels.push(px(49, 0, 45));
    assert!(is_ellipse_drawable(&pixels));
    pixels.push(px(50, 0, 44)); // a weak pixel changes nothing
    assert!(is_ellipse_drawable(&pixels));
}

#[test]
fn classification_thresholds_are_exact() {
    // a degenerate fit is single-cell
    assert_eq!(classify_storm_type(0, 0), StormType::SingleCell);
    assert_eq!(classify_storm_type(0, 100), StormType::SingleCell);
    // a perfectly collinear fit (eccentricity 1) is single-cell
    assert_eq!(classify_storm_type(25, 0), StormType::SingleCell);
    // major_sq = 25: multi-cell iff 10000 * cross_sq <= 2256 * 625 = 1410000
    assert_eq!(classify_storm_type(25, 141), StormType::MultiCell);
    assert_eq!(classify_storm_type(25, 142), StormType::SingleCell);
    // a perfect circle (cross_sq equal to major_sq squared) is single-cell
    assert_eq!(classify_storm_type(25, 625), StormType::SingleCell);
}
