use storm_radar::cluster::find_clusters;
use storm_radar::pixel::{Color, Pixel};
use storm_radar::shape::{Point, StormType};
use storm_radar::storm::{
    acquire_maximum_reflectivity, default_radar_center, merge_pixels, merge_pixels_with,
};

fn px(x: i32, y: i32, intensity: u32) -> Pixel {
    Pixel { x, y, color: Color { r: 0, g: 0, b: 0, a: 255 }, intensity }
}

#[test]
fn maximum_reflectivity_of_empty_and_mixed() {
    assert_eq!(acquire_maximum_reflectivity(&Vec::new()), 0);
    let pixels = vec![px(0, 0, 15), px(1, 1, 70), px(2, 2, 45)];
    assert_eq!(acquire_maximum_reflectivity(&pixels), 70);
}

#[test]
fn clusters_partition_the_input() {
    let pixels = vec![
        px(0, 0, 50),
        px(2, 2, 50),   // adjacent to (0,0): same component
        px(10, 10, 50), // far away: its own component
        px(4, 2, 50),   // adjacent to (2,2): joins the first
    ];
    let clusters = find_clusters(&pixels);
    assert_eq!(clusters.len(), 2);
    let total: usize = clusters.iter().map(|c| c.len()).sum();
    assert_eq!(total, pixels.len());
    // every input pixel appears in exactly one cluster
    for p in &pixels {
        let hits: usize = clusters
            .iter()
            .map(|c| c.iter().filter(|q| *q == p).count())
            .sum();
        assert_eq!(hits, 1);
    }
    assert_eq!(clusters[0].len(), 3);
    assert_eq!(clusters[1].len(), 1);
}

#[test]
fn clusters_bridge_gaps_up_to_the_threshold() {
    // consecutive offsets of 2 are still adjacent; 3 is not
    let pixels = vec![px(0, 0, 50), px(0, 2, 50), px(0, 4, 50), px(0, 7, 50)];
    let clusters = find_clusters(&pixels);
    assert_eq!(clusters.len(), 2);
    assert_eq!(clusters[0].len(), 3);
    assert_eq!(clusters[1].len(), 1);
}

#[test]
fn empty_input_yields_no_storms() {
    let storms = merge_pixels(&Vec::new(), default_radar_center());
    assert_eq!(storms.len(), 0);
}

#[test]
fn four_pixel_block_survives_and_the_isolated_pixel_is_discarded() {
    // the block at (10..11, 10..11) forms one component of size 4 > 3; the
    // isolated pixel's component has size 1 and is discarded
    let pixels = vec![
        px(10, 10, 50),
        px(10, 11, 50),
        px(11, 10, 50),
        px(11, 11, 50),
        px(100, 100, 50),
    ];
    let storms = merge_pixels_with(&pixels, default_radar_center(), 3, 45);
    assert_eq!(storms.len(), 1);
    let storm = &storms[0];
    assert_eq!(storm.storm_id, 1);
    assert_eq!(storm.pixels.len(), 4);
    assert_eq!(storm.max_intensity, 50);
    // equal weights average to 10.5, rounded half away from zero
    assert_eq!(storm.intensity_center, Point { x: 11, y: 11 });
    // four tightly packed pixels have no elongation worth the name
    assert_eq!(storm.storm_type, StormType::SingleCell);
    assert_eq!(storm.distance_sq, 2 * 289 * 289);
}

#[test]
fn size_floor_is_strict() {
    // exactly min_size members: rejected (must strictly exceed)
    let pixels = vec![px(10, 10, 50), px(10, 11, 50), px(11, 10, 50), px(11, 11, 50)];
    let storms = merge_pixels_with(&pixels, default_radar_center(), 4, 45);
    assert_eq!(storms.len(), 0);
    let storms = merge_pixels_with(&pixels, default_radar_center(), 3, 45);
    assert_eq!(storms.len(), 1);
}

#[test]
fn intensity_floor_is_inclusive() {
    // maximal reflectivity exactly at the floor: accepted
    let pixels = vec![px(0, 0, 45), px(0, 1, 30), px(1, 0, 30), px(1, 1, 30)];
    let storms = merge_pixels_with(&pixels, default_radar_center(), 3, 45);
    assert_eq!(storms.len(), 1);
    // one tier below the floor: rejected
    let weak = vec![px(0, 0, 44), px(0, 1, 30), px(1, 0, 30), px(1, 1, 30)];
    let storms = merge_pixels_with(&weak, default_radar_center(), 3, 45);
    assert_eq!(storms.len(), 0);
}

#[test]
fn default_floors_require_41_members_and_tier_45() {
    // a line of 41 pixels, two apart, all tier 50: one storm
    let mut pixels = Vec::new();
    for i in 0..41 {
        pixels.push(px(i, 0, 50));
    }
    let storms = merge_pixels(&pixels, default_radar_center());
    assert_eq!(storms.len(), 1);
    assert_eq!(storms[0].pixels.len(), 41);
    assert_eq!(storms[0].intensity_center, Point { x: 20, y: 0 });
    // perfectly collinear strong pixels: eccentricity 1, single-cell
    assert_eq!(storms[0].storm_type, StormType::SingleCell);
    // with 40 members the same blob is silently dropped
    pixels.pop();
    let storms = merge_pixels(&pixels, default_radar_center());
    assert_eq!(storms.len(), 0);
}

#[test]
fn storms_are_ranked_by_ascending_distance() {
    let mut pixels = Vec::new();
    // a far cluster first in the input, then a near one
    for i in 0..4 {
        pixels.push(px(400 + i, 400, 50));
    }
    for i in 0..4 {
        pixels.push(px(310 + i, 300, 50));
    }
    let storms = merge_pixels_with(&pixels, default_radar_center(), 3, 45);
    assert_eq!(storms.len(), 2);
    assert_eq!(storms[0].storm_id, 1);
    assert_eq!(storms[1].storm_id, 2);
    assert!(storms[0].distance_sq <= storms[1].distance_sq);
    // the near cluster comes out first
    assert_eq!(storms[0].intensity_center.y, 300);
    assert_eq!(storms[1].intensity_center.y, 400);
}

#[test]
fn reassembly_of_the_same_input_is_identical() {
    let mut pixels = Vec::new();
    for i in 0..5 {
        pixels.push(px(100 + i, 100, 50));
        pixels.push(px(200, 200 + i, 55));
    }
    let first = merge_pixels_with(&pixels, default_radar_center(), 3, 45);
    let second = merge_pixels_with(&pixels, default_radar_center(), 3, 45);
    assert_eq!(first.len(), second.len());
    for (a, b) in first.iter().zip(second.iter()) {
        assert_eq!(a.storm_id, b.storm_id);
        assert_eq!(a.intensity_center, b.intensity_center);
        assert_eq!(a.distance_sq, b.distance_sq);
        assert_eq!(a.storm_type, b.storm_type);
        assert_eq!(a.max_intensity, b.max_intensity);
        assert_eq!(a.pixels, b.pixels);
    }
}

#[test]
fn elongated_cluster_with_sidearm_is_multicell() {
    // strong pixels stretched along a line with one small off-axis bump:
    // large major axis, small but nonzero minor deviation
    let mut pixels = Vec::new();
    for i in 0..21 {
        pixels.push(px(i, 0, 50));
    }
    pixels.push(px(10, 1, 50));
    let storms = merge_pixels_with(&pixels, default_radar_center(), 3, 45);
    assert_eq!(storms.len(), 1);
    assert_eq!(storms[0].storm_type, StormType::MultiCell);
}
