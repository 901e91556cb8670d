//! Storm-cell records and their assembly from a classified pixel set.
//!
//! Assembly partitions the pixels into connected components, discards
//! components at or below the size floor or below the intensity floor,
//! computes each surviving cell's intensity-weighted centroid, squared
//! distance from the radar origin, maximal reflectivity and shape class, and
//! ranks the cells by ascending distance, assigning dense identifiers
//! starting at 1. Distances are kept squared (in pixel units), which orders
//! cells exactly as the scaled physical distance does.

use vstd::prelude::*;
use vstd::multiset::Multiset;
use vstd::arithmetic::div_mod::{lemma_div_is_ordered, lemma_fundamental_div_mod_converse};
use crate::pixel::{Pixel, all_pixels_valid, COORD_BOUND};
use crate::shape::{
    Point, StormType, valid_point, sq_dist, spec_major_fit, spec_max_cross_sq, spec_classify,
    longest_distance_from_center, farthest_sq_offset_from_axis, classify_storm_type,
};
use crate::cluster::{find_clusters, views_of, is_partition, clusters_closed, clusters_chained};

verus! {

broadcast use vstd::seq_lib::group_to_multiset_ensures;

/// A cluster must have strictly more members than this to survive.
pub const MIN_SIZE: usize = 40;

/// A cluster must reach this maximal reflectivity tier to survive; the same
/// floor gates which pixels contribute to the centroid.
pub const MIN_INTENSITY: u32 = 45;

/// Radar origin in image coordinates.
pub const RADAR_CENTER_X: i32 = 300;

pub const RADAR_CENTER_Y: i32 = 300;

/// The radar origin point.
pub fn default_radar_center() -> (p: Point)
    ensures
        p.x == RADAR_CENTER_X,
        p.y == RADAR_CENTER_Y,
{
    Point { x: RADAR_CENTER_X, y: RADAR_CENTER_Y }
}

/// One storm cell: its rank (1-based, by ascending distance), the
/// intensity-weighted centroid, the squared pixel distance from the radar
/// origin, the morphology class, the highest reflectivity tier among the
/// members, and the member pixels themselves.
#[derive(Debug)]
pub struct Storm {
    pub storm_id: u32,
    pub intensity_center: Point,
    pub distance_sq: u64,
    pub storm_type: StormType,
    pub max_intensity: u32,
    pub pixels: Vec<Pixel>,
}

/// A pixel whose intensity reaches the floor contributes to the centroid.
pub open spec fn qualifying(p: Pixel, min_intensity: u32) -> bool {
    p.intensity >= min_intensity
}

/// Sum of the qualifying pixels' intensities.
pub open spec fn weight_sum(c: Seq<Pixel>, min_intensity: u32) -> int
    decreases c.len(),
{
    if c.len() == 0 {
        0int
    } else {
        weight_sum(c.drop_last(), min_intensity) + if qualifying(c.last(), min_intensity) {
            c.last().intensity as int
        } else {
            0int
        }
    }
}

/// Sum of `intensity * x` over the qualifying pixels.
pub open spec fn weighted_x_sum(c: Seq<Pixel>, min_intensity: u32) -> int
    decreases c.len(),
{
    if c.len() == 0 {
        0int
    } else {
        weighted_x_sum(c.drop_last(), min_intensity) + if qualifying(c.last(), min_intensity) {
            c.last().intensity as int * c.last().x as int
        } else {
            0int
        }
    }
}

/// Sum of `intensity * y` over the qualifying pixels.
pub open spec fn weighted_y_sum(c: Seq<Pixel>, min_intensity: u32) -> int
    decreases c.len(),
{
    if c.len() == 0 {
        0int
    } else {
        weighted_y_sum(c.drop_last(), min_intensity) + if qualifying(c.last(), min_intensity) {
            c.last().intensity as int * c.last().y as int
        } else {
            0int
        }
    }
}

/// Division rounded to the nearest integer, halves away from zero.
pub open spec fn round_div(a: int, b: int) -> int
    recommends
        b >= 1,
{
    if a >= 0 {
        (2 * a + b) / (2 * b)
    } else {
        -((2 * (-a) + b) / (2 * b))
    }
}

/// The intensity-weighted centroid of a cluster, rounded to the nearest
/// pixel; when no pixel qualifies (zero weight) it defaults to the origin.
pub open spec fn spec_centroid(c: Seq<Pixel>, min_intensity: u32) -> (int, int) {
    let sw = weight_sum(c, min_intensity);
    if sw == 0 {
        (0, 0)
    } else {
        (round_div(weighted_x_sum(c, min_intensity), sw), round_div(
            weighted_y_sum(c, min_intensity),
            sw,
        ))
    }
}

/// Highest reflectivity tier among the members (0 for an empty cluster).
pub open spec fn spec_max_intensity(c: Seq<Pixel>) -> u32
    decreases c.len(),
{
    if c.len() == 0 {
        0u32
    } else {
        let m = spec_max_intensity(c.drop_last());
        if c.last().intensity > m {
            c.last().intensity
        } else {
            m
        }
    }
}

/// The acceptance filter: strictly more members than the size floor, and a
/// maximal reflectivity at or above the intensity floor.
pub open spec fn cluster_passes(c: Seq<Pixel>, min_size: usize, min_intensity: u32) -> bool {
    c.len() > min_size && spec_max_intensity(c) >= min_intensity
}

/// Squared pixel distance between a cluster's centroid and the radar origin.
pub open spec fn spec_distance_sq(c: Seq<Pixel>, min_intensity: u32, radar_center: Point) -> int {
    let (cx, cy) = spec_centroid(c, min_intensity);
    sq_dist(cx, cy, radar_center.x as int, radar_center.y as int)
}

/// The morphology of a cluster: the major axis runs from the centroid to the
/// farthest strong pixel, the minor deviation is the largest cross product
/// against that axis, and the exact threshold test classifies the pair.
pub open spec fn spec_storm_type(c: Seq<Pixel>, min_intensity: u32) -> StormType {
    let (cx, cy) = spec_centroid(c, min_intensity);
    let fit = spec_major_fit(c, cx, cy);
    let cross = spec_max_cross_sq(c, cx, cy, fit.1, fit.2);
    spec_classify(fit.0, cross)
}

/// Every derived field of the storm is the specified function of its own
/// member pixels.
pub open spec fn storm_well_formed(
    s: Storm,
    min_size: usize,
    min_intensity: u32,
    radar_center: Point,
) -> bool {
    &&& s.pixels@.len() > min_size
    &&& s.max_intensity == spec_max_intensity(s.pixels@)
    &&& s.max_intensity >= min_intensity
    &&& (s.intensity_center.x as int, s.intensity_center.y as int) == spec_centroid(
        s.pixels@,
        min_intensity,
    )
    &&& s.distance_sq as int == spec_distance_sq(s.pixels@, min_intensity, radar_center)
    &&& s.storm_type == spec_storm_type(s.pixels@, min_intensity)
    &&& all_pixels_valid(s.pixels@)
    &&& valid_point(s.intensity_center)
}

/// The multiset of member-pixel sequences over a list of storms.
pub open spec fn storms_pixels_mset(ss: Seq<Storm>) -> Multiset<Seq<Pixel>>
    decreases ss.len(),
{
    if ss.len() == 0 {
        Multiset::empty()
    } else {
        storms_pixels_mset(ss.drop_last()).insert(ss.last().pixels@)
    }
}

/// The multiset of clusters that pass the acceptance filter.
pub open spec fn passing_mset(cs: Seq<Seq<Pixel>>, min_size: usize, min_intensity: u32) -> Multiset<
    Seq<Pixel>,
>
    decreases cs.len(),
{
    if cs.len() == 0 {
        Multiset::empty()
    } else {
        let rest = passing_mset(cs.drop_last(), min_size, min_intensity);
        if cluster_passes(cs.last(), min_size, min_intensity) {
            rest.insert(cs.last())
        } else {
            rest
        }
    }
}

/// Highest reflectivity tier among the pixels; 0 when there are none.
pub fn acquire_maximum_reflectivity(pixels: &Vec<Pixel>) -> (m: u32)
    ensures
        m == spec_max_intensity(pixels@),
{
    let mut m: u32 = 0;
    let mut i: usize = 0;
    while i < pixels.len()
        invariant
            i <= pixels@.len(),
            m == spec_max_intensity(pixels@.take(i as int)),
        decreases pixels@.len() - i,
    {
        proof {
            assert(pixels@.take(i + 1).drop_last() =~= pixels@.take(i as int));
            assert(pixels@.take(i + 1).last() == pixels@[i as int]);
        }
        if pixels[i].intensity > m {
            m = pixels[i].intensity;
        }
        i += 1;
    }
    proof {
        assert(pixels@.take(pixels@.len() as int) =~= pixels@);
    }
    m
}

/// Rounded division on machine integers.
fn round_div_i128(a: i128, b: i128) -> (q: i128)
    requires
        1 <= b <= 0x1000000000000000000000000000000,
        -0x1000000000000000000000000000000 <= a <= 0x1000000000000000000000000000000,
    ensures
        q == round_div(a as int, b as int),
{
    if a >= 0 {
        let num = (2 * a + b) as u128;
        let den = (2 * b) as u128;
        let q = num / den;
        proof {
            lemma_div_is_ordered(0, num as int, den as int);
        }
        q as i128
    } else {
        let num = (2 * (-a) + b) as u128;
        let den = (2 * b) as u128;
        let q = num / den;
        proof {
            lemma_div_is_ordered(0, num as int, den as int);
        }
        -(q as i128)
    }
}

/// `round_div` lands between any bounds that bracket the exact quotient.
proof fn lemma_round_div_in_bounds(a: int, b: int, lo: int, hi: int)
    requires
        b >= 1,
        lo * b <= a,
        a <= hi * b,
    ensures
        lo <= round_div(a, b) <= hi,
{
    if a >= 0 {
        let x = 2 * a + b;
        assert(2 * (lo * b) == (2 * b) * lo) by (nonlinear_arith);
        assert(2 * (hi * b) == (2 * b) * hi) by (nonlinear_arith);
        assert(x >= (2 * b) * lo);
        lemma_div_is_ordered((2 * b) * lo, x, 2 * b);
        lemma_fundamental_div_mod_converse((2 * b) * lo, 2 * b, lo, 0);
        assert(((2 * b) * lo) / (2 * b) == lo);
        assert(x <= (2 * b) * hi + b);
        lemma_div_is_ordered(x, (2 * b) * hi + b, 2 * b);
        lemma_fundamental_div_mod_converse((2 * b) * hi + b, 2 * b, hi, b);
        assert(((2 * b) * hi + b) / (2 * b) == hi);
    } else {
        let x = 2 * (-a) + b;
        // -a is bracketed by (-hi, -lo)
        assert(2 * (hi * b) == (2 * b) * hi) by (nonlinear_arith);
        assert(2 * (lo * b) == (2 * b) * lo) by (nonlinear_arith);
        assert((2 * b) * (-hi) == -((2 * b) * hi)) by (nonlinear_arith);
        assert((2 * b) * (-lo) == -((2 * b) * lo)) by (nonlinear_arith);
        assert(x >= (2 * b) * (-hi));
        lemma_div_is_ordered((2 * b) * (-hi), x, 2 * b);
        lemma_fundamental_div_mod_converse((2 * b) * (-hi), 2 * b, -hi, 0);
        assert(x <= (2 * b) * (-lo) + b);
        lemma_div_is_ordered(x, (2 * b) * (-lo) + b, 2 * b);
        lemma_fundamental_div_mod_converse((2 * b) * (-lo) + b, 2 * b, -lo, b);
    }
}

/// The weighted sums are bracketed by any box around the qualifying pixels.
proof fn lemma_weighted_sums_bounded(
    c: Seq<Pixel>,
    min_intensity: u32,
    lo_x: int,
    hi_x: int,
    lo_y: int,
    hi_y: int,
)
    requires
        forall|i: int|
            0 <= i < c.len() && qualifying(#[trigger] c[i], min_intensity) ==> lo_x <= c[i].x
                <= hi_x && lo_y <= c[i].y <= hi_y,
    ensures
        weight_sum(c, min_intensity) >= 0,
        lo_x * weight_sum(c, min_intensity) <= weighted_x_sum(c, min_intensity) <= hi_x
            * weight_sum(c, min_intensity),
        lo_y * weight_sum(c, min_intensity) <= weighted_y_sum(c, min_intensity) <= hi_y
            * weight_sum(c, min_intensity),
    decreases c.len(),
{
    if c.len() == 0 {
        assert(lo_x * 0 == 0) by (nonlinear_arith);
        assert(hi_x * 0 == 0) by (nonlinear_arith);
        assert(lo_y * 0 == 0) by (nonlinear_arith);
        assert(hi_y * 0 == 0) by (nonlinear_arith);
    } else {
        let d = c.drop_last();
        assert(forall|i: int|
            0 <= i < d.len() && qualifying(#[trigger] d[i], min_intensity) ==> lo_x <= d[i].x
                <= hi_x && lo_y <= d[i].y <= hi_y);
        lemma_weighted_sums_bounded(d, min_intensity, lo_x, hi_x, lo_y, hi_y);
        let p = c.last();
        if qualifying(p, min_intensity) {
            assert(c[c.len() - 1] == p);
            let w = p.intensity as int;
            let ws = weight_sum(d, min_intensity);
            assert(lo_x * (ws + w) == lo_x * ws + lo_x * w) by (nonlinear_arith);
            assert(hi_x * (ws + w) == hi_x * ws + hi_x * w) by (nonlinear_arith);
            assert(lo_y * (ws + w) == lo_y * ws + lo_y * w) by (nonlinear_arith);
            assert(hi_y * (ws + w) == hi_y * ws + hi_y * w) by (nonlinear_arith);
            assert(lo_x * w <= w * p.x as int && w * p.x as int <= hi_x * w) by (nonlinear_arith)
                requires
                    w >= 0,
                    lo_x <= p.x as int <= hi_x,
            ;
            assert(lo_y * w <= w * p.y as int && w * p.y as int <= hi_y * w) by (nonlinear_arith)
                requires
                    w >= 0,
                    lo_y <= p.y as int <= hi_y,
            ;
        } else {
            assert(weight_sum(c, min_intensity) == weight_sum(d, min_intensity));
        }
    }
}

/// Law: the centroid lies within any box that contains all the qualifying
/// pixels — in particular within their bounding box. (With zero total
/// weight, possible only when no pixel qualifies, the centroid is the
/// defined fallback `(0, 0)` instead.)
pub proof fn lemma_centroid_in_box(
    c: Seq<Pixel>,
    min_intensity: u32,
    lo_x: int,
    hi_x: int,
    lo_y: int,
    hi_y: int,
)
    requires
        weight_sum(c, min_intensity) > 0,
        forall|i: int|
            0 <= i < c.len() && qualifying(#[trigger] c[i], min_intensity) ==> lo_x <= c[i].x
                <= hi_x && lo_y <= c[i].y <= hi_y,
    ensures
        lo_x <= spec_centroid(c, min_intensity).0 <= hi_x,
        lo_y <= spec_centroid(c, min_intensity).1 <= hi_y,
{
    lemma_weighted_sums_bounded(c, min_intensity, lo_x, hi_x, lo_y, hi_y);
    let sw = weight_sum(c, min_intensity);
    lemma_round_div_in_bounds(weighted_x_sum(c, min_intensity), sw, lo_x, hi_x);
    lemma_round_div_in_bounds(weighted_y_sum(c, min_intensity), sw, lo_y, hi_y);
}

/// The intensity-weighted centroid of a cluster: only pixels at or above the
/// intensity floor contribute, each weighted by its own intensity; the mean
/// is rounded to the nearest pixel, halves away from zero; with no
/// qualifying pixel the centroid defaults to `(0, 0)`. The result always
/// lies within the bounding box of the qualifying pixels.
pub fn calculate_intensity_center(pixels: &Vec<Pixel>, min_intensity: u32) -> (center: Point)
    requires
        all_pixels_valid(pixels@),
    ensures
        (center.x as int, center.y as int) == spec_centroid(pixels@, min_intensity),
        valid_point(center),
{
    let ghost mi = min_intensity;
    let mut sw: i128 = 0;
    let mut sx: i128 = 0;
    let mut sy: i128 = 0;
    let mut i: usize = 0;
    let n = pixels.len();
    while i < n
        invariant
            i <= n,
            n == pixels@.len(),
            all_pixels_valid(pixels@),
            mi == min_intensity,
            sw as int == weight_sum(pixels@.take(i as int), mi),
            sx as int == weighted_x_sum(pixels@.take(i as int), mi),
            sy as int == weighted_y_sum(pixels@.take(i as int), mi),
            0 <= sw as int <= i as int * 0x100000000,
            -(sw as int) * COORD_BOUND as int <= sx as int <= sw as int * COORD_BOUND as int,
            -(sw as int) * COORD_BOUND as int <= sy as int <= sw as int * COORD_BOUND as int,
        decreases n - i,
    {
        proof {
            assert(pixels@.take(i + 1).drop_last() =~= pixels@.take(i as int));
            assert(pixels@.take(i + 1).last() == pixels@[i as int]);
            assert(crate::pixel::valid_pixel(pixels@[i as int]));
        }
        let p = pixels[i];
        if p.intensity >= min_intensity {
            let w = p.intensity as i128;
            proof {
                let swi = sw as int;
                let b = COORD_BOUND as int;
                assert(w * (p.x as int) <= w * b && -(w * b) <= w * (p.x as int))
                    by (nonlinear_arith)
                    requires
                        0 <= w <= 0x100000000,
                        -b <= p.x as int <= b,
                        b > 0,
                ;
                assert(w * (p.y as int) <= w * b && -(w * b) <= w * (p.y as int))
                    by (nonlinear_arith)
                    requires
                        0 <= w <= 0x100000000,
                        -b <= p.y as int <= b,
                        b > 0,
                ;
                assert((swi + w) * b == swi * b + w * b) by (nonlinear_arith);
                assert(-((swi + w) * b) == -(swi * b) + -(w * b)) by (nonlinear_arith);
                assert((i as int + 1) * 0x100000000 == i as int * 0x100000000 + 0x100000000)
                    by (nonlinear_arith);
            }
            sw = sw + w;
            sx = sx + w * (p.x as i128);
            sy = sy + w * (p.y as i128);
        }
        i += 1;
    }
    proof {
        assert(pixels@.take(n as int) =~= pixels@);
    }
    if sw == 0 {
        Point { x: 0, y: 0 }
    } else {
        proof {
            lemma_centroid_in_box(
                pixels@,
                mi,
                -(COORD_BOUND as int),
                COORD_BOUND as int,
                -(COORD_BOUND as int),
                COORD_BOUND as int,
            );
            let b = COORD_BOUND as int;
            assert(sw as int * b < 0x1000000000000000000000000000000) by (nonlinear_arith)
                requires
                    0 <= sw as int <= 0x10000000000000000 * 0x100000000,
                    b == 1000000,
            ;
        }
        let cx = round_div_i128(sx, sw);
        let cy = round_div_i128(sy, sw);
        proof {
            assert(spec_centroid(pixels@, mi).0 == cx as int);
            assert(spec_centroid(pixels@, mi).1 == cy as int);
        }
        Point { x: cx as i32, y: cy as i32 }
    }
}

/// Squared pixel distance between the storm centroid and the radar origin.
pub fn calculate_center_distance_sq(storm_center: Point, radar_center: Point) -> (d: u64)
    requires
        valid_point(storm_center),
        valid_point(radar_center),
    ensures
        d as int == sq_dist(
            storm_center.x as int,
            storm_center.y as int,
            radar_center.x as int,
            radar_center.y as int,
        ),
{
    let dx = storm_center.x as i64 - radar_center.x as i64;
    let dy = storm_center.y as i64 - radar_center.y as i64;
    proof {
        assert(dx * dx <= 4000000000000 && dx * dx >= 0) by (nonlinear_arith)
            requires
                -2000000 <= dx <= 2000000,
        ;
        assert(dy * dy <= 4000000000000 && dy * dy >= 0) by (nonlinear_arith)
            requires
                -2000000 <= dy <= 2000000,
        ;
    }
    (dx * dx + dy * dy) as u64
}

proof fn lemma_storms_mset_contains(ss: Seq<Storm>, i: int)
    requires
        0 <= i < ss.len(),
    ensures
        storms_pixels_mset(ss).count(ss[i].pixels@) >= 1,
    decreases ss.len(),
{
    broadcast use vstd::multiset::group_multiset_axioms;

    if i == ss.len() - 1 {
        assert(storms_pixels_mset(ss) == storms_pixels_mset(ss.drop_last()).insert(
            ss.last().pixels@,
        ));
    } else {
        lemma_storms_mset_contains(ss.drop_last(), i);
        assert(ss.drop_last()[i] == ss[i]);
    }
}

proof fn lemma_storms_mset_remove(ss: Seq<Storm>, i: int)
    requires
        0 <= i < ss.len(),
    ensures
        storms_pixels_mset(ss.remove(i)) == storms_pixels_mset(ss).remove(ss[i].pixels@),
    decreases ss.len(),
{
    broadcast use vstd::multiset::group_multiset_axioms;

    if i == ss.len() - 1 {
        assert(ss.remove(i) =~= ss.drop_last());
        assert(storms_pixels_mset(ss.drop_last()) =~= storms_pixels_mset(ss.drop_last()).insert(
            ss.last().pixels@,
        ).remove(ss.last().pixels@));
    } else {
        let r = ss.remove(i);
        assert(r.drop_last() =~= ss.drop_last().remove(i));
        assert(r.last() == ss.last());
        lemma_storms_mset_remove(ss.drop_last(), i);
        lemma_storms_mset_contains(ss.drop_last(), i);
        assert(ss.drop_last()[i] == ss[i]);
        assert(storms_pixels_mset(r) == storms_pixels_mset(ss.drop_last()).remove(
            ss[i].pixels@,
        ).insert(ss.last().pixels@));
        assert(storms_pixels_mset(ss.drop_last()).remove(ss[i].pixels@).insert(ss.last().pixels@)
            =~= storms_pixels_mset(ss.drop_last()).insert(ss.last().pixels@).remove(ss[i].pixels@));
    }
}

/// Assemble storm cells from a classified pixel set, with explicit size and
/// intensity floors.
///
/// The pixels are partitioned into maximal connected components; components
/// with more than `min_size` members and a maximal reflectivity at or above
/// `min_intensity` become cells — the output's member lists are exactly the
/// multiset of passing components of an adjacency-closed partition of the
/// input — and the cells are ranked by ascending distance from
/// `radar_center`, with dense identifiers `1..=N` in rank order, so the
/// identifier strictly increases with the distance rank.
pub fn merge_pixels_with(
    pixel_list: &Vec<Pixel>,
    radar_center: Point,
    min_size: usize,
    min_intensity: u32,
) -> (storms: Vec<Storm>)
    requires
        all_pixels_valid(pixel_list@),
        valid_point(radar_center),
        pixel_list@.len() < 0x100000000,
    ensures
        forall|t: int|
            0 <= t < storms@.len() ==> storm_well_formed(
                #[trigger] storms@[t],
                min_size,
                min_intensity,
                radar_center,
            ),
        forall|t: int| 0 <= t < storms@.len() ==> (#[trigger] storms@[t]).storm_id as int == t + 1,
        forall|a: int, b: int|
            0 <= a < b < storms@.len() ==> storms@[a].distance_sq <= storms@[b].distance_sq
                && storms@[a].storm_id < storms@[b].storm_id,
        exists|cs: Seq<Seq<Pixel>>|
            #![trigger is_partition(cs, pixel_list@)]
            is_partition(cs, pixel_list@) && clusters_closed(cs, pixel_list@)
                && clusters_chained(cs) && storms_pixels_mset(storms@) == passing_mset(
                cs,
                min_size,
                min_intensity,
            ),
{
    let ghost input = pixel_list@;
    let mut clusters = find_clusters(pixel_list);
    let ghost cs0 = views_of(clusters@);
    let total = clusters.len();
    let mut unsorted: Vec<Storm> = Vec::new();
    let mut k: usize = 0;
    proof {
        assert(cs0.take(0) =~= Seq::<Seq<Pixel>>::empty());
        assert(cs0.skip(0) =~= cs0);
    }
    while k < total
        invariant
            input == pixel_list@,
            all_pixels_valid(input),
            valid_point(radar_center),
            k + clusters@.len() == total,
            total == cs0.len(),
            total <= input.len() < 0x100000000,
            k <= total,
            views_of(clusters@) =~= cs0.skip(k as int),
            forall|kk: int| 0 <= kk < cs0.len() ==> all_pixels_valid(#[trigger] cs0[kk]),
            storms_pixels_mset(unsorted@) == passing_mset(
                cs0.take(k as int),
                min_size,
                min_intensity,
            ),
            forall|t: int|
                0 <= t < unsorted@.len() ==> storm_well_formed(
                    #[trigger] unsorted@[t],
                    min_size,
                    min_intensity,
                    radar_center,
                ),
            unsorted@.len() <= k,
        decreases total - k,
    {
        let ghost pre = clusters@;
        let c = clusters.remove(0);
        proof {
            assert(views_of(pre)[0] == c@);
            assert(c@ == cs0[k as int]);
            assert(views_of(clusters@) =~= views_of(pre).remove(0));
            assert(views_of(pre).remove(0) =~= cs0.skip(k as int).remove(0));
            assert(cs0.skip(k as int).remove(0) =~= cs0.skip(k as int + 1));
            assert(cs0.take(k as int + 1).drop_last() =~= cs0.take(k as int));
            assert(cs0.take(k as int + 1).last() == cs0[k as int]);
            assert(all_pixels_valid(c@));
        }
        let max_ref = acquire_maximum_reflectivity(&c);
        if c.len() > min_size && max_ref >= min_intensity {
            let center = calculate_intensity_center(&c, min_intensity);
            let d = calculate_center_distance_sq(center, radar_center);
            let fit = longest_distance_from_center(&c, center);
            let cross = farthest_sq_offset_from_axis(&c, center, fit.1);
            let st = classify_storm_type(fit.0, cross);
            let storm = Storm {
                storm_id: 0,
                intensity_center: center,
                distance_sq: d,
                storm_type: st,
                max_intensity: max_ref,
                pixels: c,
            };
            let ghost pre_unsorted = unsorted@;
            unsorted.push(storm);
            proof {
                assert(unsorted@.drop_last() =~= pre_unsorted);
                assert(storm_well_formed(storm, min_size, min_intensity, radar_center));
                assert(cluster_passes(cs0[k as int], min_size, min_intensity));
                assert(storms_pixels_mset(unsorted@) == storms_pixels_mset(pre_unsorted).insert(
                    storm.pixels@,
                ));
            }
        } else {
            proof {
                assert(!cluster_passes(cs0[k as int], min_size, min_intensity));
            }
        }
        k += 1;
    }
    proof {
        assert(cs0.take(total as int) =~= cs0);
    }
    let ghost whole = storms_pixels_mset(unsorted@);
    let n0 = unsorted.len();
    // selection sort by ascending squared distance, always extracting the
    // first minimum so that equal distances keep their discovery order
    let mut sorted: Vec<Storm> = Vec::new();
    while unsorted.len() > 0
        invariant
            sorted@.len() + unsorted@.len() == n0,
            n0 <= total,
            storms_pixels_mset(sorted@).add(storms_pixels_mset(unsorted@)) == whole,
            forall|t: int|
                0 <= t < sorted@.len() ==> storm_well_formed(
                    #[trigger] sorted@[t],
                    min_size,
                    min_intensity,
                    radar_center,
                ),
            forall|t: int|
                0 <= t < unsorted@.len() ==> storm_well_formed(
                    #[trigger] unsorted@[t],
                    min_size,
                    min_intensity,
                    radar_center,
                ),
            forall|a: int, b: int|
                0 <= a < b < sorted@.len() ==> sorted@[a].distance_sq <= sorted@[b].distance_sq,
            forall|a: int, b: int|
                0 <= a < sorted@.len() && 0 <= b < unsorted@.len() ==> (#[trigger] sorted@[a]).distance_sq
                    <= (#[trigger] unsorted@[b]).distance_sq,
        decreases unsorted@.len(),
    {
        let mut min_idx: usize = 0;
        let mut min_d: u64 = unsorted[0].distance_sq;
        let mut t: usize = 1;
        while t < unsorted.len()
            invariant
                unsorted@.len() > 0,
                min_idx < t <= unsorted@.len() || (min_idx == 0 && t <= unsorted@.len()),
                min_idx < unsorted@.len(),
                min_d == unsorted@[min_idx as int].distance_sq,
                forall|t2: int| 0 <= t2 < t ==> min_d <= (#[trigger] unsorted@[t2]).distance_sq,
            decreases unsorted@.len() - t,
        {
            if unsorted[t].distance_sq < min_d {
                min_d = unsorted[t].distance_sq;
                min_idx = t;
            }
            t += 1;
        }
        let ghost pre = unsorted@;
        let ghost pre_sorted = sorted@;
        let s = unsorted.remove(min_idx);
        sorted.push(s);
        proof {
            lemma_storms_mset_remove(pre, min_idx as int);
            broadcast use vstd::multiset::group_multiset_axioms;

            lemma_storms_mset_contains(pre, min_idx as int);
            assert(sorted@.drop_last() =~= pre_sorted);
            assert(storms_pixels_mset(sorted@) == storms_pixels_mset(pre_sorted).insert(s.pixels@));
            assert(storms_pixels_mset(sorted@).add(storms_pixels_mset(unsorted@)) =~= whole);
            assert forall|t2: int|
                0 <= t2 < unsorted@.len() implies storm_well_formed(
                #[trigger] unsorted@[t2],
                min_size,
                min_intensity,
                radar_center,
            ) && s.distance_sq <= unsorted@[t2].distance_sq by {
                if t2 < min_idx {
                    assert(unsorted@[t2] == pre[t2]);
                } else {
                    assert(unsorted@[t2] == pre[t2 + 1]);
                }
            }
        }
    }
    // dense rank identifiers in sorted order
    let mut result: Vec<Storm> = Vec::new();
    let ghost sorted_final = sorted@;
    while sorted.len() > 0
        invariant
            result@.len() + sorted@.len() == sorted_final.len(),
            sorted_final.len() <= total <= input.len() < 0x100000000,
            sorted@ =~= sorted_final.skip(result@.len() as int),
            storms_pixels_mset(result@).add(storms_pixels_mset(sorted@)) == storms_pixels_mset(
                sorted_final,
            ),
            forall|t: int|
                0 <= t < result@.len() ==> storm_well_formed(
                    #[trigger] result@[t],
                    min_size,
                    min_intensity,
                    radar_center,
                ),
            forall|t: int|
                0 <= t < result@.len() ==> (#[trigger] result@[t]).storm_id as int == t + 1,
            forall|t: int|
                0 <= t < result@.len() ==> (#[trigger] result@[t]).distance_sq
                    == sorted_final[t].distance_sq,
            forall|t: int|
                0 <= t < sorted_final.len() ==> storm_well_formed(
                    #[trigger] sorted_final[t],
                    min_size,
                    min_intensity,
                    radar_center,
                ),
            forall|a: int, b: int|
                0 <= a < b < sorted_final.len() ==> sorted_final[a].distance_sq
                    <= sorted_final[b].distance_sq,
        decreases sorted@.len(),
    {
        let ghost pre = sorted@;
        let ghost pre_result = result@;
        let mut s = sorted.remove(0);
        proof {
            assert(pre[0] == sorted_final[pre_result.len() as int]);
            lemma_storms_mset_remove(pre, 0);
            broadcast use vstd::multiset::group_multiset_axioms;

            lemma_storms_mset_contains(pre, 0);
        }
        let id = result.len() + 1;
        s.storm_id = id as u32;
        result.push(s);
        proof {
            assert(result@.drop_last() =~= pre_result);
            assert(result@.last().pixels@ == pre[0].pixels@);
            assert(storms_pixels_mset(result@) == storms_pixels_mset(pre_result).insert(
                pre[0].pixels@,
            ));
            assert(storms_pixels_mset(result@).add(storms_pixels_mset(sorted@))
                =~= storms_pixels_mset(sorted_final));
            assert(sorted@ =~= sorted_final.skip(result@.len() as int));
        }
    }
    proof {
        assert(storms_pixels_mset(sorted@) =~= Multiset::<Seq<Pixel>>::empty());
        broadcast use vstd::multiset::group_multiset_axioms;

        assert(storms_pixels_mset(result@) =~= storms_pixels_mset(sorted_final));
        assert(storms_pixels_mset(result@) == passing_mset(cs0, min_size, min_intensity));
        assert(is_partition(cs0, pixel_list@) && clusters_closed(cs0, pixel_list@)
            && clusters_chained(cs0) && storms_pixels_mset(result@) == passing_mset(
            cs0,
            min_size,
            min_intensity,
        ));
        assert forall|a: int, b: int|
            0 <= a < b < result@.len() implies result@[a].distance_sq <= result@[b].distance_sq
            && result@[a].storm_id < result@[b].storm_id by {
            assert(result@[a].distance_sq == sorted_final[a].distance_sq);
            assert(result@[b].distance_sq == sorted_final[b].distance_sq);
        }
    }
    result
}

/// Assemble storm cells with the standard floors: a component survives only
/// with strictly more than `MIN_SIZE` members and a maximal reflectivity of
/// at least `MIN_INTENSITY`.
pub fn merge_pixels(pixel_list: &Vec<Pixel>, radar_center: Point) -> (storms: Vec<Storm>)
    requires
        all_pixels_valid(pixel_list@),
        valid_point(radar_center),
        pixel_list@.len() < 0x100000000,
    ensures
        forall|t: int|
            0 <= t < storms@.len() ==> storm_well_formed(
                #[trigger] storms@[t],
                MIN_SIZE,
                MIN_INTENSITY,
                radar_center,
            ),
        forall|t: int| 0 <= t < storms@.len() ==> (#[trigger] storms@[t]).storm_id as int == t + 1,
        forall|a: int, b: int|
            0 <= a < b < storms@.len() ==> storms@[a].distance_sq <= storms@[b].distance_sq
                && storms@[a].storm_id < storms@[b].storm_id,
        exists|cs: Seq<Seq<Pixel>>|
            #![trigger is_partition(cs, pixel_list@)]
            is_partition(cs, pixel_list@) && clusters_closed(cs, pixel_list@)
                && clusters_chained(cs) && storms_pixels_mset(storms@) == passing_mset(
                cs,
                MIN_SIZE,
                MIN_INTENSITY,
            ),
{
    merge_pixels_with(pixel_list, radar_center, MIN_SIZE, MIN_INTENSITY)
}

} // verus!
