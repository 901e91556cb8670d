//! Principal-axis shape fit and morphology classification of a cell.
//!
//! The major axis runs from the centroid to the strong pixel farthest from
//! it; the minor axis is the largest perpendicular deviation of a strong
//! pixel from that axis. Lengths are kept squared and deviations are kept as
//! squared cross products, so the eccentricity threshold test is an exact
//! integer comparison: with `L^2` the squared major half-length and `C` the
//! largest squared cross product against the axis, the squared minor
//! half-length is `C / L^2`, and
//! `ecc = sqrt(1 - minor^2/major^2) >= 0.88` holds iff
//! `minor^2 / major^2 = C / (L^2)^2 <= 1 - 0.88^2 = 2256/10000`, that is,
//! iff `10000 * C <= 2256 * L^2 * L^2`; and `ecc < 1` holds iff `C > 0`.

use vstd::prelude::*;
use crate::pixel::{Pixel, valid_pixel, all_pixels_valid, COORD_BOUND};

verus! {

/// Intensity floor above which a pixel influences the shape fit.
pub const STRONG_INTENSITY: u32 = 45;

/// Strong-pixel count a cluster needs before its fitted ellipse is
/// statistically reliable enough to draw.
pub const MAJOR_PIXEL_THRESHOLD: usize = 50;

/// Largest squared distance between two points with coordinates within
/// `COORD_BOUND`.
pub const MAJOR_SQ_MAX: u64 = 8000000000000;

/// Largest squared cross product of two displacements between such points.
pub const CROSS_SQ_MAX: u128 = 36000000000000000000000000;

/// Numerator of the squared classification threshold: `0.88^2 = 7744/10000`.
pub const TYPE_THRESHOLD_SQ_NUM: u128 = 7744;

/// Denominator of the squared classification threshold.
pub const TYPE_THRESHOLD_SQ_DEN: u128 = 10000;

/// An integer point in image coordinates.
#[derive(Clone, Copy, PartialEq, Eq, Structural, Debug)]
pub struct Point {
    pub x: i32,
    pub y: i32,
}

pub open spec fn valid_point(p: Point) -> bool {
    -COORD_BOUND <= p.x <= COORD_BOUND && -COORD_BOUND <= p.y <= COORD_BOUND
}

/// The cell morphology derived from the fit.
#[derive(Clone, Copy, PartialEq, Eq, Structural, Debug)]
pub enum StormType {
    SingleCell,
    MultiCell,
}

/// A pixel strong enough to influence the shape fit.
pub open spec fn strong(p: Pixel) -> bool {
    p.intensity >= STRONG_INTENSITY
}

/// Squared Euclidean distance between two points.
pub open spec fn sq_dist(px: int, py: int, cx: int, cy: int) -> int {
    (px - cx) * (px - cx) + (py - cy) * (py - cy)
}

/// Left fold of the major-axis search: scan the pixels in order, keeping the
/// first strong pixel that strictly beats the best squared distance so far.
pub open spec fn major_fold(c: Seq<Pixel>, cx: int, cy: int, best_sq: int, bx: int, by: int) -> (
    int,
    int,
    int,
)
    decreases c.len(),
{
    if c.len() == 0 {
        (best_sq, bx, by)
    } else {
        let p = c.first();
        let d = sq_dist(p.x as int, p.y as int, cx, cy);
        if strong(p) && d > best_sq {
            major_fold(c.drop_first(), cx, cy, d, p.x as int, p.y as int)
        } else {
            major_fold(c.drop_first(), cx, cy, best_sq, bx, by)
        }
    }
}

/// The major-axis fit of a cluster: the squared distance from the centroid
/// to the farthest strong pixel, and that pixel's coordinates. With no
/// strong pixel the fit degenerates to length 0 at the origin; ties keep the
/// earliest pixel.
pub open spec fn spec_major_fit(c: Seq<Pixel>, cx: int, cy: int) -> (int, int, int) {
    major_fold(c, cx, cy, 0, 0, 0)
}

/// Find the strong pixel farthest from `center`: returns its squared
/// distance (the squared major half-length) and its coordinates. A cluster
/// without strong pixels yields `(0, (0, 0))`.
pub fn longest_distance_from_center(pixels: &Vec<Pixel>, center: Point) -> (fit: (u64, Point))
    requires
        all_pixels_valid(pixels@),
        valid_point(center),
    ensures
        (fit.0 as int, fit.1.x as int, fit.1.y as int) == spec_major_fit(
            pixels@,
            center.x as int,
            center.y as int,
        ),
        fit.0 <= MAJOR_SQ_MAX,
        valid_point(fit.1),
{
    let ghost cx = center.x as int;
    let ghost cy = center.y as int;
    let mut best_sq: u64 = 0;
    let mut best: Point = Point { x: 0, y: 0 };
    let mut i: usize = 0;
    proof {
        assert(pixels@.skip(0) =~= pixels@);
    }
    while i < pixels.len()
        invariant
            i <= pixels@.len(),
            all_pixels_valid(pixels@),
            valid_point(center),
            cx == center.x as int,
            cy == center.y as int,
            best_sq <= MAJOR_SQ_MAX,
            valid_point(best),
            spec_major_fit(pixels@, cx, cy) == major_fold(
                pixels@.skip(i as int),
                cx,
                cy,
                best_sq as int,
                best.x as int,
                best.y as int,
            ),
        decreases pixels@.len() - i,
    {
        let p = pixels[i];
        let ghost prev_sq = best_sq as int;
        let ghost prev_x = best.x as int;
        let ghost prev_y = best.y as int;
        proof {
            assert(valid_pixel(pixels@[i as int]));
            assert(pixels@.skip(i as int).first() == pixels@[i as int]);
            assert(pixels@.skip(i as int).drop_first() =~= pixels@.skip(i + 1));
        }
        if p.intensity >= STRONG_INTENSITY {
            let dx = p.x as i64 - center.x as i64;
            let dy = p.y as i64 - center.y as i64;
            proof {
                assert(dx * dx <= 4000000000000 && dx * dx >= 0) by (nonlinear_arith)
                    requires
                        -2000000 <= dx <= 2000000,
                ;
                assert(dy * dy <= 4000000000000 && dy * dy >= 0) by (nonlinear_arith)
                    requires
                        -2000000 <= dy <= 2000000,
                ;
            }
            let d = (dx * dx + dy * dy) as u64;
            proof {
                assert(dx as int == p.x as int - cx);
                assert(dy as int == p.y as int - cy);
                assert((dx as int) * (dx as int) == (p.x as int - cx) * (p.x as int - cx));
                assert((dy as int) * (dy as int) == (p.y as int - cy) * (p.y as int - cy));
                assert(d as int == sq_dist(p.x as int, p.y as int, cx, cy));
            }
            if d > best_sq {
                best_sq = d;
                best = Point { x: p.x, y: p.y };
            }
        }
        proof {
            assert(major_fold(pixels@.skip(i as int), cx, cy, prev_sq, prev_x, prev_y)
                == major_fold(
                pixels@.skip(i + 1),
                cx,
                cy,
                best_sq as int,
                best.x as int,
                best.y as int,
            ));
        }
        i += 1;
    }
    proof {
        assert(pixels@.skip(pixels@.len() as int) =~= Seq::<Pixel>::empty());
    }
    (best_sq, best)
}

/// Twice the signed area of the triangle `(start, end, (px, py))`: the cross
/// product used as the unnormalized point-to-line deviation. Its square,
/// divided by the squared length of `end - start`, is the squared
/// perpendicular distance of the point from the line.
pub open spec fn cross_mag(px: int, py: int, x0: int, y0: int, x1: int, y1: int) -> int {
    (y1 - y0) * px - (x1 - x0) * py + x1 * y0 - y1 * x0
}

/// Largest squared cross product of a strong pixel against the axis line.
pub open spec fn spec_max_cross_sq(c: Seq<Pixel>, x0: int, y0: int, x1: int, y1: int) -> int
    decreases c.len(),
{
    if c.len() == 0 {
        0
    } else {
        let m = spec_max_cross_sq(c.drop_last(), x0, y0, x1, y1);
        let p = c.last();
        let cr = cross_mag(p.x as int, p.y as int, x0, y0, x1, y1);
        if strong(p) && cr * cr > m {
            cr * cr
        } else {
            m
        }
    }
}

/// Largest squared unnormalized deviation of a strong pixel from the line
/// through `start` and `end`; dividing it by the squared line length gives
/// the squared minor half-length.
pub fn farthest_sq_offset_from_axis(pixels: &Vec<Pixel>, start: Point, end: Point) -> (cross_sq:
    u128)
    requires
        all_pixels_valid(pixels@),
        valid_point(start),
        valid_point(end),
    ensures
        cross_sq as int == spec_max_cross_sq(
            pixels@,
            start.x as int,
            start.y as int,
            end.x as int,
            end.y as int,
        ),
        cross_sq <= CROSS_SQ_MAX,
{
    let ghost x0 = start.x as int;
    let ghost y0 = start.y as int;
    let ghost x1 = end.x as int;
    let ghost y1 = end.y as int;
    let mut max_sq: u128 = 0;
    let mut i: usize = 0;
    while i < pixels.len()
        invariant
            i <= pixels@.len(),
            all_pixels_valid(pixels@),
            valid_point(start),
            valid_point(end),
            x0 == start.x as int,
            y0 == start.y as int,
            x1 == end.x as int,
            y1 == end.y as int,
            max_sq <= CROSS_SQ_MAX,
            max_sq as int == spec_max_cross_sq(pixels@.take(i as int), x0, y0, x1, y1),
        decreases pixels@.len() - i,
    {
        let p = pixels[i];
        proof {
            assert(valid_pixel(pixels@[i as int]));
            assert(pixels@.take(i + 1).drop_last() =~= pixels@.take(i as int));
            assert(pixels@.take(i + 1).last() == pixels@[i as int]);
        }
        if p.intensity >= STRONG_INTENSITY {
            let a = end.y as i64 - start.y as i64;
            let b = end.x as i64 - start.x as i64;
            proof {
                assert(a * p.x as i64 <= 2000000000000 && a * p.x as i64 >= -2000000000000)
                    by (nonlinear_arith)
                    requires
                        -2000000 <= a <= 2000000,
                        -1000000 <= p.x as i64 <= 1000000,
                ;
                assert(b * p.y as i64 <= 2000000000000 && b * p.y as i64 >= -2000000000000)
                    by (nonlinear_arith)
                    requires
                        -2000000 <= b <= 2000000,
                        -1000000 <= p.y as i64 <= 1000000,
                ;
                assert(end.x as i64 * start.y as i64 <= 1000000000000 && end.x as i64
                    * start.y as i64 >= -1000000000000) by (nonlinear_arith)
                    requires
                        -1000000 <= end.x as i64 <= 1000000,
                        -1000000 <= start.y as i64 <= 1000000,
                ;
                assert(end.y as i64 * start.x as i64 <= 1000000000000 && end.y as i64
                    * start.x as i64 >= -1000000000000) by (nonlinear_arith)
                    requires
                        -1000000 <= end.y as i64 <= 1000000,
                        -1000000 <= start.x as i64 <= 1000000,
                ;
            }
            let cr: i64 = a * p.x as i64 - b * p.y as i64 + end.x as i64 * start.y as i64
                - end.y as i64 * start.x as i64;
            let cr_wide = cr as i128;
            proof {
                assert(cr_wide * cr_wide <= 36000000000000000000000000 && cr_wide * cr_wide >= 0)
                    by (nonlinear_arith)
                    requires
                        -6000000000000 <= cr_wide <= 6000000000000,
                ;
            }
            let sq = (cr_wide * cr_wide) as u128;
            proof {
                let p_i = pixels@[i as int];
                let cr_spec = cross_mag(p_i.x as int, p_i.y as int, x0, y0, x1, y1);
                assert(cr as int == cr_spec);
                assert(sq as int == cr_spec * cr_spec);
            }
            if sq > max_sq {
                max_sq = sq;
            }
        }
        i += 1;
    }
    proof {
        assert(pixels@.take(pixels@.len() as int) =~= pixels@);
    }
    max_sq
}

/// Count of strong pixels in a cluster.
pub open spec fn spec_strong_count(c: Seq<Pixel>) -> int
    decreases c.len(),
{
    if c.len() == 0 {
        0int
    } else {
        spec_strong_count(c.drop_last()) + if strong(c.last()) {
            1int
        } else {
            0int
        }
    }
}

/// Count the pixels strong enough to influence the fit; a fitted ellipse is
/// drawable only when this count reaches `MAJOR_PIXEL_THRESHOLD`.
pub fn count_strong_pixels(pixels: &Vec<Pixel>) -> (n: usize)
    ensures
        n == spec_strong_count(pixels@),
{
    let mut n: usize = 0;
    let mut i: usize = 0;
    while i < pixels.len()
        invariant
            i <= pixels@.len(),
            n <= i,
            n == spec_strong_count(pixels@.take(i as int)),
        decreases pixels@.len() - i,
    {
        proof {
            assert(pixels@.take(i + 1).drop_last() =~= pixels@.take(i as int));
            assert(pixels@.take(i + 1).last() == pixels@[i as int]);
        }
        if pixels[i].intensity >= STRONG_INTENSITY {
            n += 1;
        }
        i += 1;
    }
    proof {
        assert(pixels@.take(pixels@.len() as int) =~= pixels@);
    }
    n
}

/// Whether a cluster's fitted ellipse is statistically reliable enough to
/// draw: it takes at least `MAJOR_PIXEL_THRESHOLD` strong pixels.
pub fn is_ellipse_drawable(pixels: &Vec<Pixel>) -> (drawable: bool)
    ensures
        drawable == (spec_strong_count(pixels@) >= MAJOR_PIXEL_THRESHOLD),
{
    count_strong_pixels(pixels) >= MAJOR_PIXEL_THRESHOLD
}

/// A cell is multi-cell iff its eccentricity lies in `[0.88, 1)`. With `M`
/// the squared major half-length and `C` the largest squared cross product,
/// `ecc >= 0.88` iff `10000 * C <= 2256 * M * M`, and `ecc < 1` iff `C > 0`;
/// a degenerate fit (`M == 0`) is single-cell.
pub open spec fn spec_is_multicell(major_sq: int, cross_sq: int) -> bool {
    major_sq > 0 && cross_sq > 0 && 10000 * cross_sq <= 2256 * major_sq * major_sq
}

pub open spec fn spec_classify(major_sq: int, cross_sq: int) -> StormType {
    if spec_is_multicell(major_sq, cross_sq) {
        StormType::MultiCell
    } else {
        StormType::SingleCell
    }
}

/// Classify a cell's morphology from its squared major half-length and the
/// largest squared cross deviation from the major axis.
pub fn classify_storm_type(major_sq: u64, cross_sq: u128) -> (t: StormType)
    requires
        major_sq <= MAJOR_SQ_MAX,
        cross_sq <= CROSS_SQ_MAX,
    ensures
        t == spec_classify(major_sq as int, cross_sq as int),
{
    if major_sq == 0 || cross_sq == 0 {
        return StormType::SingleCell;
    }
    let m = major_sq as u128;
    proof {
        assert(m * m <= 64000000000000000000000000) by (nonlinear_arith)
            requires
                0 <= m <= 8000000000000,
        ;
    }
    let lhs = (TYPE_THRESHOLD_SQ_DEN) * cross_sq;
    let rhs = (TYPE_THRESHOLD_SQ_DEN - TYPE_THRESHOLD_SQ_NUM) * (m * m);
    proof {
        assert(2256 * ((m as int) * (m as int)) == 2256 * (m as int) * (m as int))
            by (nonlinear_arith);
    }
    if lhs <= rhs {
        StormType::MultiCell
    } else {
        StormType::SingleCell
    }
}

/// Law: for a fit with `major >= minor >= 0`, `major > 0` and `minor > 0`,
/// the squared eccentricity `1 - minor^2/major^2`, written here as the
/// fraction `(M*M - C) / (M*M)` with `M` the squared major half-length and
/// `C` the largest squared cross deviation, lies in `[0, 1)` — so the
/// eccentricity itself lies in `[0, 1)`; and a perfect circle
/// (`minor == major`, i.e. `C == M*M`) has eccentricity 0 and is classified
/// single-cell. (A fit with `minor == 0` has eccentricity exactly 1 and is
/// excluded.)
pub proof fn lemma_eccentricity_bounds(major_sq: int, cross_sq: int)
    requires
        major_sq > 0,
        0 < cross_sq <= major_sq * major_sq,
    ensures
        0 <= major_sq * major_sq - cross_sq < major_sq * major_sq,
        cross_sq == major_sq * major_sq ==> major_sq * major_sq - cross_sq == 0
            && spec_classify(major_sq, cross_sq) == StormType::SingleCell,
{
    assert(major_sq * major_sq > 0) by (nonlinear_arith)
        requires
            major_sq > 0,
    ;
    if cross_sq == major_sq * major_sq {
        assert(10000 * cross_sq > 2256 * major_sq * major_sq) by (nonlinear_arith)
            requires
                cross_sq == major_sq * major_sq,
                major_sq * major_sq > 0,
        ;
    }
}

} // verus!
