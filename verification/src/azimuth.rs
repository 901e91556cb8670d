//! Compass bearing of a cell centroid relative to the radar origin.
//!
//! Bearings follow the compass convention: 0 degrees is North (decreasing
//! image `y`), increasing clockwise. Angles are carried in millidegrees so
//! the quadrant bookkeeping and the compass-label bins are exact integer
//! arithmetic. The one transcendental ingredient, the arcsine of the
//! normalized northward component, is supplied by the caller as a value in
//! `[0, 90000]` millidegrees; every decision taken from it is verified for
//! every such value.

use vstd::prelude::*;

verus! {

/// Millidegrees in a full circle.
pub const FULL_TURN_MDEG: u32 = 360000;

/// Millidegrees in a quarter circle.
pub const QUARTER_TURN_MDEG: u32 = 90000;

/// The compass bearing, in millidegrees, of a point displaced from the
/// origin by `dx` eastward and `dy` northward, given the arcsine (in
/// millidegrees) of `|dy| / sqrt(dx^2 + dy^2)`.
///
/// The four axis cases are exact; the four quadrant cases turn the arcsine
/// into a compass angle; a point at the origin has no bearing and defaults
/// to North.
pub open spec fn spec_azimuth_mdeg(dx: int, dy: int, asin_mdeg: u32) -> int {
    if dx == 0 && dy == 0 {
        0
    } else if dx == 0 && dy > 0 {
        0
    } else if dx == 0 && dy < 0 {
        180000
    } else if dy == 0 && dx > 0 {
        90000
    } else if dy == 0 && dx < 0 {
        270000
    } else if dx > 0 && dy > 0 {
        90000 - asin_mdeg
    } else if dx < 0 && dy > 0 {
        (270000 + asin_mdeg) % 360000
    } else if dx < 0 && dy < 0 {
        270000 - asin_mdeg
    } else {
        90000 + asin_mdeg
    }
}

/// Compass bearing in millidegrees of the displacement `(dx, dy)`, where
/// `dx` grows eastward and `dy` grows northward from the radar origin.
///
/// `asin_mdeg` must be the arcsine of `|dy| / sqrt(dx^2 + dy^2)` in
/// millidegrees; it is only consulted in the four open quadrants. The result
/// is always in `[0, 360000)`: due north is exactly 0, due east exactly
/// 90000, due south exactly 180000, due west exactly 270000.
pub fn calculate_azimuth_mdeg(dx: i64, dy: i64, asin_mdeg: u32) -> (azimuth: u32)
    requires
        asin_mdeg <= QUARTER_TURN_MDEG,
    ensures
        azimuth == spec_azimuth_mdeg(dx as int, dy as int, asin_mdeg),
        azimuth < FULL_TURN_MDEG,
        dx == 0 && dy > 0 ==> azimuth == 0,
        dy == 0 && dx > 0 ==> azimuth == QUARTER_TURN_MDEG,
{
    if dx == 0 && dy == 0 {
        0
    } else if dx == 0 && dy > 0 {
        0
    } else if dx == 0 && dy < 0 {
        180000
    } else if dy == 0 && dx > 0 {
        90000
    } else if dy == 0 && dx < 0 {
        270000
    } else if dx > 0 && dy > 0 {
        90000 - asin_mdeg
    } else if dx < 0 && dy > 0 {
        let raw = 270000 + asin_mdeg;
        if raw >= 360000 {
            raw - 360000
        } else {
            raw
        }
    } else if dx < 0 && dy < 0 {
        270000 - asin_mdeg
    } else {
        90000 + asin_mdeg
    }
}

/// The eight compass labels.
#[derive(Clone, Copy, PartialEq, Eq, Structural, Debug)]
pub enum Compass {
    North,
    NorthEast,
    East,
    SouthEast,
    South,
    SouthWest,
    West,
    NorthWest,
}

/// The compass label of a bearing in millidegrees: bins are 45 degrees wide,
/// centered on each label, with boundaries at odd multiples of 22.5 degrees;
/// a boundary bearing goes to the counterclockwise bin.
pub open spec fn spec_compass_of_mdeg(azimuth: int) -> Compass {
    if azimuth <= 22500 {
        Compass::North
    } else if azimuth <= 67500 {
        Compass::NorthEast
    } else if azimuth <= 112500 {
        Compass::East
    } else if azimuth <= 157500 {
        Compass::SouthEast
    } else if azimuth <= 202500 {
        Compass::South
    } else if azimuth <= 247500 {
        Compass::SouthWest
    } else if azimuth <= 292500 {
        Compass::West
    } else if azimuth <= 337500 {
        Compass::NorthWest
    } else {
        Compass::North
    }
}

/// Map a bearing in millidegrees to its compass label.
pub fn azimuth_to_direction(azimuth_mdeg: u32) -> (label: Compass)
    requires
        azimuth_mdeg <= FULL_TURN_MDEG,
    ensures
        label == spec_compass_of_mdeg(azimuth_mdeg as int),
{
    if azimuth_mdeg <= 22500 {
        Compass::North
    } else if azimuth_mdeg <= 67500 {
        Compass::NorthEast
    } else if azimuth_mdeg <= 112500 {
        Compass::East
    } else if azimuth_mdeg <= 157500 {
        Compass::SouthEast
    } else if azimuth_mdeg <= 202500 {
        Compass::South
    } else if azimuth_mdeg <= 247500 {
        Compass::SouthWest
    } else if azimuth_mdeg <= 292500 {
        Compass::West
    } else if azimuth_mdeg <= 337500 {
        Compass::NorthWest
    } else {
        Compass::North
    }
}

} // verus!
