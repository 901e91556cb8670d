//! Picking the time stamp of the most recent published radar frame.
//!
//! Frames are published on a six-minute grid and the latest one lags the
//! clock, so a report floors the minute to the grid and steps back twelve
//! minutes, rolling the hour, day, month and year back as needed. The caller
//! supplies the clock fields and the day count to use when the roll-back
//! crosses into the previous month.

use vstd::prelude::*;

verus! {

/// The grid spacing of published frames, in minutes.
pub const FRAME_GRID_MINUTES: u32 = 6;

/// How far behind the clock the frame used for a report lies, in minutes.
pub const FRAME_LAG_MINUTES: u32 = 12;

/// The clock fields `(year, month, day, hour, minute)` of the frame to use:
/// the minute is floored to the six-minute grid and moved back twelve
/// minutes; a negative minute borrows an hour, a negative hour borrows a
/// day, and a day below 1 falls back to `fallback_day` of the previous
/// month, rolling the year at January.
pub open spec fn spec_previous_frame_time(
    year: int,
    month: int,
    day: int,
    hour: int,
    minute: int,
    fallback_day: int,
) -> (int, int, int, int, int) {
    let m0 = (minute / 6) * 6 - 12;
    if m0 >= 0 {
        (year, month, day, hour, m0)
    } else {
        let m1 = m0 + 60;
        if hour >= 1 {
            (year, month, day, hour - 1, m1)
        } else if day >= 2 {
            (year, month, day - 1, 23, m1)
        } else if month >= 2 {
            (year, month - 1, fallback_day, 23, m1)
        } else {
            (year - 1, 12, fallback_day, 23, m1)
        }
    }
}

/// Compute the clock fields of the most recent usable frame. The resulting
/// minute is always a multiple of the grid within `[0, 60)`, and the hour
/// stays within `[0, 24)`.
pub fn previous_frame_time(
    year: i32,
    month: i32,
    day: i32,
    hour: i32,
    minute: i32,
    fallback_day: i32,
) -> (r: (i32, i32, i32, i32, i32))
    requires
        -100000 <= year <= 100000,
        1 <= month <= 12,
        1 <= day <= 31,
        0 <= hour <= 23,
        0 <= minute <= 59,
        1 <= fallback_day <= 31,
    ensures
        (r.0 as int, r.1 as int, r.2 as int, r.3 as int, r.4 as int) == spec_previous_frame_time(
            year as int,
            month as int,
            day as int,
            hour as int,
            minute as int,
            fallback_day as int,
        ),
        0 <= r.4 < 60,
        r.4 % 6 == 0,
        0 <= r.3 < 24,
        1 <= r.1 <= 12,
{
    let q = minute as u32 / FRAME_GRID_MINUTES;
    let floored = (q * FRAME_GRID_MINUTES) as i32;
    let m0 = floored - 12;
    if m0 >= 0 {
        proof {
            assert(m0 as int == (q as int - 2) * 6);
            vstd::arithmetic::div_mod::lemma_mod_multiples_basic(q as int - 2, 6);
        }
        (year, month, day, hour, m0)
    } else {
        let m1 = m0 + 60;
        proof {
            assert(m1 as int == (q as int + 8) * 6);
            vstd::arithmetic::div_mod::lemma_mod_multiples_basic(q as int + 8, 6);
        }
        if hour >= 1 {
            (year, month, day, hour - 1, m1)
        } else if day >= 2 {
            (year, month, day - 1, 23, m1)
        } else if month >= 2 {
            (year, month - 1, fallback_day, 23, m1)
        } else {
            (year - 1, 12, fallback_day, 23, m1)
        }
    }
}

} // verus!
