//! Classified radar pixels and the color-tolerance classifier.
//!
//! A pixel sample is kept when its color lies within a per-channel tolerance
//! of one of the palette colors; its reflectivity tier is then looked up by a
//! first-match-wins scan of the palette.

use vstd::prelude::*;

verus! {

/// Per-channel tolerance of the color match.
pub const DELTA: u8 = 10;

/// An RGBA color, one byte per channel.
#[derive(Clone, Copy, PartialEq, Eq, Structural, Debug)]
pub struct Color {
    pub r: u8,
    pub g: u8,
    pub b: u8,
    pub a: u8,
}

/// A classified sample point: image coordinates, the sampled color, and the
/// discrete reflectivity tier derived from it (0 when unclassified).
#[derive(Clone, Copy, PartialEq, Eq, Structural, Debug)]
pub struct Pixel {
    pub x: i32,
    pub y: i32,
    pub color: Color,
    pub intensity: u32,
}

/// Coordinate bound under which all pixel arithmetic in the library is free
/// of overflow; any real image easily fits.
pub const COORD_BOUND: i32 = 1000000;

/// A pixel whose coordinates are small enough for exact squared-distance
/// arithmetic.
pub open spec fn valid_pixel(p: Pixel) -> bool {
    -COORD_BOUND <= p.x <= COORD_BOUND && -COORD_BOUND <= p.y <= COORD_BOUND
}

pub open spec fn all_pixels_valid(s: Seq<Pixel>) -> bool {
    forall|i: int| 0 <= i < s.len() ==> valid_pixel(#[trigger] s[i])
}

/// One channel lies within `width` of the target channel. Since channels are
/// bytes, clamping the window to `[0, 255]` changes nothing.
pub open spec fn channel_in_range(target: u8, channel: u8, width: u8) -> bool {
    target - width <= channel <= target + width
}

/// Every channel of `color` lies within `width` of the matching channel of
/// `target`.
pub open spec fn spec_range_match(color: Color, target: Color, width: u8) -> bool {
    &&& channel_in_range(target.r, color.r, width)
    &&& channel_in_range(target.g, color.g, width)
    &&& channel_in_range(target.b, color.b, width)
    &&& channel_in_range(target.a, color.a, width)
}

/// Whether `color` matches `target` within a per-channel tolerance of
/// `range_width`.
pub fn range_match(color: &Color, target: &Color, range_width: u8) -> (r: bool)
    ensures
        r == spec_range_match(*color, *target, range_width),
{
    let w = range_width as i32;
    (target.r as i32 - w <= color.r as i32 && color.r as i32 <= target.r as i32 + w)
        && (target.g as i32 - w <= color.g as i32 && color.g as i32 <= target.g as i32 + w)
        && (target.b as i32 - w <= color.b as i32 && color.b as i32 <= target.b as i32 + w)
        && (target.a as i32 - w <= color.a as i32 && color.a as i32 <= target.a as i32 + w)
}

pub open spec fn rgba(r: u8, g: u8, b: u8, a: u8) -> Color {
    Color { r, g, b, a }
}

/// The reflectivity tier of a color: the fixed palette is scanned in order
/// and the first entry matched within tolerance `DELTA` decides the tier;
/// an unmatched color gets tier 0.
pub open spec fn spec_acquire_intensity(c: Color) -> u32 {
    if spec_range_match(c, rgba(0, 0, 246, 255), DELTA) {
        15u32
    } else if spec_range_match(c, rgba(0, 254, 0, 255), DELTA) {
        20u32
    } else if spec_range_match(c, rgba(0, 200, 0, 255), DELTA) {
        25u32
    } else if spec_range_match(c, rgba(0, 144, 0, 255), DELTA) {
        30u32
    } else if spec_range_match(c, rgba(254, 254, 0, 255), DELTA) {
        35u32
    } else if spec_range_match(c, rgba(230, 192, 0, 255), DELTA) {
        40u32
    } else if spec_range_match(c, rgba(254, 144, 0, 255), DELTA) {
        45u32
    } else if spec_range_match(c, rgba(254, 0, 0, 255), DELTA) {
        50u32
    } else if spec_range_match(c, rgba(166, 0, 0, 255), DELTA) {
        55u32
    } else if spec_range_match(c, rgba(100, 0, 0, 255), DELTA) {
        60u32
    } else if spec_range_match(c, rgba(254, 0, 254, 255), DELTA) {
        65u32
    } else if spec_range_match(c, rgba(152, 84, 200, 255), DELTA) {
        70u32
    } else {
        0u32
    }
}

fn color_of(r: u8, g: u8, b: u8, a: u8) -> (c: Color)
    ensures
        c == rgba(r, g, b, a),
{
    Color { r, g, b, a }
}

/// Look up the reflectivity tier of a sampled color.
pub fn acquire_intensity(pixel_color: &Color) -> (tier: u32)
    ensures
        tier == spec_acquire_intensity(*pixel_color),
{
    if range_match(pixel_color, &color_of(0, 0, 246, 255), DELTA) {
        15
    } else if range_match(pixel_color, &color_of(0, 254, 0, 255), DELTA) {
        20
    } else if range_match(pixel_color, &color_of(0, 200, 0, 255), DELTA) {
        25
    } else if range_match(pixel_color, &color_of(0, 144, 0, 255), DELTA) {
        30
    } else if range_match(pixel_color, &color_of(254, 254, 0, 255), DELTA) {
        35
    } else if range_match(pixel_color, &color_of(230, 192, 0, 255), DELTA) {
        40
    } else if range_match(pixel_color, &color_of(254, 144, 0, 255), DELTA) {
        45
    } else if range_match(pixel_color, &color_of(254, 0, 0, 255), DELTA) {
        50
    } else if range_match(pixel_color, &color_of(166, 0, 0, 255), DELTA) {
        55
    } else if range_match(pixel_color, &color_of(100, 0, 0, 255), DELTA) {
        60
    } else if range_match(pixel_color, &color_of(254, 0, 254, 255), DELTA) {
        65
    } else if range_match(pixel_color, &color_of(152, 84, 200, 255), DELTA) {
        70
    } else {
        0
    }
}

/// The fixed reflectivity palette, weakest tier first.
pub open spec fn spec_standard_color_list() -> Seq<Color> {
    seq![
        rgba(0, 0, 246, 255),
        rgba(0, 254, 0, 255),
        rgba(0, 200, 0, 255),
        rgba(0, 144, 0, 255),
        rgba(254, 254, 0, 255),
        rgba(230, 192, 0, 255),
        rgba(254, 144, 0, 255),
        rgba(254, 0, 0, 255),
        rgba(166, 0, 0, 255),
        rgba(100, 0, 0, 255),
        rgba(254, 0, 254, 255),
        rgba(152, 84, 200, 255),
    ]
}

/// Build the fixed reflectivity palette.
pub fn standard_color_list() -> (list: Vec<Color>)
    ensures
        list@ == spec_standard_color_list(),
{
    let mut list: Vec<Color> = Vec::new();
    list.push(color_of(0, 0, 246, 255));
    list.push(color_of(0, 254, 0, 255));
    list.push(color_of(0, 200, 0, 255));
    list.push(color_of(0, 144, 0, 255));
    list.push(color_of(254, 254, 0, 255));
    list.push(color_of(230, 192, 0, 255));
    list.push(color_of(254, 144, 0, 255));
    list.push(color_of(254, 0, 0, 255));
    list.push(color_of(166, 0, 0, 255));
    list.push(color_of(100, 0, 0, 255));
    list.push(color_of(254, 0, 254, 255));
    list.push(color_of(152, 84, 200, 255));
    proof {
        assert(list@ =~= spec_standard_color_list());
    }
    list
}

/// `color` matches some entry of the palette within tolerance `DELTA`.
pub open spec fn matches_any(color: Color, list: Seq<Color>) -> bool {
    exists|i: int| 0 <= i < list.len() && spec_range_match(color, #[trigger] list[i], DELTA)
}

fn matches_any_color(color: &Color, list: &Vec<Color>) -> (r: bool)
    ensures
        r == matches_any(*color, list@),
{
    let mut i: usize = 0;
    while i < list.len()
        invariant
            i <= list@.len(),
            forall|k: int| 0 <= k < i ==> !spec_range_match(*color, #[trigger] list@[k], DELTA),
        decreases list@.len() - i,
    {
        if range_match(color, &list[i], DELTA) {
            return true;
        }
        i += 1;
    }
    false
}

/// The classified pixels of a sequence of samples: samples whose color
/// matches a palette entry are kept, in order, with the tier looked up by
/// `spec_acquire_intensity`; the rest are dropped.
pub open spec fn classify_spec(samples: Seq<(i32, i32, Color)>, list: Seq<Color>) -> Seq<Pixel>
    decreases samples.len(),
{
    if samples.len() == 0 {
        Seq::empty()
    } else {
        let rest = classify_spec(samples.drop_last(), list);
        let s = samples.last();
        if matches_any(s.2, list) {
            rest.push(Pixel { x: s.0, y: s.1, color: s.2, intensity: spec_acquire_intensity(s.2) })
        } else {
            rest
        }
    }
}

/// Classify color samples against a palette: keep the samples whose color
/// matches some palette entry within tolerance `DELTA`, tagging each kept
/// sample with its reflectivity tier.
pub fn classify_pixels(samples: &Vec<(i32, i32, Color)>, color_list: &Vec<Color>) -> (result: Vec<
    Pixel,
>)
    ensures
        result@ == classify_spec(samples@, color_list@),
{
    let mut result: Vec<Pixel> = Vec::new();
    let mut i: usize = 0;
    while i < samples.len()
        invariant
            i <= samples@.len(),
            result@ == classify_spec(samples@.take(i as int), color_list@),
        decreases samples@.len() - i,
    {
        let s = samples[i];
        if matches_any_color(&s.2, color_list) {
            let intensity = acquire_intensity(&s.2);
            result.push(Pixel { x: s.0, y: s.1, color: s.2, intensity });
        }
        proof {
            assert(samples@.take(i + 1).drop_last() =~= samples@.take(i as int));
            assert(samples@.take(i + 1).last() == samples@[i as int]);
        }
        i += 1;
    }
    proof {
        assert(samples@.take(samples@.len() as int) =~= samples@);
    }
    result
}

} // verus!
