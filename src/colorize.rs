//! Hypsometric tinting: elevation in meters to a gamma-encoded RGBA color.
use vstd::prelude::*;

use crate::decimal::{lemma_pow10_bound, Decimal};

verus! {

/// The two tint ramps. They differ only at and around sea level.
#[derive(Clone, Copy, Debug, PartialEq, Eq, Structural)]
pub enum ColorSpectrum {
    /// Sea level belongs to the lowland band.
    Imhof,
    /// Sea level has a color of its own.
    ImhofModified,
}

/// An sRGB (gamma-encoded) color with alpha, each channel in thousandths
/// (`1000` is full intensity).
#[derive(Clone, Copy, Debug, PartialEq, Eq, Structural)]
pub struct Srgba {
    pub r: u16,
    pub g: u16,
    pub b: u16,
    pub a: u16,
}

/// Full intensity of a channel.
pub const OPAQUE: u16 = 1000;

/// The number of elevation bands of the ramp.
pub const BAND_COUNT: u8 = 9;

/// The lower bound, in meters, of band `k` (for `1 <= k <= 8`); band 0 has
/// none.
pub open spec fn band_floor(k: nat) -> int {
    if k == 1 {
        0
    } else if k == 2 {
        100
    } else if k == 3 {
        200
    } else if k == 4 {
        500
    } else if k == 5 {
        1000
    } else if k == 6 {
        2000
    } else if k == 7 {
        4000
    } else {
        9000
    }
}

/// The band that holds `h`: the bands are the half-open ranges below 0,
/// [0, 100), [100, 200), [200, 500), [500, 1000), [1000, 2000),
/// [2000, 4000), [4000, 9000) and from 9000 up.
pub open spec fn band(h: Decimal) -> nat {
    if h.below(0) {
        0
    } else if h.below(100) {
        1
    } else if h.below(200) {
        2
    } else if h.below(500) {
        3
    } else if h.below(1000) {
        4
    } else if h.below(2000) {
        5
    } else if h.below(4000) {
        6
    } else if h.below(9000) {
        7
    } else {
        8
    }
}

/// An opaque color from its three channels.
pub open spec fn opaque(r: u16, g: u16, b: u16) -> Srgba {
    Srgba { r, g, b, a: OPAQUE }
}

/// The color of band `k`.
pub open spec fn band_color(k: nat) -> Srgba {
    if k == 0 {
        opaque(50, 125, 75)
    } else if k == 1 {
        opaque(654, 772, 541)
    } else if k == 2 {
        opaque(753, 863, 634)
    } else if k == 3 {
        opaque(882, 879, 624)
    } else if k == 4 {
        opaque(855, 783, 592)
    } else if k == 5 {
        opaque(829, 743, 576)
    } else if k == 6 {
        opaque(754, 643, 523)
    } else if k == 7 {
        opaque(677, 546, 473)
    } else {
        opaque(1000, 1000, 1000)
    }
}

/// The color that the modified ramp gives to sea level exactly.
pub open spec fn sea_level_color() -> Srgba {
    opaque(25, 75, 275)
}

/// The color of elevation `h` on the ramp `spectrum`.
pub open spec fn height_color(h: Decimal, spectrum: ColorSpectrum) -> Srgba {
    match spectrum {
        ColorSpectrum::Imhof => band_color(band(h)),
        ColorSpectrum::ImhofModified => if h.equals(0) {
            sea_level_color()
        } else {
            band_color(band(h))
        },
    }
}

/// The band that holds `h`.
pub fn band_of(h: &Decimal) -> (k: u8)
    requires
        h.wf(),
    ensures
        k == band(*h),
        k < BAND_COUNT,
{
    if h.is_below(0) {
        0
    } else if h.is_below(100) {
        1
    } else if h.is_below(200) {
        2
    } else if h.is_below(500) {
        3
    } else if h.is_below(1000) {
        4
    } else if h.is_below(2000) {
        5
    } else if h.is_below(4000) {
        6
    } else if h.is_below(9000) {
        7
    } else {
        8
    }
}

/// The color of band `k`.
pub fn band_srgb(k: u8) -> (c: Srgba)
    ensures
        c == band_color(k as nat),
{
    let (r, g, b) = if k == 0 {
        (50, 125, 75)
    } else if k == 1 {
        (654, 772, 541)
    } else if k == 2 {
        (753, 863, 634)
    } else if k == 3 {
        (882, 879, 624)
    } else if k == 4 {
        (855, 783, 592)
    } else if k == 5 {
        (829, 743, 576)
    } else if k == 6 {
        (754, 643, 523)
    } else if k == 7 {
        (677, 546, 473)
    } else {
        (1000, 1000, 1000)
    };
    Srgba { r, g, b, a: OPAQUE }
}

/// The gamma-encoded color of an elevation in meters on the chosen ramp.
pub fn get_height_color(height_m: Decimal, colors: ColorSpectrum) -> (c: Srgba)
    requires
        height_m.wf(),
    ensures
        c == height_color(height_m, colors),
{
    match colors {
        ColorSpectrum::Imhof => band_srgb(band_of(&height_m)),
        ColorSpectrum::ImhofModified => {
            if height_m.is_equal_to(0) {
                Srgba { r: 25, g: 75, b: 275, a: OPAQUE }
            } else {
                band_srgb(band_of(&height_m))
            }
        },
    }
}

/// Every elevation falls in exactly one band, and band `k` holds exactly the
/// elevations from its own floor (inclusive) up to the next band's floor
/// (exclusive): the bands leave no gap and do not overlap.
pub proof fn lemma_band_partition(h: Decimal, k: nat)
    requires
        h.wf(),
        k < BAND_COUNT,
    ensures
        band(h) < BAND_COUNT,
        band(h) == k <==> ((k == 0 || !h.below(band_floor(k))) && (k == 8 || h.below(
            band_floor(k + 1),
        ))),
{
    lemma_pow10_bound(h.frac_digits as nat, h.frac_digits as nat);
}

/// At sea level the two ramps differ: the plain ramp gives the lowland color
/// of [0, 100), the modified ramp its own sea-level color.
pub proof fn lemma_sea_level_variants(h: Decimal)
    requires
        h.wf(),
        h.equals(0),
    ensures
        height_color(h, ColorSpectrum::Imhof) == band_color(1),
        height_color(h, ColorSpectrum::ImhofModified) == sea_level_color(),
        height_color(h, ColorSpectrum::Imhof) != height_color(h, ColorSpectrum::ImhofModified),
{
    lemma_pow10_bound(h.frac_digits as nat, h.frac_digits as nat);
}

/// Away from sea level the two ramps agree: both give the color of the band
/// that holds the elevation.
pub proof fn lemma_ramps_agree_off_sea_level(h: Decimal)
    requires
        !h.equals(0),
    ensures
        height_color(h, ColorSpectrum::Imhof) == band_color(band(h)),
        height_color(h, ColorSpectrum::ImhofModified) == band_color(band(h)),
{
}

} // verus!
