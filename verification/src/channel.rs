//! Packed colours.
//!
//! Two layouts meet in this crate. A palette *stop* is written the way colours
//! are written in hexadecimal, `0xRRGGBBAA`: red is the most significant byte.
//! A *pixel*, the colour that is handed out, holds red in its least
//! significant byte, then green, then blue, and an alpha byte of `0xFF` on
//! top, so that its little-endian bytes read red, green, blue, alpha.

use vstd::prelude::*;

verus! {

/// The greatest level a channel can take.
pub const LEVEL_MAX: u32 = 255;

/// The alpha level of every pixel handed out: fully opaque.
pub const OPAQUE: u32 = 255;

/// A channel level is an integer from 0 to 255.
pub open spec fn is_level(level: int) -> bool {
    0 <= level <= 255
}

/// The red level of a palette stop: its most significant byte.
pub open spec fn stop_red(stop: u32) -> int {
    stop as int / 0x100_0000
}

/// The green level of a palette stop: its second most significant byte.
pub open spec fn stop_green(stop: u32) -> int {
    (stop as int / 0x1_0000) % 0x100
}

/// The blue level of a palette stop: its second least significant byte.
pub open spec fn stop_blue(stop: u32) -> int {
    (stop as int / 0x100) % 0x100
}

/// The alpha level of a palette stop: its least significant byte. No pixel
/// depends on it.
pub open spec fn stop_alpha(stop: u32) -> int {
    stop as int % 0x100
}

/// The opaque pixel with the given red, green and blue levels.
pub open spec fn pixel(r: int, g: int, b: int) -> int {
    0xFF00_0000 + b * 0x1_0000 + g * 0x100 + r
}

/// The red level of a pixel: its least significant byte.
pub open spec fn pixel_red(p: int) -> int {
    p % 0x100
}

/// The green level of a pixel.
pub open spec fn pixel_green(p: int) -> int {
    (p / 0x100) % 0x100
}

/// The blue level of a pixel.
pub open spec fn pixel_blue(p: int) -> int {
    (p / 0x1_0000) % 0x100
}

/// The alpha level of a pixel: its most significant byte.
pub open spec fn pixel_alpha(p: int) -> int {
    p / 0x100_0000
}

/// The pixel that shows the colour of a palette stop: the stop's red, green
/// and blue levels, opaque whatever the stop's own alpha byte holds.
pub open spec fn shown(stop: u32) -> int {
    pixel(stop_red(stop), stop_green(stop), stop_blue(stop))
}

/// A stop whose bytes read the same in the order of stops and in the order of
/// pixels, under an opaque alpha: red and alpha both 255, green equal to blue.
pub open spec fn is_own_pixel(stop: u32) -> bool {
    &&& stop_red(stop) == 255
    &&& stop_alpha(stop) == 255
    &&& stop_green(stop) == stop_blue(stop)
}

/// Every byte of a palette stop is a level.
pub proof fn lemma_stop_levels(stop: u32)
    ensures
        is_level(stop_red(stop)),
        is_level(stop_green(stop)),
        is_level(stop_blue(stop)),
{
}

/// Packing three levels gives a 32-bit value from which each level can be
/// read back, under an alpha byte that is fully opaque.
pub proof fn lemma_pixel_channels(r: int, g: int, b: int)
    requires
        is_level(r),
        is_level(g),
        is_level(b),
    ensures
        0xFF00_0000 <= pixel(r, g, b) <= u32::MAX,
        pixel_red(pixel(r, g, b)) == r,
        pixel_green(pixel(r, g, b)) == g,
        pixel_blue(pixel(r, g, b)) == b,
        pixel_alpha(pixel(r, g, b)) == OPAQUE,
{
}

/// Two pixels built from levels are equal only if their levels are.
pub proof fn lemma_pixel_injective(r1: int, g1: int, b1: int, r2: int, g2: int, b2: int)
    requires
        is_level(r1),
        is_level(g1),
        is_level(b1),
        is_level(r2),
        is_level(g2),
        is_level(b2),
    ensures
        pixel(r1, g1, b1) == pixel(r2, g2, b2) <==> (r1 == r2 && g1 == g2 && b1 == b2),
{
    lemma_pixel_channels(r1, g1, b1);
    lemma_pixel_channels(r2, g2, b2);
}

/// A stop is the very number of the pixel that shows it exactly where it is
/// its own pixel.
pub proof fn lemma_own_pixel(stop: u32)
    ensures
        stop == shown(stop) <==> is_own_pixel(stop),
{
}

/// Reads the red level of a palette stop.
#[inline(always)]
pub fn red(pix: u32) -> (level: u32)
    ensures
        level == stop_red(pix),
        level <= LEVEL_MAX,
{
    assert((pix & 0xFF000000) >> 24 == pix / 0x100_0000) by (bit_vector);
    (pix & 0xFF000000) >> 24
}

/// Reads the green level of a palette stop.
#[inline(always)]
pub fn green(pix: u32) -> (level: u32)
    ensures
        level == stop_green(pix),
        level <= LEVEL_MAX,
{
    assert((pix & 0x00FF0000) >> 16 == (pix / 0x1_0000) % 0x100) by (bit_vector);
    (pix & 0x00FF0000) >> 16
}

/// Reads the blue level of a palette stop.
#[inline(always)]
pub fn blue(pix: u32) -> (level: u32)
    ensures
        level == stop_blue(pix),
        level <= LEVEL_MAX,
{
    assert((pix & 0x0000FF00) >> 8 == (pix / 0x100) % 0x100) by (bit_vector);
    (pix & 0x0000FF00) >> 8
}

/// Packs three levels into an opaque pixel.
#[inline(always)]
pub fn pix(r: u32, g: u32, b: u32) -> (p: u32)
    requires
        r <= LEVEL_MAX,
        g <= LEVEL_MAX,
        b <= LEVEL_MAX,
    ensures
        p == pixel(r as int, g as int, b as int),
        pixel_alpha(p as int) == OPAQUE,
{
    assert(((0xFFu32 << 24) | (b << 16) | (g << 8) | r) == 0xFF00_0000 + b * 0x1_0000 + g * 0x100
        + r) by (bit_vector)
        requires
            r <= 255,
            g <= 255,
            b <= 255,
    ;
    (0xFF << 24) | (b << 16) | (g << 8) | r
}

} // verus!
