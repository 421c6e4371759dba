//! The interpolation kernel: one value at a time or eight at once, over the
//! default palette or one of the caller's.
//!
//! Every variant runs the same straight-line arithmetic per value, free of
//! branches on the data, so that the loops over eight lanes are easy for a
//! compiler to vectorise.

use vstd::prelude::*;
use crate::channel::{blue, green, pix, pixel_alpha, red, LEVEL_MAX, OPAQUE};
use crate::gradient::{
    blend, color_at, fraction_of, lemma_blend_between, lemma_color_in_segment, lemma_locate,
    mixed, segment_of,
};
use crate::palette::{default_palette, lemma_map_colors, MAP_COLORS, MAP_COLORS_LENGTH};

verus! {

/// Locates a value on a gradient of `segments` segments: the segment it falls
/// in, and how far into that segment it lies, in units of 1/65536.
///
/// The position is computed in 128 bits: 16 bits of value times as many
/// segments as a `usize` can count never overflow them.
#[inline]
pub fn locate(value: u16, segments: usize) -> (at: (usize, u16))
    requires
        segments >= 1,
    ensures
        at.0 == segment_of(value as int, segments as int),
        at.1 == fraction_of(value as int, segments as int),
        at.0 < segments,
{
    proof {
        lemma_locate(value as int, segments as int);
    }
    assert(value as int * segments as int <= u128::MAX) by (nonlinear_arith)
        requires
            value <= 0xFFFF,
            segments <= 0xFFFF_FFFF_FFFF_FFFF,
    ;
    let position: u128 = value as u128 * segments as u128;
    assert(position >> 16 == position / 65536) by (bit_vector);
    assert(position & 0xFFFF == position % 65536) by (bit_vector);
    let segment: usize = (position >> 16) as usize;
    let fraction: u16 = (position & 0xFFFF) as u16;
    (segment, fraction)
}

/// Blends one channel: the level `fraction`/65536 of the way from `from` to
/// `to`, rounded toward negative infinity.
#[inline]
pub fn blend_channel(from: u32, to: u32, fraction: u16) -> (level: u32)
    requires
        from <= LEVEL_MAX,
        to <= LEVEL_MAX,
    ensures
        level == blend(from as int, to as int, fraction as int),
        level <= LEVEL_MAX,
{
    proof {
        lemma_blend_between(from as int, to as int, fraction as int);
    }
    let delta: i32 = to as i32 - from as i32;
    assert(-16_711_425 <= delta * fraction <= 16_711_425) by (nonlinear_arith)
        requires
            -255 <= delta <= 255,
            0 <= fraction <= 65535,
    ;
    let part: i32 = delta * fraction as i32;
    assert(part >> 16 == part as int / 65536) by (bit_vector);
    let contribution: i32 = part >> 16;
    (from as i32 + contribution) as u32
}

/// Mixes the colours of two palette stops into an opaque pixel.
#[inline]
pub fn mix(target: u32, next: u32, fraction: u16) -> (color: u32)
    ensures
        color == mixed(target, next, fraction as int),
        pixel_alpha(color as int) == OPAQUE,
{
    let r: u32 = blend_channel(red(target), red(next), fraction);
    let g: u32 = blend_channel(green(target), green(next), fraction);
    let b: u32 = blend_channel(blue(target), blue(next), fraction);
    pix(r, g, b)
}

/// Gets the colour of a point with the given value, using the default
/// palette.
pub fn get_color(value: u16) -> (color: u32)
    ensures
        color == color_at(default_palette(), value as int),
        pixel_alpha(color as int) == OPAQUE,
{
    proof {
        lemma_map_colors();
        lemma_color_in_segment(default_palette(), value as int);
    }
    let (segment, fraction): (usize, u16) = locate(value, MAP_COLORS_LENGTH - 1);
    let target: u32 = MAP_COLORS[segment];
    let next: u32 = MAP_COLORS[segment + 1];
    mix(target, next, fraction)
}

/// Gets the colour of a point with the given value, using the caller's
/// palette of at least two stops.
pub fn get_color_custom<const X: usize>(value: u16, palette: [u32; X]) -> (color: u32)
    requires
        X >= 2,
    ensures
        color == color_at(palette@, value as int),
        pixel_alpha(color as int) == OPAQUE,
{
    proof {
        lemma_color_in_segment(palette@, value as int);
    }
    let (segment, fraction): (usize, u16) = locate(value, X - 1);
    let target: u32 = palette[segment];
    let next: u32 = palette[segment + 1];
    mix(target, next, fraction)
}

/// Gets the colours of eight points at once, using the default palette:
/// entry by entry what `get_color` gives.
pub fn get_color_block(values: [u16; 8], buf: &mut [u32; 8])
    ensures
        forall|i: int|
            0 <= i < 8 ==> #[trigger] final(buf)@[i] == color_at(
                default_palette(),
                values@[i] as int,
            ),
        forall|i: int| 0 <= i < 8 ==> pixel_alpha(#[trigger] final(buf)@[i] as int) == OPAQUE,
{
    for i in 0usize..8
        invariant
            forall|j: int|
                0 <= j < i ==> #[trigger] buf@[j] == color_at(
                    default_palette(),
                    values@[j] as int,
                ),
            forall|j: int| 0 <= j < i ==> pixel_alpha(#[trigger] buf@[j] as int) == OPAQUE,
    {
        proof {
            lemma_map_colors();
            lemma_color_in_segment(default_palette(), values@[i as int] as int);
        }
        let (segment, fraction): (usize, u16) = locate(values[i], MAP_COLORS_LENGTH - 1);
        let target: u32 = MAP_COLORS[segment];
        let next: u32 = MAP_COLORS[segment + 1];
        buf[i] = mix(target, next, fraction);
    }
}

/// Gets the colours of eight points at once, using the caller's palette of at
/// least two stops: entry by entry what `get_color_custom` gives.
pub fn get_color_block_custom<const X: usize>(
    values: [u16; 8],
    buf: &mut [u32; 8],
    palette: [u32; X],
)
    requires
        X >= 2,
    ensures
        forall|i: int|
            0 <= i < 8 ==> #[trigger] final(buf)@[i] == color_at(palette@, values@[i] as int),
        forall|i: int| 0 <= i < 8 ==> pixel_alpha(#[trigger] final(buf)@[i] as int) == OPAQUE,
{
    for i in 0usize..8
        invariant
            X >= 2,
            forall|j: int|
                0 <= j < i ==> #[trigger] buf@[j] == color_at(palette@, values@[j] as int),
            forall|j: int| 0 <= j < i ==> pixel_alpha(#[trigger] buf@[j] as int) == OPAQUE,
    {
        proof {
            lemma_color_in_segment(palette@, values@[i as int] as int);
        }
        let (segment, fraction): (usize, u16) = locate(values[i], X - 1);
        let target: u32 = palette[segment];
        let next: u32 = palette[segment + 1];
        buf[i] = mix(target, next, fraction);
    }
}

} // verus!
