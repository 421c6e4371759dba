//! The gradient as mathematics.
//!
//! A palette of `n` stops spans `n - 1` segments of equal width. A scalar
//! `value` from 0 to 65535 is scaled to the fixed-point position
//! `value * segments`, whose whole part (position / 65536) names the segment
//! and whose remainder is the fraction of the way through it, in units of
//! 1/65536. Each channel is blended on its own between the two stops that
//! bound the segment, rounding toward negative infinity.

use vstd::prelude::*;
use crate::channel::{
    is_level, lemma_pixel_channels, pixel, pixel_alpha, pixel_blue, pixel_green, pixel_red,
    stop_blue, stop_green, stop_red, OPAQUE,
};

verus! {

/// The segment in which `value` falls on a gradient of `segments` segments.
pub open spec fn segment_of(value: int, segments: int) -> int {
    (value * segments) / 65536
}

/// How far into its segment `value` lies, in units of 1/65536.
pub open spec fn fraction_of(value: int, segments: int) -> int {
    (value * segments) % 65536
}

/// The level `fraction`/65536 of the way from `from` to `to`, rounded toward
/// negative infinity.
pub open spec fn blend(from: int, to: int, fraction: int) -> int {
    from + ((to - from) * fraction) / 65536
}

/// The level of one channel at `value`, given that channel's level at every
/// stop.
pub open spec fn level_at(stops: Seq<int>, value: int) -> int
    recommends
        stops.len() >= 2,
        0 <= value <= 65535,
{
    let segments = stops.len() - 1;
    let k = segment_of(value, segments);
    blend(stops[k], stops[k + 1], fraction_of(value, segments))
}

/// The red levels of a palette, stop by stop.
pub open spec fn reds(palette: Seq<u32>) -> Seq<int> {
    Seq::new(palette.len(), |i: int| stop_red(palette[i]))
}

/// The green levels of a palette, stop by stop.
pub open spec fn greens(palette: Seq<u32>) -> Seq<int> {
    Seq::new(palette.len(), |i: int| stop_green(palette[i]))
}

/// The blue levels of a palette, stop by stop.
pub open spec fn blues(palette: Seq<u32>) -> Seq<int> {
    Seq::new(palette.len(), |i: int| stop_blue(palette[i]))
}

/// The pixel that the gradient over `palette` shows at `value`.
pub open spec fn color_at(palette: Seq<u32>, value: int) -> int
    recommends
        palette.len() >= 2,
        0 <= value <= 65535,
{
    pixel(
        level_at(reds(palette), value),
        level_at(greens(palette), value),
        level_at(blues(palette), value),
    )
}

/// The pixel `fraction`/65536 of the way from the colour of stop `from` to
/// that of stop `to`, each channel blended on its own.
pub open spec fn mixed(from: u32, to: u32, fraction: int) -> int {
    pixel(
        blend(stop_red(from), stop_red(to), fraction),
        blend(stop_green(from), stop_green(to), fraction),
        blend(stop_blue(from), stop_blue(to), fraction),
    )
}

/// Every entry is a channel level.
pub open spec fn all_levels(stops: Seq<int>) -> bool {
    forall|i: int| 0 <= i < stops.len() ==> is_level(#[trigger] stops[i])
}

/// The levels never fall from one stop to a later one.
pub open spec fn nondecreasing(stops: Seq<int>) -> bool {
    forall|i: int, j: int| 0 <= i <= j < stops.len() ==> stops[i] <= stops[j]
}

/// The position of a value splits into a segment that exists and a proper
/// fraction.
pub proof fn lemma_locate(value: int, segments: int)
    requires
        0 <= value <= 65535,
        segments >= 1,
    ensures
        0 <= segment_of(value, segments) < segments,
        0 <= fraction_of(value, segments) < 65536,
        value * segments == segment_of(value, segments) * 65536 + fraction_of(value, segments),
{
    let position = value * segments;
    assert(0 <= position <= 65535 * segments) by (nonlinear_arith)
        requires
            0 <= value <= 65535,
            segments >= 1,
            position == value * segments,
    ;
}

/// A blend lies between its two ends, and short of the far end unless the
/// ends are level.
pub proof fn lemma_blend_between(from: int, to: int, fraction: int)
    requires
        0 <= fraction < 65536,
    ensures
        from <= to ==> from <= blend(from, to, fraction) <= to,
        to <= from ==> to <= blend(from, to, fraction) <= from,
        from < to ==> blend(from, to, fraction) < to,
        fraction == 0 ==> blend(from, to, fraction) == from,
{
    let rise = to - from;
    let part = rise * fraction;
    assert(rise >= 0 ==> 0 <= part <= rise * 65535) by (nonlinear_arith)
        requires
            0 <= fraction < 65536,
            part == rise * fraction,
    ;
    assert(rise <= 0 ==> rise * 65535 <= part <= 0) by (nonlinear_arith)
        requires
            0 <= fraction < 65536,
            part == rise * fraction,
    ;
    assert(fraction == 0 ==> part == 0) by (nonlinear_arith)
        requires
            part == rise * fraction,
    ;
}

/// Between rising ends a blend rises with the fraction; between falling ends
/// it falls.
pub proof fn lemma_blend_monotone(from: int, to: int, f1: int, f2: int)
    requires
        0 <= f1 <= f2,
    ensures
        from <= to ==> blend(from, to, f1) <= blend(from, to, f2),
        to <= from ==> blend(from, to, f1) >= blend(from, to, f2),
{
    let rise = to - from;
    let p1 = rise * f1;
    let p2 = rise * f2;
    assert(rise >= 0 ==> p1 <= p2) by (nonlinear_arith)
        requires
            0 <= f1 <= f2,
            p1 == rise * f1,
            p2 == rise * f2,
    ;
    assert(rise <= 0 ==> p1 >= p2) by (nonlinear_arith)
        requires
            0 <= f1 <= f2,
            p1 == rise * f1,
            p2 == rise * f2,
    ;
}

/// Blending forward by a fraction is blending backward by what is left of
/// the segment: the rounding is the same seen from either end.
pub proof fn lemma_blend_mirror(from: int, to: int, fraction: int)
    ensures
        blend(from, to, 65536 - fraction) == blend(to, from, fraction),
{
    let forward = (to - from) * (65536 - fraction);
    let backward = (from - to) * fraction;
    assert(forward == (to - from) * 65536 + backward) by (nonlinear_arith)
        requires
            forward == (to - from) * (65536 - fraction),
            backward == (from - to) * fraction,
    ;
}

/// Within 257/65536 of a segment's start, a blend of levels is the level at
/// the start, or one below it where the levels fall.
pub proof fn lemma_blend_near(from: int, to: int, fraction: int)
    requires
        is_level(from),
        is_level(to),
        0 <= fraction <= 257,
    ensures
        blend(from, to, fraction) == if to < from && fraction > 0 {
            from - 1
        } else {
            from
        },
{
    let rise = to - from;
    let part = rise * fraction;
    assert(rise >= 0 ==> 0 <= part <= 65535) by (nonlinear_arith)
        requires
            rise <= 255,
            0 <= fraction <= 257,
            part == rise * fraction,
    ;
    assert(rise < 0 && fraction > 0 ==> -65535 <= part < 0) by (nonlinear_arith)
        requires
            rise >= -255,
            0 <= fraction <= 257,
            part == rise * fraction,
    ;
    assert(fraction == 0 ==> part == 0) by (nonlinear_arith)
        requires
            part == rise * fraction,
    ;
}

/// A value's level lies between the levels of the two stops that bound its
/// segment, so a channel of levels is blended into levels.
pub proof fn lemma_level_between(stops: Seq<int>, value: int)
    requires
        stops.len() >= 2,
        0 <= value <= 65535,
    ensures
        ({
            let k = segment_of(value, stops.len() - 1);
            &&& 0 <= k < stops.len() - 1
            &&& stops[k] <= stops[k + 1] ==> stops[k] <= level_at(stops, value) <= stops[k + 1]
            &&& stops[k + 1] <= stops[k] ==> stops[k + 1] <= level_at(stops, value) <= stops[k]
        }),
        all_levels(stops) ==> is_level(level_at(stops, value)),
{
    let segments = stops.len() - 1;
    let k = segment_of(value, segments);
    lemma_locate(value, segments);
    lemma_blend_between(stops[k], stops[k + 1], fraction_of(value, segments));
}

/// At value 0 a channel has the level of the first stop.
pub proof fn lemma_level_at_start(stops: Seq<int>)
    requires
        stops.len() >= 2,
    ensures
        level_at(stops, 0) == stops[0],
{
    lemma_blend_between(stops[0], stops[1], 0);
}

/// A value whose position lies within one segment of stop `k` has the level
/// blended from that stop toward its neighbour on the value's side, by the
/// distance between the position and the stop.
pub proof fn lemma_level_near_stop(stops: Seq<int>, value: int, k: int)
    requires
        stops.len() >= 2,
        0 <= value <= 65535,
        0 <= k <= stops.len() - 1,
        -65536 <= value * (stops.len() - 1) - k * 65536 < 65536,
    ensures
        ({
            let offset = value * (stops.len() - 1) - k * 65536;
            &&& offset >= 0 ==> k + 1 < stops.len() && level_at(stops, value) == blend(
                stops[k],
                stops[k + 1],
                offset,
            )
            &&& offset < 0 ==> k >= 1 && level_at(stops, value) == blend(
                stops[k],
                stops[k - 1],
                -offset,
            )
        }),
{
    let segments = stops.len() - 1;
    let offset = value * segments - k * 65536;
    lemma_locate(value, segments);
    if offset < 0 {
        lemma_blend_mirror(stops[k - 1], stops[k], -offset);
    }
}

/// At the greatest value, on a gradient of at most 65536 segments, a channel
/// has the level blended from the last stop back toward the one before it, by
/// as many units of 1/65536 as the gradient has segments.
pub proof fn lemma_level_at_end(stops: Seq<int>)
    requires
        2 <= stops.len() <= 65537,
    ensures
        segment_of(65535, stops.len() - 1) == stops.len() - 2,
        fraction_of(65535, stops.len() - 1) == 65536 - (stops.len() - 1),
        level_at(stops, 65535) == blend(
            stops[stops.len() - 1],
            stops[stops.len() - 2],
            stops.len() - 1,
        ),
{
    lemma_locate(65535, stops.len() - 1);
    lemma_level_near_stop(stops, 65535, stops.len() - 1);
}

/// Two values in one segment: where the segment rises, the greater value has
/// the greater or equal level; where it falls, the lesser or equal one.
pub proof fn lemma_level_monotone_in_segment(stops: Seq<int>, v1: int, v2: int)
    requires
        stops.len() >= 2,
        0 <= v1 <= v2 <= 65535,
        segment_of(v1, stops.len() - 1) == segment_of(v2, stops.len() - 1),
    ensures
        ({
            let k = segment_of(v1, stops.len() - 1);
            &&& stops[k] <= stops[k + 1] ==> level_at(stops, v1) <= level_at(stops, v2)
            &&& stops[k + 1] <= stops[k] ==> level_at(stops, v1) >= level_at(stops, v2)
        }),
{
    let segments = stops.len() - 1;
    let k = segment_of(v1, segments);
    lemma_locate(v1, segments);
    lemma_locate(v2, segments);
    lemma_positions_ordered(v1, v2, segments);
    lemma_blend_monotone(
        stops[k],
        stops[k + 1],
        fraction_of(v1, segments),
        fraction_of(v2, segments),
    );
}

/// Along stops that never fall, the level never falls as the value grows.
pub proof fn lemma_level_monotone(stops: Seq<int>, v1: int, v2: int)
    requires
        stops.len() >= 2,
        nondecreasing(stops),
        0 <= v1 <= v2 <= 65535,
    ensures
        level_at(stops, v1) <= level_at(stops, v2),
{
    let segments = stops.len() - 1;
    let k1 = segment_of(v1, segments);
    let k2 = segment_of(v2, segments);
    lemma_locate(v1, segments);
    lemma_locate(v2, segments);
    lemma_positions_ordered(v1, v2, segments);
    if k1 == k2 {
        lemma_level_monotone_in_segment(stops, v1, v2);
    } else {
        lemma_level_between(stops, v1);
        lemma_level_between(stops, v2);
    }
}

/// Positions keep the order of their values.
proof fn lemma_positions_ordered(v1: int, v2: int, segments: int)
    requires
        0 <= v1 <= v2,
        segments >= 1,
    ensures
        v1 * segments <= v2 * segments,
{
    assert(v1 * segments <= v2 * segments) by (nonlinear_arith)
        requires
            0 <= v1 <= v2,
            segments >= 1,
    ;
}

/// The channels of a palette hold levels at every stop.
pub proof fn lemma_palette_levels(palette: Seq<u32>)
    ensures
        reds(palette).len() == palette.len(),
        greens(palette).len() == palette.len(),
        blues(palette).len() == palette.len(),
        all_levels(reds(palette)),
        all_levels(greens(palette)),
        all_levels(blues(palette)),
{
}

/// A gradient's pixel is a 32-bit value whose red, green and blue levels are
/// those of the three channels, each blended on its own, under an opaque
/// alpha byte.
pub proof fn lemma_color_channels(palette: Seq<u32>, value: int)
    requires
        palette.len() >= 2,
        0 <= value <= 65535,
    ensures
        0xFF00_0000 <= color_at(palette, value) <= u32::MAX,
        pixel_red(color_at(palette, value)) == level_at(reds(palette), value),
        pixel_green(color_at(palette, value)) == level_at(greens(palette), value),
        pixel_blue(color_at(palette, value)) == level_at(blues(palette), value),
        pixel_alpha(color_at(palette, value)) == OPAQUE,
        is_level(level_at(reds(palette), value)),
        is_level(level_at(greens(palette), value)),
        is_level(level_at(blues(palette), value)),
{
    lemma_palette_levels(palette);
    lemma_level_between(reds(palette), value);
    lemma_level_between(greens(palette), value);
    lemma_level_between(blues(palette), value);
    lemma_pixel_channels(
        level_at(reds(palette), value),
        level_at(greens(palette), value),
        level_at(blues(palette), value),
    );
}

/// A gradient's pixel is the mix of the two stops that bound the value's
/// segment, both of which the palette holds.
pub proof fn lemma_color_in_segment(palette: Seq<u32>, value: int)
    requires
        palette.len() >= 2,
        0 <= value <= 65535,
    ensures
        ({
            let segments = palette.len() - 1;
            let k = segment_of(value, segments);
            &&& 0 <= k
            &&& k + 1 < palette.len()
            &&& color_at(palette, value) == mixed(
                palette[k],
                palette[k + 1],
                fraction_of(value, segments),
            )
        }),
{
    lemma_locate(value, palette.len() - 1);
}

} // verus!
