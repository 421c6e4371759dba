//! What holds of every gradient.
//!
//! Each statement here is proved from the model in `gradient`, the same model
//! in terms of which the interpolation functions state what they return.

use vstd::prelude::*;
use crate::channel::{
    is_own_pixel, lemma_own_pixel, lemma_pixel_injective, lemma_stop_levels, pixel_alpha,
    pixel_blue, pixel_green, pixel_red, shown, stop_blue, stop_green, stop_red, OPAQUE,
};
use crate::gradient::{
    all_levels, blues, color_at, greens, lemma_blend_near, lemma_color_channels,
    lemma_level_at_end, lemma_level_at_start, lemma_level_monotone,
    lemma_level_monotone_in_segment, lemma_level_near_stop, lemma_locate, lemma_palette_levels,
    level_at, mixed, nondecreasing, reds, segment_of,
};

verus! {

/// The two stops that a value is blended from both lie within the palette:
/// the last stop is only ever the far end of the last segment.
pub proof fn lemma_stops_in_bounds(len: int, value: int)
    requires
        len >= 2,
        0 <= value <= 65535,
    ensures
        0 <= segment_of(value, len - 1),
        segment_of(value, len - 1) + 1 <= len - 1,
{
    lemma_locate(value, len - 1);
}

/// Every pixel of a gradient is fully opaque, whatever alpha bytes the
/// palette's stops hold.
pub proof fn lemma_opaque(palette: Seq<u32>, value: int)
    requires
        palette.len() >= 2,
        0 <= value <= 65535,
    ensures
        pixel_alpha(color_at(palette, value)) == OPAQUE,
        0 <= color_at(palette, value) <= u32::MAX,
{
    lemma_color_channels(palette, value);
}

/// At value 0 a gradient shows the colour of its first stop. As a number the
/// pixel equals the stop exactly where the stop is its own pixel, since stops
/// and pixels order their bytes in opposite ways.
pub proof fn lemma_first_stop(palette: Seq<u32>)
    requires
        palette.len() >= 2,
    ensures
        color_at(palette, 0) == shown(palette[0]),
        color_at(palette, 0) == palette[0] <==> is_own_pixel(palette[0]),
{
    lemma_own_pixel(palette[0]);
    lemma_level_at_start(reds(palette));
    lemma_level_at_start(greens(palette));
    lemma_level_at_start(blues(palette));
}

/// Whether a channel that stands at `prev` on the stop before the last and at
/// `last` on the last stop is back at `last` by the greatest value, on a
/// gradient of `segments` segments. On gradients of up to 257 segments this
/// is to say that the channel does not rise into the last stop.
pub open spec fn reaches(prev: int, last: int, segments: int) -> bool {
    0 <= (prev - last) * segments < 65536
}

/// At the greatest value a gradient of at most 65536 segments shows the mix
/// from its last stop back toward the one before, by as many units of
/// 1/65536 as it has segments. That is the colour of the last stop exactly
/// when every channel reaches it, and then the very number of a last stop
/// that is its own pixel; on a gradient of at most 257 segments a channel
/// that rises into the last stop ends one level short, and every other
/// channel ends on the stop's level.
pub proof fn lemma_last_stop(palette: Seq<u32>)
    requires
        2 <= palette.len() <= 65537,
    ensures
        ({
            let segments = palette.len() - 1;
            let prev = palette[palette.len() - 2];
            let last = palette[palette.len() - 1];
            let color = color_at(palette, 65535);
            &&& color == mixed(last, prev, segments)
            &&& color == shown(last) <==> {
                &&& reaches(stop_red(prev), stop_red(last), segments)
                &&& reaches(stop_green(prev), stop_green(last), segments)
                &&& reaches(stop_blue(prev), stop_blue(last), segments)
            }
            &&& is_own_pixel(last) ==> (color == last <==> color == shown(last))
            &&& segments <= 257 ==> {
                &&& pixel_red(color) == close_level(stop_red(last), stop_red(prev), -segments)
                &&& pixel_green(color) == close_level(
                    stop_green(last),
                    stop_green(prev),
                    -segments,
                )
                &&& pixel_blue(color) == close_level(stop_blue(last), stop_blue(prev), -segments)
            }
        }),
{
    let segments = palette.len() - 1;
    let prev = palette[palette.len() - 2];
    let last = palette[palette.len() - 1];
    lemma_level_at_end(reds(palette));
    lemma_level_at_end(greens(palette));
    lemma_level_at_end(blues(palette));
    lemma_stop_levels(prev);
    lemma_stop_levels(last);
    lemma_own_pixel(last);
    lemma_color_channels(palette, 65535);
    lemma_pixel_injective(
        level_at(reds(palette), 65535),
        level_at(greens(palette), 65535),
        level_at(blues(palette), 65535),
        stop_red(last),
        stop_green(last),
        stop_blue(last),
    );
    if segments <= 257 {
        lemma_blend_near(stop_red(last), stop_red(prev), segments);
        lemma_blend_near(stop_green(last), stop_green(prev), segments);
        lemma_blend_near(stop_blue(last), stop_blue(prev), segments);
    }
}

/// How far the position of `value` lies from stop `k`, in units of 1/65536
/// of a segment; negative where the value lies before the stop.
pub open spec fn offset_from_stop(value: int, k: int, segments: int) -> int {
    value * segments - k * 65536
}

/// The scalar value that stands for stop `k` of a gradient of `segments`
/// segments: `k * 65535 / segments`, rounded to the nearest integer, a tie
/// upward.
pub open spec fn stop_value(k: int, segments: int) -> int {
    (2 * k * 65535 + segments) / (2 * segments)
}

/// The level that a channel shows within 257/65536 of a segment from a stop
/// on whose `level` it stands: the level itself on the stop, and beside it
/// wherever the channel does not fall toward the `neighbour`, the stop on the
/// value's side; one below it wherever the channel falls.
pub open spec fn close_level(level: int, neighbour: int, offset: int) -> int {
    if neighbour < level && offset != 0 {
        level - 1
    } else {
        level
    }
}

/// A level at most one below `level`, and not above it.
pub open spec fn within_one_below(found: int, level: int) -> bool {
    level - 1 <= found <= level
}

/// The stop next to stop `k` on the side of a value that lies `offset` from
/// it: the next stop at and after the stop, the previous one before it.
pub open spec fn neighbour_of(palette: Seq<u32>, k: int, offset: int) -> u32 {
    if offset >= 0 {
        palette[k + 1]
    } else {
        palette[k - 1]
    }
}

/// A value whose position lies within 257/65536 of a segment from stop `k`
/// shows every channel close to that stop's level: on it, or one below it
/// where the channel falls toward the neighbouring stop. A value whose
/// position is the stop's own shows the stop's colour.
pub proof fn lemma_near_stop(palette: Seq<u32>, value: int, k: int)
    requires
        palette.len() >= 2,
        0 <= value <= 65535,
        0 <= k <= palette.len() - 1,
        -257 <= offset_from_stop(value, k, palette.len() - 1) <= 257,
    ensures
        ({
            let offset = offset_from_stop(value, k, palette.len() - 1);
            let stop = palette[k];
            let beside = neighbour_of(palette, k, offset);
            let color = color_at(palette, value);
            &&& 0 <= k + (if offset >= 0 { 1int } else { -1int }) < palette.len()
            &&& pixel_red(color) == close_level(stop_red(stop), stop_red(beside), offset)
            &&& pixel_green(color) == close_level(stop_green(stop), stop_green(beside), offset)
            &&& pixel_blue(color) == close_level(stop_blue(stop), stop_blue(beside), offset)
            &&& within_one_below(pixel_red(color), stop_red(stop))
            &&& within_one_below(pixel_green(color), stop_green(stop))
            &&& within_one_below(pixel_blue(color), stop_blue(stop))
            &&& offset == 0 ==> color == shown(stop)
        }),
{
    lemma_color_channels(palette, value);
    lemma_palette_levels(palette);
    lemma_level_close(reds(palette), value, k);
    lemma_level_close(greens(palette), value, k);
    lemma_level_close(blues(palette), value, k);
}

/// One channel of `lemma_near_stop`.
proof fn lemma_level_close(stops: Seq<int>, value: int, k: int)
    requires
        stops.len() >= 2,
        all_levels(stops),
        0 <= value <= 65535,
        0 <= k <= stops.len() - 1,
        -257 <= offset_from_stop(value, k, stops.len() - 1) <= 257,
    ensures
        ({
            let offset = offset_from_stop(value, k, stops.len() - 1);
            &&& offset >= 0 ==> k + 1 < stops.len() && level_at(stops, value) == close_level(
                stops[k],
                stops[k + 1],
                offset,
            )
            &&& offset < 0 ==> k >= 1 && level_at(stops, value) == close_level(
                stops[k],
                stops[k - 1],
                offset,
            )
        }),
{
    let offset = offset_from_stop(value, k, stops.len() - 1);
    lemma_level_near_stop(stops, value, k);
    if offset >= 0 {
        lemma_blend_near(stops[k], stops[k + 1], offset);
    } else {
        lemma_blend_near(stops[k], stops[k - 1], -offset);
    }
}

/// The value that stands for stop `k` is a scalar, and its position lies
/// within `k + segments / 2` units of the stop: up to `k` units before it
/// because the scale ends at 65535 and not at 65536, and up to half a step
/// to either side for the rounding. Wherever `2 * k + segments` is at most
/// 514, as at every stop of a palette of up to 172 stops, that is within 257
/// units.
pub proof fn lemma_stop_value(k: int, segments: int)
    requires
        segments >= 1,
        0 <= k <= segments,
    ensures
        0 <= stop_value(k, segments) <= 65535,
        -(2 * k + segments) < 2 * offset_from_stop(stop_value(k, segments), k, segments) <= segments
            - 2 * k,
        2 * k + segments <= 514 ==> -257 <= offset_from_stop(stop_value(k, segments), k, segments)
            <= 257,
{
    let n = 2 * k * 65535 + segments;
    let d = 2 * segments;
    let v = n / d;
    assert(d * v <= n < d * v + d && 0 <= v <= 65535) by (nonlinear_arith)
        requires
            v == n / d,
            d == 2 * segments,
            segments >= 1,
            0 <= k <= segments,
            n == 2 * k * 65535 + segments,
    ;
    assert(d * v == 2 * (v * segments)) by (nonlinear_arith)
        requires
            d == 2 * segments,
    ;
}

/// The value that stands for stop `k` shows every channel on that stop's
/// level or one below it, wherever its position lies within 257/65536 of a
/// segment from the stop. Farther off, a channel that falls by 255 levels
/// toward the neighbouring stop is two or more below.
pub proof fn lemma_stop_accuracy(palette: Seq<u32>, k: int)
    requires
        palette.len() >= 2,
        0 <= k <= palette.len() - 1,
        -257 <= offset_from_stop(stop_value(k, palette.len() - 1), k, palette.len() - 1) <= 257,
    ensures
        ({
            let value = stop_value(k, palette.len() - 1);
            &&& 0 <= value <= 65535
            &&& within_one_below(pixel_red(color_at(palette, value)), stop_red(palette[k]))
            &&& within_one_below(pixel_green(color_at(palette, value)), stop_green(palette[k]))
            &&& within_one_below(pixel_blue(color_at(palette, value)), stop_blue(palette[k]))
        }),
{
    lemma_stop_value(k, palette.len() - 1);
    lemma_near_stop(palette, stop_value(k, palette.len() - 1), k);
}

/// A buffer that holds, entry by entry, the gradient's pixel at the value of
/// that entry, as the block functions leave it, holds at each entry the
/// pixel that a single-value function returns for that entry's value.
pub proof fn lemma_block_is_entrywise(
    palette: Seq<u32>,
    values: Seq<u16>,
    block: Seq<u32>,
    i: int,
    single: u32,
)
    requires
        values.len() == block.len(),
        forall|j: int|
            0 <= j < values.len() ==> #[trigger] block[j] == color_at(palette, values[j] as int),
        0 <= i < values.len(),
        single == color_at(palette, values[i] as int),
    ensures
        block[i] == single,
{
}

/// Where a channel never falls from one stop of the palette to a later one,
/// a greater value never shows less of that channel.
pub proof fn lemma_channels_monotone(palette: Seq<u32>, v1: int, v2: int)
    requires
        palette.len() >= 2,
        0 <= v1 <= v2 <= 65535,
    ensures
        nondecreasing(reds(palette)) ==> pixel_red(color_at(palette, v1)) <= pixel_red(
            color_at(palette, v2),
        ),
        nondecreasing(greens(palette)) ==> pixel_green(color_at(palette, v1)) <= pixel_green(
            color_at(palette, v2),
        ),
        nondecreasing(blues(palette)) ==> pixel_blue(color_at(palette, v1)) <= pixel_blue(
            color_at(palette, v2),
        ),
{
    lemma_color_channels(palette, v1);
    lemma_color_channels(palette, v2);
    if nondecreasing(reds(palette)) {
        lemma_level_monotone(reds(palette), v1, v2);
    }
    if nondecreasing(greens(palette)) {
        lemma_level_monotone(greens(palette), v1, v2);
    }
    if nondecreasing(blues(palette)) {
        lemma_level_monotone(blues(palette), v1, v2);
    }
}

/// Of two values in one segment the greater shows no less of a channel that
/// does not fall over that segment, and no more of one that does not rise
/// over it, whatever the palette does elsewhere.
pub proof fn lemma_channels_monotone_in_segment(palette: Seq<u32>, v1: int, v2: int)
    requires
        palette.len() >= 2,
        0 <= v1 <= v2 <= 65535,
        segment_of(v1, palette.len() - 1) == segment_of(v2, palette.len() - 1),
    ensures
        ({
            let k = segment_of(v1, palette.len() - 1);
            let from = palette[k];
            let to = palette[k + 1];
            let c1 = color_at(palette, v1);
            let c2 = color_at(palette, v2);
            &&& stop_red(from) <= stop_red(to) ==> pixel_red(c1) <= pixel_red(c2)
            &&& stop_red(from) >= stop_red(to) ==> pixel_red(c1) >= pixel_red(c2)
            &&& stop_green(from) <= stop_green(to) ==> pixel_green(c1) <= pixel_green(c2)
            &&& stop_green(from) >= stop_green(to) ==> pixel_green(c1) >= pixel_green(c2)
            &&& stop_blue(from) <= stop_blue(to) ==> pixel_blue(c1) <= pixel_blue(c2)
            &&& stop_blue(from) >= stop_blue(to) ==> pixel_blue(c1) >= pixel_blue(c2)
        }),
{
    lemma_locate(v1, palette.len() - 1);
    lemma_color_channels(palette, v1);
    lemma_color_channels(palette, v2);
    lemma_level_monotone_in_segment(reds(palette), v1, v2);
    lemma_level_monotone_in_segment(greens(palette), v1, v2);
    lemma_level_monotone_in_segment(blues(palette), v1, v2);
}

} // verus!
