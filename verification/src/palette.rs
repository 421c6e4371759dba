//! The default palette.

use vstd::prelude::*;

verus! {

/// The number of stops in the default palette.
pub const MAP_COLORS_LENGTH: usize = 7;

/// The default palette: black, blue, cyan, green, yellow, red, white, each
/// fully opaque.
pub const MAP_COLORS: [u32; MAP_COLORS_LENGTH] = [
    0x000000FF,  // black
    0x0000FFFF,  // blue
    0x00FFFFFF,  // cyan
    0x00FF00FF,  // green
    0xFFFF00FF,  // yellow
    0xFF0000FF,  // red
    0xFFFFFFFF,  // white
];

/// The stops of the default palette, in order.
pub open spec fn default_palette() -> Seq<u32> {
    seq![
        0x000000FFu32,
        0x0000FFFFu32,
        0x00FFFFFFu32,
        0x00FF00FFu32,
        0xFFFF00FFu32,
        0xFF0000FFu32,
        0xFFFFFFFFu32,
    ]
}

/// The constant holds exactly the stops of the default palette.
pub proof fn lemma_map_colors()
    ensures
        MAP_COLORS@ == default_palette(),
        default_palette().len() == MAP_COLORS_LENGTH,
{
    assert(MAP_COLORS@ =~= default_palette());
}

} // verus!
