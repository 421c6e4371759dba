//! Fixed-point colour gradients.
//!
//! A 16-bit scalar is mapped to an opaque pixel by piecewise-linear
//! interpolation along a palette of evenly spaced colour stops, in integer
//! arithmetic throughout.
//!
//! - `channel` reads the channels of a palette stop and packs a pixel.
//! - `gradient` defines, as mathematics, the pixel that a gradient shows at
//!   a value.
//! - `palette` holds the default palette.
//! - `interpolate` computes that pixel, for one value or for eight.
//! - `laws` proves what holds of every gradient.

pub mod channel;
pub mod gradient;
pub mod interpolate;
pub mod laws;
pub mod palette;

pub use channel::{blue, green, pix, red};
pub use interpolate::{
    blend_channel, get_color, get_color_block, get_color_block_custom, get_color_custom, locate,
    mix,
};
pub use palette::{MAP_COLORS, MAP_COLORS_LENGTH};
