//! Colors in two forms: an 8-bit-per-channel RGBA pixel, and an exact
//! fixed-point RGBA value whose channels are numerators over [`SCALE`],
//! standing for a value in [0, 1]. The scale is 255 * 256, so that every
//! 8-bit channel `b` converts exactly to `b / 255 == (b * 256) / SCALE`.

use vstd::prelude::*;

verus! {

/// Denominator of the fixed-point channel representation: 255 * 256.
pub const SCALE: u32 = 65280;

/// An RGBA pixel with 8-bit channels.
#[derive(Clone, Copy, Debug, PartialEq, Eq, Structural)]
pub struct Color8 {
    pub r: u8,
    pub g: u8,
    pub b: u8,
    pub a: u8,
}

/// An RGBA color with exact fixed-point channels: each channel holds a
/// numerator over [`SCALE`] and stands for a value in [0, 1].
#[derive(Clone, Copy, Debug, PartialEq, Eq, Structural)]
pub struct Color {
    pub r: u32,
    pub g: u32,
    pub b: u32,
    pub a: u32,
}

impl Color {
    /// Every channel stands for a value in [0, 1].
    pub open spec fn wf(self) -> bool {
        self.r <= SCALE && self.g <= SCALE && self.b <= SCALE && self.a <= SCALE
    }
}

/// The fixed-point value of an 8-bit channel: `b / 255` scaled by `SCALE`.
pub open spec fn channel_of_byte(b: u8) -> u32 {
    (b * 256) as u32
}

/// The 8-bit value of a fixed-point channel: `floor(v * 255 / SCALE)`,
/// which is `floor(v / 256)`.
pub open spec fn byte_of_channel(v: u32) -> u8
    recommends
        v <= SCALE,
{
    (v / 256) as u8
}

/// The exact fixed-point form of an 8-bit pixel.
pub open spec fn spec_color_of_byte(c: Color8) -> Color {
    Color {
        r: channel_of_byte(c.r),
        g: channel_of_byte(c.g),
        b: channel_of_byte(c.b),
        a: channel_of_byte(c.a),
    }
}

/// The 8-bit form of a fixed-point color.
pub open spec fn spec_byte_of_color(c: Color) -> Color8
    recommends
        c.wf(),
{
    Color8 {
        r: byte_of_channel(c.r),
        g: byte_of_channel(c.g),
        b: byte_of_channel(c.b),
        a: byte_of_channel(c.a),
    }
}

/// Converts an 8-bit pixel to its exact fixed-point form.
pub fn color_of_byte(c: Color8) -> (out: Color)
    ensures
        out == spec_color_of_byte(c),
        out.wf(),
{
    Color {
        r: c.r as u32 * 256,
        g: c.g as u32 * 256,
        b: c.b as u32 * 256,
        a: c.a as u32 * 256,
    }
}

/// Converts a fixed-point color back to an 8-bit pixel.
pub fn byte_of_color(c: Color) -> (out: Color8)
    requires
        c.wf(),
    ensures
        out == spec_byte_of_color(c),
{
    Color8 { r: (c.r / 256) as u8, g: (c.g / 256) as u8, b: (c.b / 256) as u8, a: (c.a / 256) as u8 }
}

/// Converting an 8-bit pixel to fixed point and back returns the same pixel:
/// the conversions are exact on 8-bit values.
pub proof fn lemma_byte_round_trip(c: Color8)
    ensures
        spec_byte_of_color(spec_color_of_byte(c)) == c,
{
}

} // verus!
