//! Linear colours and their packing into bytes.

use vstd::prelude::*;

verus! {

/// The alpha byte of every stored pixel: fully opaque.
pub const OPAQUE: u8 = 255;

/// A linear colour whose channels are counted in 255ths of full intensity.
///
/// Channels may lie outside `0..=255`: light that was accumulated over
/// several bounces can exceed full intensity. Packing saturates them.
#[derive(Clone, Copy, Debug, PartialEq, Eq, Structural)]
pub struct Rgb {
    pub r: i32,
    pub g: i32,
    pub b: i32,
}

/// The byte that stands for a channel value: the value itself where it fits,
/// else the nearer end of the byte range.
pub open spec fn saturated(v: int) -> u8 {
    if v < 0 {
        0u8
    } else if v > 255 {
        255u8
    } else {
        v as u8
    }
}

/// The four bytes of one stored pixel: red, green, blue, then opaque alpha.
pub open spec fn packed(c: Rgb) -> Seq<u8> {
    seq![saturated(c.r as int), saturated(c.g as int), saturated(c.b as int), OPAQUE]
}

impl Rgb {
    /// A colour from its three channels.
    pub fn new(r: i32, g: i32, b: i32) -> (c: Rgb)
        ensures
            c == (Rgb { r, g, b }),
    {
        Rgb { r, g, b }
    }

    /// A colour with the same value in every channel.
    pub fn splat(v: i32) -> (c: Rgb)
        ensures
            c == (Rgb { r: v, g: v, b: v }),
    {
        Rgb { r: v, g: v, b: v }
    }

    /// The pixel bytes of this colour, saturating each channel.
    pub fn to_bytes(&self) -> (bytes: [u8; 4])
        ensures
            bytes@ == packed(*self),
    {
        let bytes: [u8; 4] = [channel_byte(self.r), channel_byte(self.g), channel_byte(self.b), OPAQUE];
        assert(bytes@ =~= packed(*self));
        bytes
    }
}

/// Saturates a channel value into a byte. Out-of-range channels clamp; they
/// never wrap around.
pub fn channel_byte(v: i32) -> (b: u8)
    ensures
        b == saturated(v as int),
        0 <= v <= 255 ==> b == v,
        v < 0 ==> b == 0,
        v > 255 ==> b == 255,
{
    if v < 0 {
        0
    } else if v > 255 {
        255
    } else {
        v as u8
    }
}

} // verus!
