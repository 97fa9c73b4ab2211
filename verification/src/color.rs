//! Colors with 8-bit channels.
use vstd::prelude::*;

verus! {

/// A color with red, green, blue and alpha channels from 0 to 255.
#[derive(Clone, Copy)]
pub struct Color256 {
    r: u8,
    g: u8,
    b: u8,
    a: u8,
}

impl Color256 {
    /// The channels, red, green, blue and alpha.
    pub closed spec fn channels(&self) -> (u8, u8, u8, u8) {
        (self.r, self.g, self.b, self.a)
    }

    pub fn from_rgba(r: u8, g: u8, b: u8, a: u8) -> (c: Self)
        ensures
            c.channels() == (r, g, b, a),
    {
        Self { r, g, b, a }
    }

    /// An opaque color.
    pub fn from_rgb(r: u8, g: u8, b: u8) -> (c: Self)
        ensures
            c.channels() == (r, g, b, 255u8),
    {
        Self::from_rgba(r, g, b, 255)
    }

    /// The channels as a tuple.
    pub fn into_tuple(self) -> (t: (u8, u8, u8, u8))
        ensures
            t == self.channels(),
    {
        (self.r, self.g, self.b, self.a)
    }
}

} // verus!
