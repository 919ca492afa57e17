use vstd::prelude::*;

verus! {

/// An sRGB color with straight alpha, each component an 8-bit fraction of 255.
#[derive(Clone, Copy, Debug, PartialEq, Eq, Structural)]
pub struct AlphaColor {
    pub r: u8,
    pub g: u8,
    pub b: u8,
    pub a: u8,
}

impl AlphaColor {
    /// Builds a color from 8-bit red, green, blue and alpha components.
    pub fn from_rgba8(r: u8, g: u8, b: u8, a: u8) -> (c: Self)
        ensures
            c.r == r,
            c.g == g,
            c.b == b,
            c.a == a,
    {
        AlphaColor { r, g, b, a }
    }

    /// The components in the order red, green, blue, alpha.
    pub fn components(&self) -> (c: [u8; 4])
        ensures
            c@ == seq![self.r, self.g, self.b, self.a],
    {
        let c = [self.r, self.g, self.b, self.a];
        assert(c@ =~= seq![self.r, self.g, self.b, self.a]);
        c
    }
}

} // verus!
