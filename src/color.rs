//! Colours of the output raster, and how an escape count becomes one.

use vstd::prelude::*;

verus! {

/// An 8-bit RGB colour.
#[derive(Clone, Copy, Debug, PartialEq, Eq, Structural)]
pub struct Color {
    pub r: u8,
    pub g: u8,
    pub b: u8,
}

impl Color {
    /// The colour as its three channels.
    pub open spec fn rgb(self) -> (u8, u8, u8) {
        (self.r, self.g, self.b)
    }
}

/// The colour of a pixel whose escape loop stopped with count `i`: the low
/// eight bits of `8 i`, `32 i` and `4 i`.
pub open spec fn color_spec(i: u32) -> (u8, u8, u8) {
    (((i * 8) % 256) as u8, ((i * 32) % 256) as u8, ((i * 4) % 256) as u8)
}

proof fn lemma_low_byte(i: int, k: int, m: int)
    requires
        k * m == 256,
        m > 0,
        i >= 0,
    ensures
        (i % m) * k == (i * k) % 256,
{
    assert((i % m) * k == (i * k) % 256) by (nonlinear_arith)
        requires
            k * m == 256,
            m > 0,
            i >= 0,
    ;
}

/// Derives the colour of a pixel from its escape count.
pub fn color_of_count(i: u32) -> (c: Color)
    ensures
        c.rgb() == color_spec(i),
{
    proof {
        lemma_low_byte(i as int, 8, 32);
        lemma_low_byte(i as int, 32, 8);
        lemma_low_byte(i as int, 4, 64);
    }
    Color { r: ((i % 32) * 8) as u8, g: ((i % 8) * 32) as u8, b: ((i % 64) * 4) as u8 }
}

} // verus!
