use vstd::prelude::*;

verus! {

/// An 8-bit RGBA color.
#[derive(Clone, Copy, Debug, PartialEq, Eq, Structural)]
pub struct Color {
    pub r: u8,
    pub g: u8,
    pub b: u8,
    pub a: u8,
}

/// One channel of a tint: `x * y / 255`, rounded down.
pub open spec fn tint_channel(x: u8, y: u8) -> u8 {
    ((x as int * y as int) / 255) as u8
}

/// The tint of `c` by `t`, channel by channel.
pub open spec fn tint_spec(c: Color, t: Color) -> Color {
    Color {
        r: tint_channel(c.r, t.r),
        g: tint_channel(c.g, t.g),
        b: tint_channel(c.b, t.b),
        a: tint_channel(c.a, t.a),
    }
}

pub open spec fn white_spec() -> Color {
    Color { r: 255, g: 255, b: 255, a: 255 }
}

fn tint_u8(x: u8, y: u8) -> (r: u8)
    ensures
        r == tint_channel(x, y),
{
    assert(x as int * y as int <= 255 * 255) by (nonlinear_arith)
        requires
            x <= 255,
            y <= 255,
    ;
    let p: u16 = x as u16 * y as u16;
    (p / 255) as u8
}

impl Color {
    pub fn new(r: u8, g: u8, b: u8, a: u8) -> (c: Color)
        ensures
            c == (Color { r, g, b, a }),
    {
        Color { r, g, b, a }
    }

    /// Opaque white, the tint that changes nothing.
    pub fn white() -> (c: Color)
        ensures
            c == white_spec(),
    {
        Color { r: 255, g: 255, b: 255, a: 255 }
    }

    /// Multiplies each channel by the matching channel of `t`, scaled to
    /// `0..=255` and rounded down.
    pub fn tint(self, t: Color) -> (c: Color)
        ensures
            c == tint_spec(self, t),
    {
        Color {
            r: tint_u8(self.r, t.r),
            g: tint_u8(self.g, t.g),
            b: tint_u8(self.b, t.b),
            a: tint_u8(self.a, t.a),
        }
    }
}

/// Tinting white by `t` gives `t`.
pub proof fn lemma_tint_white(t: Color)
    ensures
        tint_spec(white_spec(), t) == t,
{
    assert forall|y: u8| tint_channel(255u8, y) == y by {
        assert((255 * y as int) / 255 == y as int) by (nonlinear_arith);
    }
}

/// A tint does not depend on which side each color stands.
pub proof fn lemma_tint_commutes(c: Color, t: Color)
    ensures
        tint_spec(c, t) == tint_spec(t, c),
{
    assert forall|x: u8, y: u8| tint_channel(x, y) == tint_channel(y, x) by {
        assert(x as int * y as int == y as int * x as int) by (nonlinear_arith);
    }
}

} // verus!
