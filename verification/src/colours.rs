//! The colour palette of the coloured debug view, and the choice of colour
//! and bit glyphs for each state.
use crate::circle::Circle;
use crate::scalar::Scalar;
use vstd::prelude::*;

verus! {

/// An RGB colour (red, green, blue), each component 0-255.
#[derive(Clone, Copy, Debug)]
pub struct ColourScheme {
    pub colour: [u8; 3],
}

/// One colour for each state of a value and for the two kinds of exponent.
#[derive(Clone, Copy, Debug)]
pub struct ScalarColours {
    /// Normal positive values: light red.
    pub normal_positive: ColourScheme,
    /// Normal negative values: light blue.
    pub normal_negative: ColourScheme,
    /// Exploded positive values: bright red.
    pub exploded_positive: ColourScheme,
    /// Exploded negative values: bright blue.
    pub exploded_negative: ColourScheme,
    /// Vanished positive values: bright red.
    pub vanished_positive: ColourScheme,
    /// Vanished negative values: bright blue.
    pub vanished_negative: ColourScheme,
    /// Zero: light green.
    pub zero: ColourScheme,
    /// Undefined states: light magenta.
    pub undefined: ColourScheme,
    /// Positive (integer) exponents: light yellow.
    pub integer_exponent: ColourScheme,
    /// Negative (fractional) exponents: light cyan.
    pub fractional_exponent: ColourScheme,
}

/// The colour with the given components.
pub open spec fn rgb(r: u8, g: u8, b: u8) -> Seq<u8> {
    seq![r, g, b]
}

/// Which palette entry a state takes.
pub enum Shade {
    NormalPositive,
    NormalNegative,
    ExplodedPositive,
    ExplodedNegative,
    VanishedPositive,
    VanishedNegative,
    Zero,
    Undefined,
}

/// The palette colour of each entry.
pub open spec fn shade_rgb(s: Shade) -> Seq<u8> {
    match s {
        Shade::NormalPositive => rgb(0xff, 0x80, 0x80),
        Shade::NormalNegative => rgb(0x80, 0x80, 0xff),
        Shade::ExplodedPositive => rgb(0xff, 0x00, 0x00),
        Shade::ExplodedNegative => rgb(0x00, 0x00, 0xff),
        Shade::VanishedPositive => rgb(0xff, 0x00, 0x00),
        Shade::VanishedNegative => rgb(0x00, 0x00, 0xff),
        Shade::Zero => rgb(0x80, 0xff, 0x80),
        Shade::Undefined => rgb(0xff, 0x80, 0xff),
    }
}

/// The state a Scalar is coloured by.
pub open spec fn scalar_shade(x: Scalar) -> Shade {
    if x.normal_s() {
        if x.negative_s() {
            Shade::NormalNegative
        } else {
            Shade::NormalPositive
        }
    } else if x.undefined_s() {
        Shade::Undefined
    } else if x.vanished_s() {
        if x.negative_s() {
            Shade::VanishedNegative
        } else {
            Shade::VanishedPositive
        }
    } else if x.exploded_s() {
        if x.negative_s() {
            Shade::ExplodedNegative
        } else {
            Shade::ExplodedPositive
        }
    } else {
        Shade::Zero
    }
}

/// The state one part of a Circle is coloured by, from that part's sign.
pub open spec fn circle_shade(c: Circle, f: i32) -> Shade {
    if c.normal_c() {
        if f < 0 {
            Shade::NormalNegative
        } else {
            Shade::NormalPositive
        }
    } else if c.undefined_c() {
        Shade::Undefined
    } else if c.n2_c() {
        if f < 0 {
            Shade::VanishedNegative
        } else {
            Shade::VanishedPositive
        }
    } else if c.exploded_c() {
        if f < 0 {
            Shade::ExplodedNegative
        } else {
            Shade::ExplodedPositive
        }
    } else {
        Shade::Zero
    }
}

fn scheme(r: u8, g: u8, b: u8) -> (s: ColourScheme)
    ensures
        s.colour@ == rgb(r, g, b),
{
    let s = ColourScheme { colour: [r, g, b] };
    assert(s.colour@ =~= rgb(r, g, b));
    s
}

/// The palette.
pub fn colours() -> (p: ScalarColours)
    ensures
        p.normal_positive.colour@ == shade_rgb(Shade::NormalPositive),
        p.normal_negative.colour@ == shade_rgb(Shade::NormalNegative),
        p.exploded_positive.colour@ == shade_rgb(Shade::ExplodedPositive),
        p.exploded_negative.colour@ == shade_rgb(Shade::ExplodedNegative),
        p.vanished_positive.colour@ == shade_rgb(Shade::VanishedPositive),
        p.vanished_negative.colour@ == shade_rgb(Shade::VanishedNegative),
        p.zero.colour@ == shade_rgb(Shade::Zero),
        p.undefined.colour@ == shade_rgb(Shade::Undefined),
        p.integer_exponent.colour@ == rgb(0xff, 0xff, 0x80),
        p.fractional_exponent.colour@ == rgb(0x80, 0xff, 0xff),
{
    ScalarColours {
        normal_positive: scheme(0xff, 0x80, 0x80),
        normal_negative: scheme(0x80, 0x80, 0xff),
        exploded_positive: scheme(0xff, 0x00, 0x00),
        exploded_negative: scheme(0x00, 0x00, 0xff),
        vanished_positive: scheme(0xff, 0x00, 0x00),
        vanished_negative: scheme(0x00, 0x00, 0xff),
        zero: scheme(0x80, 0xff, 0x80),
        undefined: scheme(0xff, 0x80, 0xff),
        integer_exponent: scheme(0xff, 0xff, 0x80),
        fractional_exponent: scheme(0x80, 0xff, 0xff),
    }
}

fn shade_scheme(s: Shade) -> (c: ColourScheme)
    ensures
        c.colour@ == shade_rgb(s),
{
    let p = colours();
    match s {
        Shade::NormalPositive => p.normal_positive,
        Shade::NormalNegative => p.normal_negative,
        Shade::ExplodedPositive => p.exploded_positive,
        Shade::ExplodedNegative => p.exploded_negative,
        Shade::VanishedPositive => p.vanished_positive,
        Shade::VanishedNegative => p.vanished_negative,
        Shade::Zero => p.zero,
        Shade::Undefined => p.undefined,
    }
}

/// The glyphs for clear and set bits: squares for normal values, triangles
/// for undefined states, `0` and `|` for zero, circles otherwise.
pub open spec fn glyphs(normal: bool, undefined: bool, zero: bool) -> (char, char) {
    if normal {
        ('□', '■')
    } else if undefined {
        ('▵', '▴')
    } else if zero {
        ('0', '|')
    } else {
        ('○', '●')
    }
}

impl Scalar {
    /// The colour this Scalar is drawn in.
    pub fn get_colour_scheme(&self) -> (c: ColourScheme)
        ensures
            c.colour@ == shade_rgb(scalar_shade(*self)),
    {
        let shade = if self.is_normal() {
            if self.is_negative() {
                Shade::NormalNegative
            } else {
                Shade::NormalPositive
            }
        } else if self.is_undefined() {
            Shade::Undefined
        } else if self.vanished() {
            if self.is_negative() {
                Shade::VanishedNegative
            } else {
                Shade::VanishedPositive
            }
        } else if self.exploded() {
            if self.is_negative() {
                Shade::ExplodedNegative
            } else {
                Shade::ExplodedPositive
            }
        } else {
            Shade::Zero
        };
        shade_scheme(shade)
    }

    /// The glyphs for this Scalar's clear and set bits.
    pub fn get_binary_chars(&self) -> (r: (char, char))
        ensures
            r == glyphs(self.normal_s(), self.undefined_s(), self.zero_s()),
    {
        if self.is_normal() {
            ('□', '■')
        } else if self.is_undefined() {
            ('▵', '▴')
        } else if self.is_zero() {
            ('0', '|')
        } else {
            ('○', '●')
        }
    }
}

impl Circle {
    fn part_scheme(&self, f: i32) -> (c: ColourScheme)
        ensures
            c.colour@ == shade_rgb(circle_shade(*self, f)),
    {
        let shade = if self.is_normal() {
            if f < 0 {
                Shade::NormalNegative
            } else {
                Shade::NormalPositive
            }
        } else if self.is_undefined() {
            Shade::Undefined
        } else if self.vanished() {
            if f < 0 {
                Shade::VanishedNegative
            } else {
                Shade::VanishedPositive
            }
        } else if self.exploded() {
            if f < 0 {
                Shade::ExplodedNegative
            } else {
                Shade::ExplodedPositive
            }
        } else {
            Shade::Zero
        };
        shade_scheme(shade)
    }

    /// The colour the real part is drawn in.
    pub fn get_real_colour_scheme(&self) -> (c: ColourScheme)
        ensures
            c.colour@ == shade_rgb(circle_shade(*self, self.real)),
    {
        self.part_scheme(self.real)
    }

    /// The colour the imaginary part is drawn in.
    pub fn get_imag_colour_scheme(&self) -> (c: ColourScheme)
        ensures
            c.colour@ == shade_rgb(circle_shade(*self, self.imaginary)),
    {
        self.part_scheme(self.imaginary)
    }

    /// The glyphs for this Circle's clear and set bits.
    pub fn get_binary_chars(&self) -> (r: (char, char))
        ensures
            r == glyphs(self.normal_c(), self.undefined_c(), self.zero_c()),
    {
        if self.is_normal() {
            ('□', '■')
        } else if self.is_undefined() {
            ('▵', '▴')
        } else if self.is_zero() {
            ('0', '|')
        } else {
            ('○', '●')
        }
    }
}

} // verus!
