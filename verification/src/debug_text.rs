//! The debug views of Scalars and Circles: the raw fraction and exponent
//! bits, plain or coloured with ANSI escape sequences.
use crate::circle::Circle;
use crate::colours::{circle_shade, colours, glyphs, rgb, scalar_shade, shade_rgb, ColourScheme};
use crate::scalar::Scalar;
use vstd::prelude::*;

verus! {

/// Bit `i` of a `width`-bit word, counted from the most significant (0).
pub open spec fn bit_of(x: u32, width: u32, i: int) -> bool {
    (x >> ((width - 1 - i) as u32)) & 1u32 == 1u32
}

/// The characters for bit `b` of a `width`-bit word: a gap before the
/// middle bit of a wide word (two spaces or one), the bit's glyph, and a
/// space after the first bit and after each byte.
pub open spec fn bit_piece(x: u32, width: u32, b: int, zero: char, one: char, wide_gap: bool) -> Seq<
    char,
> {
    (if width != 8 && b == width / 2 {
        if wide_gap {
            seq![' ', ' ']
        } else {
            seq![' ']
        }
    } else {
        Seq::empty()
    }) + seq![
        if bit_of(x, width, b) {
            one
        } else {
            zero
        },
    ] + (if b % 8 == 7 || b == 0 {
        seq![' ']
    } else {
        Seq::empty()
    })
}

/// The characters for the first `n` bits of a `width`-bit word.
pub open spec fn bits_text(x: u32, width: u32, n: nat, zero: char, one: char, wide_gap: bool) -> Seq<
    char,
>
    decreases n,
{
    if n == 0 {
        Seq::empty()
    } else {
        bits_text(x, width, (n - 1) as nat, zero, one, wide_gap) + bit_piece(
            x,
            width,
            n - 1,
            zero,
            one,
            wide_gap,
        )
    }
}

/// A decimal digit.
pub open spec fn digit_char(d: int) -> char {
    if d == 0 {
        '0'
    } else if d == 1 {
        '1'
    } else if d == 2 {
        '2'
    } else if d == 3 {
        '3'
    } else if d == 4 {
        '4'
    } else if d == 5 {
        '5'
    } else if d == 6 {
        '6'
    } else if d == 7 {
        '7'
    } else if d == 8 {
        '8'
    } else {
        '9'
    }
}

/// A byte in decimal, without leading zeros.
pub open spec fn dec_text(n: u8) -> Seq<char> {
    if n < 10 {
        seq![digit_char(n as int)]
    } else if n < 100 {
        seq![digit_char((n / 10) as int), digit_char((n % 10) as int)]
    } else {
        seq![
            digit_char((n / 100) as int),
            digit_char(((n / 10) % 10) as int),
            digit_char((n % 10) as int),
        ]
    }
}

/// The ANSI escape sequence that sets a 24-bit foreground colour.
pub open spec fn colour_text(c: Seq<u8>) -> Seq<char> {
    seq!['\x1B', '[', '3', '8', ';', '2', ';'] + dec_text(c[0]) + seq![';'] + dec_text(c[1]) + seq![
        ';',
    ] + dec_text(c[2]) + seq!['m']
}

/// The ANSI escape sequence that resets the colour.
pub open spec fn reset_text() -> Seq<char> {
    seq!['\x1B', '[', '0', 'm']
}

/// Colour of an exponent: light cyan when negative, light yellow when
/// positive, light green for the reserved exponent.
pub open spec fn exponent_rgb(e: i8) -> Seq<u8> {
    if e < 0 {
        rgb(0x80, 0xff, 0xff)
    } else if e > 0 {
        rgb(0xff, 0xff, 0x80)
    } else {
        rgb(0x80, 0xff, 0x80)
    }
}

/// Plain debug view of a Scalar: the 32 fraction bits, `*2^ `, and the 8
/// exponent bits.
pub open spec fn scalar_plain_text(x: Scalar) -> Seq<char> {
    bits_text(x.fraction as u32, 32, 32, '0', '1', true) + seq!['*', '2', '^', ' '] + bits_text(
        x.exponent as u8 as u32,
        8,
        8,
        '0',
        '1',
        true,
    )
}

/// Coloured debug view of a Scalar: the fraction bits in the colour and
/// glyphs of its state, then the exponent bits in the exponent's colour.
pub open spec fn scalar_fancy_text(x: Scalar) -> Seq<char> {
    let g = glyphs(x.normal_s(), x.undefined_s(), x.zero_s());
    colour_text(shade_rgb(scalar_shade(x))) + bits_text(x.fraction as u32, 32, 32, g.0, g.1, false)
        + reset_text() + seq!['*', '2', '^', ' '] + colour_text(exponent_rgb(x.exponent))
        + bits_text(x.exponent as u8 as u32, 8, 8, '□', '■', false) + reset_text()
}

/// Plain debug view of a Circle: real bits, `| `, imaginary bits, ` *2^ `,
/// exponent bits.
pub open spec fn circle_plain_text(c: Circle) -> Seq<char> {
    bits_text(c.real as u32, 32, 32, '0', '1', true) + seq!['|', ' '] + bits_text(
        c.imaginary as u32,
        32,
        32,
        '0',
        '1',
        true,
    ) + seq![' ', '*', '2', '^', ' '] + bits_text(c.exponent as u8 as u32, 8, 8, '0', '1', true)
}

/// Coloured debug view of a Circle: each part in the colour of its own sign
/// and the Circle's state, then the exponent in its colour.
pub open spec fn circle_fancy_text(c: Circle) -> Seq<char> {
    let g = glyphs(c.normal_c(), c.undefined_c(), c.zero_c());
    colour_text(shade_rgb(circle_shade(c, c.real))) + bits_text(
        c.real as u32,
        32,
        32,
        g.0,
        g.1,
        false,
    ) + reset_text() + seq!['|', ' '] + colour_text(shade_rgb(circle_shade(c, c.imaginary)))
        + bits_text(c.imaginary as u32, 32, 32, g.0, g.1, false) + reset_text() + seq![
        ' ',
        '*',
        '2',
        '^',
        ' ',
    ] + colour_text(exponent_rgb(c.exponent)) + bits_text(
        c.exponent as u8 as u32,
        8,
        8,
        '□',
        '■',
        false,
    ) + reset_text()
}

fn digit(d: u8) -> (c: char)
    requires
        d < 10,
    ensures
        c == digit_char(d as int),
{
    if d == 0 {
        '0'
    } else if d == 1 {
        '1'
    } else if d == 2 {
        '2'
    } else if d == 3 {
        '3'
    } else if d == 4 {
        '4'
    } else if d == 5 {
        '5'
    } else if d == 6 {
        '6'
    } else if d == 7 {
        '7'
    } else if d == 8 {
        '8'
    } else {
        '9'
    }
}

pub(crate) fn push_seq(out: &mut Vec<char>, s: &[char])
    ensures
        final(out)@ == old(out)@ + s@,
{
    let mut i: usize = 0;
    while i < s.len()
        invariant
            i <= s@.len(),
            out@ == old(out)@ + s@.subrange(0, i as int),
        decreases s@.len() - i,
    {
        out.push(s[i]);
        i = i + 1;
        assert(s@.subrange(0, i as int) =~= s@.subrange(0, i - 1) + seq![s@[i - 1]]);
    }
    assert(s@.subrange(0, s@.len() as int) =~= s@);
}

fn push_dec(out: &mut Vec<char>, n: u8)
    ensures
        final(out)@ == old(out)@ + dec_text(n),
{
    if n < 10 {
        out.push(digit(n));
    } else if n < 100 {
        out.push(digit(n / 10));
        out.push(digit(n % 10));
    } else {
        out.push(digit(n / 100));
        out.push(digit((n / 10) % 10));
        out.push(digit(n % 10));
    }
    assert(final(out)@ =~= old(out)@ + dec_text(n)) by {
    }
}

fn push_colour(out: &mut Vec<char>, c: &ColourScheme)
    ensures
        final(out)@ == old(out)@ + colour_text(c.colour@),
{
    push_seq(out, &['\x1B', '[', '3', '8', ';', '2', ';']);
    push_dec(out, c.colour[0]);
    out.push(';');
    push_dec(out, c.colour[1]);
    out.push(';');
    push_dec(out, c.colour[2]);
    out.push('m');
    assert(final(out)@ =~= old(out)@ + colour_text(c.colour@));
}

fn push_bits(out: &mut Vec<char>, x: u32, width: u32, zero: char, one: char, wide_gap: bool)
    requires
        width == 8 || width == 32,
        width == 8 ==> x < 256,
    ensures
        final(out)@ == old(out)@ + bits_text(x, width, width as nat, zero, one, wide_gap),
{
    let mut b: u32 = 0;
    while b < width
        invariant
            b <= width,
            width == 8 || width == 32,
            out@ == old(out)@ + bits_text(x, width, b as nat, zero, one, wide_gap),
        decreases width - b,
    {
        let ghost before = out@;
        if width != 8 && b == width / 2 {
            out.push(' ');
            if wide_gap {
                out.push(' ');
            }
        }
        let bit = (x >> (width - 1 - b)) & 1u32 == 1u32;
        out.push(
            if bit {
                one
            } else {
                zero
            },
        );
        if b % 8 == 7 || b == 0 {
            out.push(' ');
        }
        assert(out@ =~= before + bit_piece(x, width, b as int, zero, one, wide_gap));
        b = b + 1;
    }
}

fn exponent_scheme(e: i8) -> (c: ColourScheme)
    ensures
        c.colour@ == exponent_rgb(e),
{
    let p = colours();
    if e < 0 {
        p.fractional_exponent
    } else if e > 0 {
        p.integer_exponent
    } else {
        p.zero
    }
}

impl Scalar {
    /// The raw bits: fraction, `*2^`, exponent.
    pub fn format_debug_plain(&self) -> (r: Vec<char>)
        ensures
            r@ == scalar_plain_text(*self),
    {
        let mut out: Vec<char> = Vec::new();
        push_bits(&mut out, self.fraction as u32, 32, '0', '1', true);
        push_seq(&mut out, &['*', '2', '^', ' ']);
        push_bits(&mut out, self.exponent as u8 as u32, 8, '0', '1', true);
        assert(out@ =~= scalar_plain_text(*self));
        out
    }

    /// The raw bits in the colours and glyphs of the value's state.
    pub fn format_debug_fancy(&self) -> (r: Vec<char>)
        ensures
            r@ == scalar_fancy_text(*self),
    {
        let mut out: Vec<char> = Vec::new();
        let (unset, set) = self.get_binary_chars();
        push_colour(&mut out, &self.get_colour_scheme());
        push_bits(&mut out, self.fraction as u32, 32, unset, set, false);
        push_seq(&mut out, &['\x1B', '[', '0', 'm', '*', '2', '^', ' ']);
        push_colour(&mut out, &exponent_scheme(self.exponent));
        push_bits(&mut out, self.exponent as u8 as u32, 8, '□', '■', false);
        push_seq(&mut out, &['\x1B', '[', '0', 'm']);
        assert(out@ =~= scalar_fancy_text(*self));
        out
    }
}

impl Circle {
    /// The raw bits: real, `|`, imaginary, `*2^`, exponent.
    pub fn format_debug_plain(&self) -> (r: Vec<char>)
        ensures
            r@ == circle_plain_text(*self),
    {
        let mut out: Vec<char> = Vec::new();
        push_bits(&mut out, self.real as u32, 32, '0', '1', true);
        push_seq(&mut out, &['|', ' ']);
        push_bits(&mut out, self.imaginary as u32, 32, '0', '1', true);
        push_seq(&mut out, &[' ', '*', '2', '^', ' ']);
        push_bits(&mut out, self.exponent as u8 as u32, 8, '0', '1', true);
        assert(out@ =~= circle_plain_text(*self));
        out
    }

    /// The raw bits, each part in the colour of its state and sign.
    pub fn format_debug_fancy(&self) -> (r: Vec<char>)
        ensures
            r@ == circle_fancy_text(*self),
    {
        let mut out: Vec<char> = Vec::new();
        let (unset, set) = self.get_binary_chars();
        push_colour(&mut out, &self.get_real_colour_scheme());
        push_bits(&mut out, self.real as u32, 32, unset, set, false);
        push_seq(&mut out, &['\x1B', '[', '0', 'm', '|', ' ']);
        push_colour(&mut out, &self.get_imag_colour_scheme());
        push_bits(&mut out, self.imaginary as u32, 32, unset, set, false);
        push_seq(&mut out, &['\x1B', '[', '0', 'm', ' ', '*', '2', '^', ' ']);
        push_colour(&mut out, &exponent_scheme(self.exponent));
        push_bits(&mut out, self.exponent as u8 as u32, 8, '□', '■', false);
        push_seq(&mut out, &['\x1B', '[', '0', 'm']);
        assert(out@ =~= circle_fancy_text(*self));
        out
    }
}

} // verus!
