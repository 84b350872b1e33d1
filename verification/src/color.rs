//! Colours with four binary32 channels, and their premultiplied 8-bit
//! pixels.
//!
//! A colour is not premultiplied; a pixel is. A pixel's bytes are blue,
//! green, red, alpha, in that order. A packed 32-bit colour has alpha in its
//! top byte, then red, green and blue, and is not premultiplied.

use vstd::prelude::*;
use crate::binary32::Binary32;

verus! {

/// A premultiplied pixel: blue, green, red, alpha.
pub type Pixel = [u8; 4];

pub const BLUE_CHANNEL: usize = 0;

pub const GREEN_CHANNEL: usize = 1;

pub const RED_CHANNEL: usize = 2;

pub const ALPHA_CHANNEL: usize = 3;

/// The pixel of full transparency.
pub const ZERO_PIXEL: Pixel = [0, 0, 0, 0];

/// The pixel of opaque white.
pub const WHITE_PIXEL: Pixel = [255, 255, 255, 255];

pub const ZERO_BITS: u32 = 0;

pub const HALF_BITS: u32 = 0x3f00_0000;

pub const ONE_BITS: u32 = 0x3f80_0000;

pub const TWO_BITS: u32 = 0x4000_0000;

pub const THREE_BITS: u32 = 0x4040_0000;

pub const FOUR_BITS: u32 = 0x4080_0000;

pub const FIVE_BITS: u32 = 0x40a0_0000;

pub const SIX_BITS: u32 = 0x40c0_0000;

pub const SIXTY_BITS: u32 = 0x4270_0000;

/// 255, the largest byte.
pub const BYTE_MAX_BITS: u32 = 0x437f_0000;

/// The luminance weights of red, green and blue: the binary32 numbers
/// nearest to 0.216, 0.7152 and 0.0722.
pub const RED_WEIGHT_BITS: u32 = 0x3e5d_2f1b;

pub const GREEN_WEIGHT_BITS: u32 = 0x3f37_1759;

pub const BLUE_WEIGHT_BITS: u32 = 0x3d93_dd98;

/// A colour, not premultiplied, each channel nominally between 0 and 1.
#[derive(Clone, Copy, Debug)]
pub struct Color {
    pub r: Binary32,
    pub g: Binary32,
    pub b: Binary32,
    pub a: Binary32,
}

/// The byte `n` as a fraction of 255.
pub open spec fn byte_fraction(n: u8) -> Binary32 {
    Binary32::from_integer(n as nat).quotient(Binary32 { bits: BYTE_MAX_BITS })
}

/// The byte that a channel value scaled by `scale` falls on, truncated.
pub open spec fn scaled_byte(channel: Binary32, scale: Binary32) -> u8 {
    channel.product(scale).byte()
}

/// The red, green and blue parts that a hue sector gives before the match
/// value is added: `hp` is the hue in sixths of the circle, `c` the chroma
/// and `x` the second largest part. The first sector is `0 <= hp < 1`, and
/// each later one takes what is below its upper end and was not taken
/// before, so a negative `hp` falls into the second. A `hp` that is not
/// below 6, which only a NaN is, gives black.
pub open spec fn sector_parts(hp: Binary32, c: Binary32, x: Binary32) -> (
    Binary32,
    Binary32,
    Binary32,
) {
    let zero = Binary32 { bits: ZERO_BITS };
    if zero.at_most(hp) && hp.below(Binary32 { bits: ONE_BITS }) {
        (c, x, zero)
    } else if hp.below(Binary32 { bits: TWO_BITS }) {
        (x, c, zero)
    } else if hp.below(Binary32 { bits: THREE_BITS }) {
        (zero, c, x)
    } else if hp.below(Binary32 { bits: FOUR_BITS }) {
        (zero, x, c)
    } else if hp.below(Binary32 { bits: FIVE_BITS }) {
        (x, zero, c)
    } else if hp.below(Binary32 { bits: SIX_BITS }) {
        (c, zero, x)
    } else {
        (zero, zero, zero)
    }
}

fn sector(hp: Binary32, c: Binary32, x: Binary32) -> (parts: (Binary32, Binary32, Binary32))
    ensures
        parts == sector_parts(hp, c, x),
{
    let zero = Binary32::from_bits(ZERO_BITS);
    if zero.less_or_equal(hp) && hp.less_than(Binary32::from_bits(ONE_BITS)) {
        (c, x, zero)
    } else if hp.less_than(Binary32::from_bits(TWO_BITS)) {
        (x, c, zero)
    } else if hp.less_than(Binary32::from_bits(THREE_BITS)) {
        (zero, c, x)
    } else if hp.less_than(Binary32::from_bits(FOUR_BITS)) {
        (zero, x, c)
    } else if hp.less_than(Binary32::from_bits(FIVE_BITS)) {
        (x, zero, c)
    } else if hp.less_than(Binary32::from_bits(SIX_BITS)) {
        (c, zero, x)
    } else {
        (zero, zero, zero)
    }
}

impl Color {
    /// Fully transparent: every channel zero.
    pub open spec fn transparent_color() -> Color {
        let zero = Binary32 { bits: ZERO_BITS };
        Color { r: zero, g: zero, b: zero, a: zero }
    }

    /// The colour of a packed non-premultiplied value: alpha in bits 24 to
    /// 31, red in 16 to 23, green in 8 to 15, blue in 0 to 7, each as a
    /// fraction of 255.
    pub open spec fn unpacked(packed: u32) -> Color {
        Color {
            r: byte_fraction(((packed / 0x1_0000) % 0x100) as u8),
            g: byte_fraction(((packed / 0x100) % 0x100) as u8),
            b: byte_fraction((packed % 0x100) as u8),
            a: byte_fraction((packed / 0x100_0000) as u8),
        }
    }

    /// The packed value of a colour: each channel times 255, truncated to a
    /// byte, alpha on top, then red, green, blue. Nothing is premultiplied.
    pub open spec fn packed(self) -> u32 {
        let scale = Binary32 { bits: BYTE_MAX_BITS };
        (scaled_byte(self.a, scale) * 0x100_0000 + scaled_byte(self.r, scale) * 0x1_0000
            + scaled_byte(self.g, scale) * 0x100 + scaled_byte(self.b, scale)) as u32
    }

    /// The opaque colour of hue `h` in degrees, saturation `s` and value
    /// `v`. The chroma is `c = v * s`; the hue in sixths of the circle is
    /// `hp = (h / 60) mod 6`; the second largest part is
    /// `x = c * (1 - |hp mod 2 - 1|)`; the sector of `hp` places `c`, `x`
    /// and zero on red, green and blue, and the match value `m = v - c` is
    /// added to each.
    pub open spec fn of_hsv(h: Binary32, s: Binary32, v: Binary32) -> Color {
        let one = Binary32 { bits: ONE_BITS };
        let c = v.product(s);
        let hp = h.quotient(Binary32 { bits: SIXTY_BITS }).remainder(Binary32 { bits: SIX_BITS });
        let x = c.product(
            one.difference(hp.remainder(Binary32 { bits: TWO_BITS }).difference(one).absolute()),
        );
        let m = v.difference(c);
        let parts = sector_parts(hp, c, x);
        Color { r: parts.0.sum(m), g: parts.1.sum(m), b: parts.2.sum(m), a: one }
    }

    /// The colour that a premultiplied pixel stands for. A pixel without
    /// alpha is transparent whatever its other bytes are; otherwise each
    /// colour byte is multiplied by the reciprocal of the alpha byte.
    pub open spec fn of_pixel(p: Seq<u8>) -> Color {
        if p[3] == 0 {
            Self::transparent_color()
        } else {
            let af = Binary32 { bits: ONE_BITS }.quotient(Binary32::from_integer(p[3] as nat));
            Color {
                r: Binary32::from_integer(p[2] as nat).product(af),
                g: Binary32::from_integer(p[1] as nat).product(af),
                b: Binary32::from_integer(p[0] as nat).product(af),
                a: byte_fraction(p[3]),
            }
        }
    }

    /// The scale that premultiplies a channel and takes it to a byte: alpha
    /// times 255.
    pub open spec fn alpha_scale(self) -> Binary32 {
        self.a.product(Binary32 { bits: BYTE_MAX_BITS })
    }

    /// The premultiplied pixel of a colour: blue, green, red, alpha.
    pub open spec fn pixel(self) -> Seq<u8> {
        let af = self.alpha_scale();
        seq![scaled_byte(self.b, af), scaled_byte(self.g, af), scaled_byte(self.r, af), af.byte()]
    }

    /// Whether alpha is below 1/255.
    pub open spec fn alpha_negligible(self) -> bool {
        self.a.below(Binary32 { bits: ONE_BITS }.quotient(Binary32 { bits: BYTE_MAX_BITS }))
    }

    /// The weighted luminance: red, green and blue times their weights,
    /// added from the left.
    pub open spec fn luminance(self) -> Binary32 {
        self.r.product(Binary32 { bits: RED_WEIGHT_BITS }).sum(
            self.g.product(Binary32 { bits: GREEN_WEIGHT_BITS }),
        ).sum(self.b.product(Binary32 { bits: BLUE_WEIGHT_BITS }))
    }

    /// Fully transparent.
    pub fn transparent() -> (c: Color)
        ensures
            c == Self::transparent_color(),
    {
        let zero = Binary32::from_bits(ZERO_BITS);
        Color { r: zero, g: zero, b: zero, a: zero }
    }

    /// Opaque black.
    pub fn black() -> (c: Color)
        ensures
            c.r.bits == ZERO_BITS,
            c.g.bits == ZERO_BITS,
            c.b.bits == ZERO_BITS,
            c.a.bits == ONE_BITS,
    {
        let zero = Binary32::from_bits(ZERO_BITS);
        Color { r: zero, g: zero, b: zero, a: Binary32::from_bits(ONE_BITS) }
    }

    /// Opaque white.
    pub fn white() -> (c: Color)
        ensures
            c.r.bits == ONE_BITS,
            c.g.bits == ONE_BITS,
            c.b.bits == ONE_BITS,
            c.a.bits == ONE_BITS,
    {
        let one = Binary32::from_bits(ONE_BITS);
        Color { r: one, g: one, b: one, a: one }
    }

    fn fraction(n: u8) -> (r: Binary32)
        ensures
            r == byte_fraction(n),
    {
        Binary32::from_u8(n).divide(Binary32::from_bits(BYTE_MAX_BITS))
    }

    /// An opaque colour from three bytes.
    pub fn rgb8(r: u8, g: u8, b: u8) -> (c: Color)
        ensures
            c.r == byte_fraction(r),
            c.g == byte_fraction(g),
            c.b == byte_fraction(b),
            c.a.bits == ONE_BITS,
    {
        Color {
            r: Self::fraction(r),
            g: Self::fraction(g),
            b: Self::fraction(b),
            a: Binary32::from_bits(ONE_BITS),
        }
    }

    pub fn from_argb32(c: u32) -> (color: Color)
        ensures
            color == Self::unpacked(c),
    {
        Color {
            r: Self::fraction(((c / 0x1_0000) % 0x100) as u8),
            g: Self::fraction(((c / 0x100) % 0x100) as u8),
            b: Self::fraction((c % 0x100) as u8),
            a: Self::fraction((c / 0x100_0000) as u8),
        }
    }

    pub fn from_hsv(h: Binary32, s: Binary32, v: Binary32) -> (color: Color)
        ensures
            color == Self::of_hsv(h, s, v),
    {
        let one = Binary32::from_bits(ONE_BITS);
        let c = v.multiply(s);
        let hp = h.divide(Binary32::from_bits(SIXTY_BITS)).modulo(Binary32::from_bits(SIX_BITS));
        let x = c.multiply(one.minus(hp.modulo(Binary32::from_bits(TWO_BITS)).minus(one).abs()));
        let m = v.minus(c);
        let parts = sector(hp, c, x);
        Color { r: parts.0.plus(m), g: parts.1.plus(m), b: parts.2.plus(m), a: one }
    }

    /// The alpha byte of a packed value.
    pub fn argb32_alpha(c: u32) -> (alpha: u8)
        ensures
            alpha == c / 0x100_0000,
    {
        (c / 0x100_0000) as u8
    }

    pub fn as_argb32(&self) -> (packed: u32)
        ensures
            packed == self.packed(),
    {
        let scale = Binary32::from_bits(BYTE_MAX_BITS);
        let r = self.r.multiply(scale).to_u8() as u32;
        let g = self.g.multiply(scale).to_u8() as u32;
        let b = self.b.multiply(scale).to_u8() as u32;
        let a = self.a.multiply(scale).to_u8() as u32;
        a * 0x100_0000 + r * 0x1_0000 + g * 0x100 + b
    }

    pub fn from_pixel(p: Pixel) -> (color: Color)
        ensures
            color == Self::of_pixel(p@),
    {
        if p[ALPHA_CHANNEL] == 0 {
            return Self::transparent();
        }
        let af = Binary32::from_bits(ONE_BITS).divide(Binary32::from_u8(p[ALPHA_CHANNEL]));
        Color {
            r: Binary32::from_u8(p[RED_CHANNEL]).multiply(af),
            g: Binary32::from_u8(p[GREEN_CHANNEL]).multiply(af),
            b: Binary32::from_u8(p[BLUE_CHANNEL]).multiply(af),
            a: Self::fraction(p[ALPHA_CHANNEL]),
        }
    }

    /// The channels as the pixel holds them, still premultiplied.
    pub fn from_premultiplied_pixel(p: Pixel) -> (color: Color)
        ensures
            color.r == byte_fraction(p@[2]),
            color.g == byte_fraction(p@[1]),
            color.b == byte_fraction(p@[0]),
            color.a == byte_fraction(p@[3]),
    {
        Color {
            r: Self::fraction(p[RED_CHANNEL]),
            g: Self::fraction(p[GREEN_CHANNEL]),
            b: Self::fraction(p[BLUE_CHANNEL]),
            a: Self::fraction(p[ALPHA_CHANNEL]),
        }
    }

    pub fn as_pixel(&self) -> (p: Pixel)
        ensures
            p@ == self.pixel(),
    {
        let af = self.a.multiply(Binary32::from_bits(BYTE_MAX_BITS));
        let p = [
            self.b.multiply(af).to_u8(),
            self.g.multiply(af).to_u8(),
            self.r.multiply(af).to_u8(),
            af.to_u8(),
        ];
        assert(p@ =~= self.pixel());
        p
    }

    pub fn is_transparent(&self) -> (r: bool)
        ensures
            r == self.alpha_negligible(),
    {
        self.a.less_than(Binary32::from_bits(ONE_BITS).divide(Binary32::from_bits(BYTE_MAX_BITS)))
    }

    /// Whether the colour is dark to the eye: its luminance is at most one
    /// half.
    pub fn is_dark(&self) -> (r: bool)
        ensures
            r == self.luminance().at_most(Binary32 { bits: HALF_BITS }),
    {
        let luminance = self.r.multiply(Binary32::from_bits(RED_WEIGHT_BITS)).plus(
            self.g.multiply(Binary32::from_bits(GREEN_WEIGHT_BITS)),
        ).plus(self.b.multiply(Binary32::from_bits(BLUE_WEIGHT_BITS)));
        luminance.less_or_equal(Binary32::from_bits(HALF_BITS))
    }
}

} // verus!
