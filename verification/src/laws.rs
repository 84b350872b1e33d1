//! What holds of the colour conversions for every input: packing and
//! unpacking, transparency, and the trip from a pixel to its colour and back.

use vstd::prelude::*;
use vstd::arithmetic::div_mod::lemma_div_multiples_vanish;
use vstd::arithmetic::power2::{pow2, lemma_pow2_pos, lemma_pow2_adds, lemma_pow2_unfold, lemma_pow2_strictly_increases, lemma2_to64};
use crate::binary32::{Binary32, lemma_integer_exact, lemma_nearest_exact, lemma_round_at_least_value, lemma_round_at_most_value, lemma_round_relative, lemma_scaled_increases, lemma_scaled_zero, lemma_value_of_parts};
use crate::color::{Color, byte_fraction, scaled_byte, BYTE_MAX_BITS, ONE_BITS};
use crate::rounding::{round_magnitude, is_nearest_even, round_half_even, lemma_round_at_least, lemma_round_at_most, lemma_round_half_even_holds, lemma_round_zero, lemma_rounding_value};

verus! {

/// The constant 255 is 255 * 2^149 units.
pub proof fn lemma_byte_max_value()
    ensures
        (Binary32 { bits: BYTE_MAX_BITS }).scaled() == 255 * pow2(149),
        (Binary32 { bits: BYTE_MAX_BITS }).magnitude() == 0x437f_0000,
        !(Binary32 { bits: BYTE_MAX_BITS }).negative(),
{
    lemma2_to64();
    let x = Binary32 { bits: BYTE_MAX_BITS };
    assert(x.significand() == 0xff_0000 && x.exponent() == 133);
    lemma_pow2_adds(16, 133);
    assert(0xff_0000 * pow2(133) == 255 * pow2(149)) by (nonlinear_arith)
        requires
            pow2(149) == 0x1_0000 * pow2(133),
    ;
}

/// A byte with `b + 1` binary digits, other than 255, divided by 255 and
/// multiplied by 255 again is the byte.
proof fn lemma_fraction_round_trip(k: nat, b: nat)
    requires
        b <= 7,
        pow2(b) <= k < pow2(b + 1),
        k <= 254,
    ensures
        byte_fraction(k as u8).product(Binary32 { bits: BYTE_MAX_BITS }).scaled() == k * pow2(149),
        !byte_fraction(k as u8).product(Binary32 { bits: BYTE_MAX_BITS }).negative(),
        byte_fraction(k as u8).product(Binary32 { bits: BYTE_MAX_BITS }).finite(),
{
    lemma2_to64();
    let u = pow2(149);
    let scale = Binary32 { bits: BYTE_MAX_BITS };
    let x = Binary32::from_integer(k);
    lemma_integer_exact(k);
    lemma_byte_max_value();
    lemma_pow2_pos(149);
    // The working value of the quotient: t lies in [2^31, 255 * 2^24).
    let c = pow2((31 - b) as nat);
    let t = k * c;
    lemma_pow2_adds(b, (31 - b) as nat);
    lemma_pow2_adds(b + 1, (31 - b) as nat);
    lemma_pow2_adds(8, (23 - b) as nat);
    lemma_pow2_pos((23 - b) as nat);
    if b < 7 {
        lemma_pow2_strictly_increases(24, (31 - b) as nat);
    }
    assert(0x8000_0000 <= t && t + c <= 0x1_0000_0000) by (nonlinear_arith)
        requires
            t == k * c,
            pow2(b) <= k,
            k + 1 <= pow2(b + 1),
            pow2(b) * c == 0x8000_0000,
            pow2(b + 1) * c == 0x1_0000_0000,
            c > 0,
    ;
    assert(b == 7 ==> t <= 254 * 0x100_0000) by (nonlinear_arith)
        requires
            t == k * c,
            k <= 254,
            b == 7 ==> c == 0x100_0000,
    ;
    assert(t < 255 * 0x100_0000);
    let my = round_half_even(t, 255);
    lemma_round_half_even_holds(t, 255);
    assert(255 * pow2(0) == 255 && k * pow2((31 - b) as nat) == t);
    lemma_pow2_adds(149, 149);
    lemma_rounding_value(k, 255, 298, 149, (31 - b) as nat, 0, 118 + b, my);
    assert((k * u) * u == k * pow2(298)) by (nonlinear_arith)
        requires
            pow2(298) == u * u,
    ;
    assert(0x80_0000 <= my <= 0x100_0000);
    let y = byte_fraction(k as u8);
    assert(y == Binary32::from_parts(false, (118 + b) * 0x80_0000 + my));
    lemma_value_of_parts(false, 118 + b, my);
    // The product 255 * my lies in [2^31, 2^32) and within 127 of t.
    let half = pow2((23 - b) as nat);
    let mz = k * half;
    assert(t == 256 * mz) by (nonlinear_arith)
        requires
            t == k * c,
            c == 0x100 * half,
            mz == k * half,
    ;
    assert(is_nearest_even(mz, 255 * my, 256));
    assert((255 * my) * pow2(0) == 255 * my && 1 * pow2(8) == 256 && 1 * pow2(149) == u);
    lemma_rounding_value(255 * my, 1, 267 + b, 149, 0, 8, 126 + b, mz);
    lemma_pow2_adds(118 + b, 149);
    assert((my * pow2(118 + b)) * (255 * u) == (255 * my) * pow2(267 + b)) by (nonlinear_arith)
        requires
            pow2(267 + b) == pow2(118 + b) * u,
    ;
    let z = y.product(scale);
    assert(z == Binary32::from_parts(false, (126 + b) * 0x80_0000 + mz));
    lemma_value_of_parts(false, 126 + b, mz);
    lemma_pow2_adds((23 - b) as nat, 126 + b);
    assert(mz * pow2(126 + b) == k * u) by (nonlinear_arith)
        requires
            mz == k * half,
            u == half * pow2(126 + b),
    ;
}

/// A byte divided by 255 and multiplied by 255 again is the byte, exactly.
pub proof fn lemma_fraction_scale(k: u8)
    ensures
        byte_fraction(k).product(Binary32 { bits: BYTE_MAX_BITS }).scaled() == k * pow2(149),
        !byte_fraction(k).product(Binary32 { bits: BYTE_MAX_BITS }).negative(),
        byte_fraction(k).product(Binary32 { bits: BYTE_MAX_BITS }).finite(),
{
    lemma2_to64();
    let u = pow2(149);
    let scale = Binary32 { bits: BYTE_MAX_BITS };
    let x = Binary32::from_integer(k as nat);
    let y = byte_fraction(k);
    let z = y.product(scale);
    lemma_integer_exact(k as nat);
    lemma_byte_max_value();
    lemma_pow2_pos(149);
    if k == 0 {
        assert(0 * u == 0);
        lemma_scaled_zero(x);
        assert(x.scaled() * u == 0) by (nonlinear_arith)
            requires
                x.scaled() == 0,
        ;
        assert(255 * u > 0);
        lemma_round_zero(255 * u);
        assert(y.magnitude() == 0);
        lemma_scaled_zero(y);
        assert(y.scaled() * scale.scaled() == 0) by (nonlinear_arith)
            requires
                y.scaled() == 0,
        ;
        lemma_round_zero(u);
        assert(z.magnitude() == 0);
        lemma_scaled_zero(z);
    } else if k == 255 {
        lemma_pow2_adds(149, 149);
        assert((255 * u) * u == 255 * pow2(298)) by (nonlinear_arith)
            requires
                pow2(298) == u * u,
        ;
        assert(255 * pow2(23) == 0x7f80_0000 && 255 * pow2(0) == 255);
        assert(is_nearest_even(0x80_0000, 0x7f80_0000, 255));
        lemma_rounding_value(255, 255, 298, 149, 23, 0, 126, 0x80_0000);
        assert(y == Binary32::from_parts(false, 126 * 0x80_0000 + 0x80_0000));
        lemma_value_of_parts(false, 126, 0x80_0000);
        lemma_pow2_adds(126, 149);
        assert((0x80_0000 * pow2(126)) * (255 * u) == 0x7f80_0000 * pow2(275)) by (nonlinear_arith)
            requires
                pow2(275) == pow2(126) * u,
        ;
        assert(0x7f80_0000 * pow2(0) == 0x7f80_0000 && 1 * pow2(7) == 128 && 1 * pow2(149) == u);
        assert(is_nearest_even(0xff_0000, 0x7f80_0000, 128));
        lemma_rounding_value(0x7f80_0000, 1, 275, 149, 0, 7, 133, 0xff_0000);
        assert(z == Binary32::from_parts(false, 133 * 0x80_0000 + 0xff_0000));
        lemma_value_of_parts(false, 133, 0xff_0000);
        lemma_pow2_adds(16, 133);
        assert(0xff_0000 * pow2(133) == 255 * u) by (nonlinear_arith)
            requires
                u == 0x1_0000 * pow2(133),
        ;
    } else {
        let b: nat = if k < 2 {
            0
        } else if k < 4 {
            1
        } else if k < 8 {
            2
        } else if k < 16 {
            3
        } else if k < 32 {
            4
        } else if k < 64 {
            5
        } else if k < 128 {
            6
        } else {
            7
        };
        lemma_fraction_round_trip(k as nat, b);
    }
}

/// A byte divided by 255, multiplied by 255 and truncated is the byte.
pub proof fn lemma_byte_fraction_byte(k: u8)
    ensures
        scaled_byte(byte_fraction(k), Binary32 { bits: BYTE_MAX_BITS }) == k,
{
    let u = pow2(149);
    lemma_fraction_scale(k);
    lemma_pow2_pos(149);
    lemma_div_multiples_vanish(k as int, u as int);
    assert(k * u == u * k) by (nonlinear_arith);
}


/// A 32-bit value is the sum of its four bytes at their places.
proof fn lemma_bytes_of_word(w: u32)
    ensures
        (w / 0x100_0000) * 0x100_0000 + ((w / 0x1_0000) % 0x100) * 0x1_0000 + ((w / 0x100) % 0x100)
            * 0x100 + w % 0x100 == w,
        w / 0x100_0000 < 0x100,
{
}

/// Unpacking a packed value and packing the colour again gives the value
/// back.
pub proof fn lemma_unpacked_packed(packed: u32)
    ensures
        Color::unpacked(packed).packed() == packed,
{
    let scale = Binary32 { bits: BYTE_MAX_BITS };
    let a = (packed / 0x100_0000) as u8;
    let r = ((packed / 0x1_0000) % 0x100) as u8;
    let g = ((packed / 0x100) % 0x100) as u8;
    let b = (packed % 0x100) as u8;
    let c = Color::unpacked(packed);
    lemma_bytes_of_word(packed);
    assert(c.a == byte_fraction(a) && c.r == byte_fraction(r) && c.g == byte_fraction(g) && c.b
        == byte_fraction(b));
    assert(scaled_byte(c.a, scale) == a) by {
        lemma_byte_fraction_byte(a);
    }
    assert(scaled_byte(c.r, scale) == r) by {
        lemma_byte_fraction_byte(r);
    }
    assert(scaled_byte(c.g, scale) == g) by {
        lemma_byte_fraction_byte(g);
    }
    assert(scaled_byte(c.b, scale) == b) by {
        lemma_byte_fraction_byte(b);
    }
}

/// Packing is idempotent: a colour that came out of a packed value packs to
/// that value, so packing, unpacking and packing again changes nothing.
pub proof fn lemma_packing_idempotent(c: Color)
    ensures
        Color::unpacked(c.packed()).packed() == c.packed(),
{
    lemma_unpacked_packed(c.packed());
}

/// The constant 1 is 2^149 units.
pub proof fn lemma_one_value()
    ensures
        (Binary32 { bits: ONE_BITS }).scaled() == pow2(149),
        (Binary32 { bits: ONE_BITS }).magnitude() == 0x3f80_0000,
        !(Binary32 { bits: ONE_BITS }).negative(),
{
    lemma2_to64();
    let x = Binary32 { bits: ONE_BITS };
    assert(x.significand() == 0x80_0000 && x.exponent() == 126);
    lemma_pow2_adds(23, 126);
}

/// One divided by 255 is the number with the bits `0x3b80_8081`, a little
/// above 1/255.
pub proof fn lemma_unit_step()
    ensures
        (Binary32 { bits: ONE_BITS }).quotient(Binary32 { bits: BYTE_MAX_BITS }) == (Binary32 {
            bits: 0x3b80_8081,
        }),
{
    lemma2_to64();
    lemma_one_value();
    lemma_byte_max_value();
    let u = pow2(149);
    lemma_pow2_adds(149, 149);
    assert(u * u == 1 * pow2(298));
    assert(1 * pow2(31) == 0x8000_0000 && 255 * pow2(0) == 255);
    assert(is_nearest_even(0x80_8081, 0x8000_0000, 255));
    lemma_rounding_value(1, 255, 298, 149, 31, 0, 118, 0x80_8081);
}

/// A colour is transparent exactly when its alpha times 255 is below one.
pub proof fn lemma_transparent_alpha_scale(c: Color)
    ensures
        c.alpha_negligible() == c.alpha_scale().below(Binary32 { bits: ONE_BITS }),
{
    lemma2_to64();
    let a = c.a;
    let one = Binary32 { bits: ONE_BITS };
    let scale = Binary32 { bits: BYTE_MAX_BITS };
    let step = Binary32 { bits: 0x3b80_8081 };
    let p = a.product(scale);
    let u = pow2(149);
    lemma_unit_step();
    lemma_one_value();
    lemma_byte_max_value();
    lemma_scaled_zero(step);
    lemma_scaled_zero(one);
    lemma_pow2_pos(149);
    if a.nan() {
        assert(p.nan());
    } else if a.negative() {
        assert(p.negative() && !p.nan());
    } else if a.infinite() {
        lemma_scaled_increases(step, a);
        lemma_scaled_increases(one, p);
    } else {
        let n = a.scaled() * (255 * u);
        let rm = round_magnitude(n, u);
        assert(p == Binary32::from_parts(false, rm));
        lemma_pow2_pos(118);
        if a.magnitude() < 0x3b80_8081 {
            let top = Binary32 { bits: 0x3b80_8080 };
            lemma_scaled_increases(a, step);
            if a.magnitude() < top.magnitude() {
                lemma_scaled_increases(a, top);
            }
            lemma_value_of_parts(false, 118, 0x80_8080);
            assert(top == Binary32::from_parts(false, 118 * 0x80_0000 + 0x80_8080));
            lemma_pow2_adds(7, 118);
            assert(n <= 0xff_ffff * (u * pow2(125))) by (nonlinear_arith)
                requires
                    n == a.scaled() * (255 * u),
                    a.scaled() <= 0x80_8080 * pow2(118),
                    pow2(125) == 128 * pow2(118),
                    u > 0,
            ;
            lemma_round_at_most(n, u, 125, 0xff_ffff);
            lemma_scaled_increases(p, one);
        } else {
            if a.magnitude() > 0x3b80_8081 {
                lemma_scaled_increases(step, a);
            }
            lemma_value_of_parts(false, 118, 0x80_8081);
            assert(step == Binary32::from_parts(false, 118 * 0x80_0000 + 0x80_8081));
            lemma_pow2_adds(8, 118);
            assert(n >= 0x80_0000 * (u * pow2(126))) by (nonlinear_arith)
                requires
                    n == a.scaled() * (255 * u),
                    a.scaled() >= 0x80_8081 * pow2(118),
                    pow2(126) == 256 * pow2(118),
                    u > 0,
                    pow2(118) > 0,
            ;
            lemma_round_at_least(n, u, 126, 0x80_0000);
            if p.magnitude() > one.magnitude() {
                lemma_scaled_increases(one, p);
            }
        }
    }
}

/// Unless alpha is not a number, a colour is transparent exactly when the
/// alpha byte of its pixel is zero.
pub proof fn lemma_transparent_alpha_byte(c: Color)
    requires
        !c.a.nan(),
    ensures
        c.alpha_negligible() == (c.pixel()[3] == 0),
{
    lemma2_to64();
    let one = Binary32 { bits: ONE_BITS };
    let p = c.alpha_scale();
    let u = pow2(149);
    lemma_transparent_alpha_scale(c);
    lemma_one_value();
    lemma_byte_max_value();
    lemma_pow2_pos(149);
    assert(!p.nan());
    if !p.negative() {
        if p.scaled() < u {
            vstd::arithmetic::div_mod::lemma_basic_div(p.scaled() as int, u as int);
        } else {
            vstd::arithmetic::div_mod::lemma_div_is_ordered(u as int, p.scaled() as int, u as int);
            vstd::arithmetic::div_mod::lemma_div_multiples_vanish(1, u as int);
        }
    }
}

/// The reciprocal of a byte: finite, positive, and within one part in 2^24
/// of the true reciprocal.
proof fn lemma_reciprocal(al: u8)
    requires
        al > 0,
    ensures
        ({
            let rec = (Binary32 { bits: ONE_BITS }).quotient(Binary32::from_integer(al as nat));
            let x = rec.scaled() * al;
            &&& rec.finite()
            &&& !rec.negative()
            &&& 0x100_0000 * (x - pow2(149)) <= pow2(149)
            &&& 0x100_0000 * (pow2(149) - x) <= pow2(149)
        }),
{
    lemma2_to64();
    let u = pow2(149);
    let one = Binary32 { bits: ONE_BITS };
    let a = Binary32::from_integer(al as nat);
    let rec = one.quotient(a);
    lemma_one_value();
    lemma_integer_exact(al as nat);
    lemma_pow2_strictly_increases(32, 149);
    assert(al * u > 0) by (nonlinear_arith)
        requires
            al > 0,
            u > 0,
    ;
    lemma_scaled_zero(a);
    let n = u * u;
    let d = (al as nat) * u;
    assert(n <= u * d && n >= 0x80_0000 * d) by (nonlinear_arith)
        requires
            n == u * u,
            d == al * u,
            1 <= al <= 255,
            u >= 0x1_0000_0000,
    ;
    lemma_round_at_most_value(n, d, one);
    lemma_round_relative(n, d);
    assert(rec == Binary32::from_parts(false, round_magnitude(n, d)));
    let r = rec.scaled();
    let x = r * al;
    assert(r * d - n == u * (x - u) && n - r * d == u * (u - x)) by (nonlinear_arith)
        requires
            n == u * u,
            d == al * u,
            x == r * al,
    ;
    assert(0x100_0000 * (x - u) <= u) by (nonlinear_arith)
        requires
            0x100_0000 * (u * (x - u)) <= u * u,
            u > 0,
    ;
    assert(0x100_0000 * (u - x) <= u) by (nonlinear_arith)
        requires
            0x100_0000 * (u * (u - x)) <= u * u,
            u > 0,
    ;
}

/// A colour byte of a pixel with alpha comes back from the colour of the
/// pixel as itself or one lower.
pub proof fn lemma_channel_round_trip(ch: u8, al: u8)
    requires
        al > 0,
    ensures
        ({
            let rec = (Binary32 { bits: ONE_BITS }).quotient(Binary32::from_integer(al as nat));
            let af = byte_fraction(al).product(Binary32 { bits: BYTE_MAX_BITS });
            let back = scaled_byte(Binary32::from_integer(ch as nat).product(rec), af);
            back == ch || back + 1 == ch
        }),
{
    lemma2_to64();
    let u = pow2(149);
    let one = Binary32 { bits: ONE_BITS };
    let rec = one.quotient(Binary32::from_integer(al as nat));
    let af = byte_fraction(al).product(Binary32 { bits: BYTE_MAX_BITS });
    let c = Binary32::from_integer(ch as nat);
    let r = c.product(rec);
    let y = r.product(af);
    lemma_reciprocal(al);
    lemma_fraction_scale(al);
    lemma_integer_exact(ch as nat);
    lemma_pow2_strictly_increases(32, 149);
    lemma_pow2_unfold(149);
    let rs = rec.scaled();
    let x = rs * al;
    if ch == 0 {
        assert((ch as nat) * u == 0) by (nonlinear_arith)
            requires
                ch == 0,
        ;
        lemma_scaled_zero(c);
        assert(c.scaled() * rs == 0) by (nonlinear_arith)
            requires
                c.scaled() == 0,
        ;
        lemma_round_zero(u);
        assert(r.magnitude() == 0);
        lemma_scaled_zero(r);
        assert(r.scaled() * af.scaled() == 0) by (nonlinear_arith)
            requires
                r.scaled() == 0,
        ;
        assert(y.magnitude() == 0);
        lemma_scaled_zero(y);
        vstd::arithmetic::div_mod::lemma_basic_div(0, u as int);
    } else {
        // The quotient ch / al, rounded.
        let t = ch * rs;
        let w = t * al;
        let v = ch * u;
        assert(w == ch * x) by (nonlinear_arith)
            requires
                w == t * al,
                t == ch * rs,
                x == rs * al,
        ;
        assert(0x100_0000 * (w - v) <= v && 0x100_0000 * (v - w) <= v) by (nonlinear_arith)
            requires
                w == ch * x,
                v == ch * u,
                ch > 0,
                0x100_0000 * (x - u) <= u,
                0x100_0000 * (u - x) <= u,
        ;
        assert(v <= 255 * u && v >= u) by (nonlinear_arith)
            requires
                v == ch * u,
                1 <= ch <= 255,
                u > 0,
        ;
        assert(t >= 0x80_0000 && t <= 256 * u) by (nonlinear_arith)
            requires
                w == t * al,
                1 <= al <= 255,
                t >= 0,
                2 * w >= v,
                v >= u,
                u >= 0x1_0000_0000,
                0x100_0000 * (w - v) <= v,
                v <= 255 * u,
        ;
        let n1 = ((ch as nat) * u) * rs;
        assert(n1 == t * u) by (nonlinear_arith)
            requires
                n1 == (ch * u) * rs,
                t == ch * rs,
        ;
        let big = Binary32::nearest(false, 1 * pow2(157));
        lemma_nearest_exact(false, 1, 157);
        lemma_pow2_adds(8, 149);
        assert(n1 <= big.scaled() * u && n1 >= 0x80_0000 * u) by (nonlinear_arith)
            requires
                n1 == t * u,
                big.scaled() == 256 * u,
                0x80_0000 <= t <= 256 * u,
                u > 0,
        ;
        lemma_round_at_most_value(n1, u, big);
        lemma_round_relative(n1, u);
        assert(r == Binary32::from_parts(false, round_magnitude(n1, u)));
        let s = r.scaled();
        assert(0x100_0000 * (s - t) <= t && 0x100_0000 * (t - s) <= t) by (nonlinear_arith)
            requires
                n1 == t * u,
                0x100_0000 * (s * u - n1) <= n1,
                0x100_0000 * (n1 - s * u) <= n1,
                u > 0,
        ;
        // The product with alpha, before rounding, is s * al units.
        let yv = s * al;
        assert(0x100_0000 * (yv - w) <= w && 0x100_0000 * (w - yv) <= w) by (nonlinear_arith)
            requires
                yv == s * al,
                w == t * al,
                al > 0,
                0x100_0000 * (s - t) <= t,
                0x100_0000 * (t - s) <= t,
        ;
        assert(yv >= v - u && 2 * yv <= 2 * v + u);
        let n2 = s * ((al as nat) * u);
        assert(n2 == yv * u) by (nonlinear_arith)
            requires
                n2 == s * (al * u),
                yv == s * al,
        ;
        let low = Binary32::from_integer((ch - 1) as nat);
        lemma_integer_exact((ch - 1) as nat);
        let high = Binary32::nearest(false, ((2 * ch + 1) as nat) * pow2(148));
        lemma_nearest_exact(false, (2 * ch + 1) as nat, 148);
        assert(n2 >= low.scaled() * u && n2 <= high.scaled() * u) by (nonlinear_arith)
            requires
                n2 == yv * u,
                low.scaled() == (ch - 1) * u,
                high.scaled() == (2 * ch + 1) * pow2(148),
                u == 2 * pow2(148),
                v == ch * u,
                yv >= v - u,
                2 * yv <= 2 * v + u,
                u > 0,
        ;
        lemma_round_at_least_value(n2, u, low);
        lemma_round_at_most_value(n2, u, high);
        assert(y == Binary32::from_parts(false, round_magnitude(n2, u)));
        if y.magnitude() > low.magnitude() {
            lemma_scaled_increases(low, y);
        }
        if y.magnitude() < high.magnitude() {
            lemma_scaled_increases(y, high);
        }
        let ys = y.scaled();
        assert(ys / u == ch - 1 || ys / u == ch) by (nonlinear_arith)
            requires
                ys >= (ch - 1) * u,
                ys <= (2 * ch + 1) * pow2(148),
                u == 2 * pow2(148),
                pow2(148) > 0,
        ;
    }
}

/// A pixel with alpha survives the trip through its colour with the same
/// alpha byte and with each colour byte kept or lowered by one.
pub proof fn lemma_pixel_round_trip(p: Seq<u8>)
    requires
        p.len() == 4,
        p[3] > 0,
    ensures
        Color::of_pixel(p).pixel()[3] == p[3],
        forall|i: int|
            0 <= i < 3 ==> {
                let back = #[trigger] Color::of_pixel(p).pixel()[i];
                back == p[i] || back + 1 == p[i]
            },
{
    let c = Color::of_pixel(p);
    let q = c.pixel();
    lemma_byte_fraction_byte(p[3]);
    lemma_channel_round_trip(p[0], p[3]);
    lemma_channel_round_trip(p[1], p[3]);
    lemma_channel_round_trip(p[2], p[3]);
    assert(q[0] == p[0] || q[0] + 1 == p[0]);
    assert(q[1] == p[1] || q[1] + 1 == p[1]);
    assert(q[2] == p[2] || q[2] + 1 == p[2]);
}

/// A colour whose alpha is a number and at least 1/255 survives the trip
/// through its pixel up to one step of a byte: the pixel of the colour that
/// comes back has the same alpha byte, and each colour byte is kept or
/// lowered by one.
pub proof fn lemma_color_round_trip(c: Color)
    requires
        !c.a.nan(),
        !c.alpha_negligible(),
    ensures
        Color::of_pixel(c.pixel()).pixel()[3] == c.pixel()[3],
        forall|i: int|
            0 <= i < 3 ==> {
                let back = #[trigger] Color::of_pixel(c.pixel()).pixel()[i];
                back == c.pixel()[i] || back + 1 == c.pixel()[i]
            },
{
    lemma_transparent_alpha_byte(c);
    lemma_pixel_round_trip(c.pixel());
}

/// The transparent colour has the pixel of four zero bytes.
pub proof fn lemma_transparent_pixel()
    ensures
        Color::transparent_color().pixel() =~= seq![0u8, 0u8, 0u8, 0u8],
{
    lemma2_to64();
    let u = pow2(149);
    let zero = Binary32 { bits: 0 };
    let scale = Binary32 { bits: BYTE_MAX_BITS };
    lemma_pow2_pos(149);
    lemma_byte_max_value();
    lemma_scaled_zero(zero);
    lemma_round_zero(u);
    assert(zero.scaled() * scale.scaled() == 0) by (nonlinear_arith)
        requires
            zero.scaled() == 0,
    ;
    assert(zero.scaled() * zero.scaled() == 0) by (nonlinear_arith)
        requires
            zero.scaled() == 0,
    ;
    assert(zero.product(scale) == zero);
    assert(zero.product(zero) == zero);
    vstd::arithmetic::div_mod::lemma_basic_div(0, u as int);
    assert(zero.byte() == 0);
}

/// One times 255 is 255.
proof fn lemma_opaque_scale()
    ensures
        (Binary32 { bits: ONE_BITS }).product(Binary32 { bits: BYTE_MAX_BITS }) == (Binary32 {
            bits: BYTE_MAX_BITS,
        }),
{
    lemma2_to64();
    let u = pow2(149);
    lemma_one_value();
    lemma_byte_max_value();
    lemma_pow2_adds(149, 149);
    assert(u * (255 * u) == 255 * pow2(298)) by (nonlinear_arith)
        requires
            pow2(298) == u * u,
    ;
    assert(255 * pow2(16) == 0xff_0000 && 1 * pow2(0) == 1 && 1 * pow2(149) == u);
    assert(is_nearest_even(0xff_0000, 0xff_0000, 1));
    lemma_rounding_value(255, 1, 298, 149, 16, 0, 133, 0xff_0000);
}

/// An opaque colour made of three bytes has those bytes in its pixel, and
/// 255 for alpha.
pub proof fn lemma_opaque_bytes_pixel(r: u8, g: u8, b: u8)
    ensures
        (Color {
            r: byte_fraction(r),
            g: byte_fraction(g),
            b: byte_fraction(b),
            a: Binary32 { bits: ONE_BITS },
        }).pixel() =~= seq![b, g, r, 255u8],
{
    let u = pow2(149);
    let scale = Binary32 { bits: BYTE_MAX_BITS };
    lemma_opaque_scale();
    lemma_byte_fraction_byte(r);
    lemma_byte_fraction_byte(g);
    lemma_byte_fraction_byte(b);
    lemma_byte_max_value();
    lemma_pow2_pos(149);
    lemma_div_multiples_vanish(255, u as int);
    assert(255 * u == u * 255) by (nonlinear_arith);
    assert(scale.byte() == 255);
}

} // verus!
