use dpcolor::binary32::Binary32;
use dpcolor::color::{
    Color, Pixel, ALPHA_CHANNEL, BLUE_CHANNEL, GREEN_CHANNEL, RED_CHANNEL, WHITE_PIXEL, ZERO_PIXEL,
};

fn soft(x: f32) -> Binary32 {
    Binary32::from_bits(x.to_bits())
}

fn color(r: f32, g: f32, b: f32, a: f32) -> Color {
    Color { r: soft(r), g: soft(g), b: soft(b), a: soft(a) }
}

fn channels(c: Color) -> [u32; 4] {
    [c.r.to_bits(), c.g.to_bits(), c.b.to_bits(), c.a.to_bits()]
}

fn bits(r: f32, g: f32, b: f32, a: f32) -> [u32; 4] {
    [r.to_bits(), g.to_bits(), b.to_bits(), a.to_bits()]
}

fn float_pixel(r: f32, g: f32, b: f32, a: f32) -> Pixel {
    let af = a * 255.0;
    [(b * af) as u8, (g * af) as u8, (r * af) as u8, (a * 255.0) as u8]
}

fn float_hsv(h: f32, s: f32, v: f32) -> [u32; 4] {
    let c = v * s;
    let hp = (h / 60.0) % 6.0;
    let x = c * (1.0 - ((hp % 2.0) - 1.0).abs());
    let m = v - c;
    let (r, g, b) = if 0.0 <= hp && hp < 1.0 {
        (c, x, 0.0)
    } else if hp < 2.0 {
        (x, c, 0.0)
    } else if hp < 3.0 {
        (0.0, c, x)
    } else if hp < 4.0 {
        (0.0, x, c)
    } else if hp < 5.0 {
        (x, 0.0, c)
    } else if hp < 6.0 {
        (c, 0.0, x)
    } else {
        (0.0, 0.0, 0.0)
    };
    bits(r + m, g + m, b + m, 1.0)
}

fn same_channels(got: [u32; 4], want: [u32; 4]) -> bool {
    (0..4).all(|i| {
        let w = f32::from_bits(want[i]);
        if w.is_nan() {
            f32::from_bits(got[i]).is_nan()
        } else {
            got[i] == want[i]
        }
    })
}

fn grid() -> Vec<f32> {
    let mut values = vec![0.0, 1.0, 0.5, 0.001, 0.003, 0.004, 1.0 / 255.0, 0.2, 0.999, 1.5, -0.25];
    for k in 0..=20 {
        values.push(k as f32 / 20.0);
    }
    values
}

#[test]
fn test_equality() {
    let c1 = Color::rgb8(0, 0, 0);
    let c2 = Color::rgb8(255, 255, 255);
    let c3 = Color::rgb8(255, 255, 254);

    assert!(c1 == c1);
    assert!(c1 != c2);
    assert!(c1 != c3);
    assert!(c2 != c3);
    assert!(c1 == color(0.001, 0.0, 0.0, 1.0));
}

#[test]
fn rgb8_divides_each_byte_by_255() {
    for k in 0..=255u8 {
        let c = Color::rgb8(k, 255 - k, k / 2);
        let want = bits(k as f32 / 255.0, (255 - k) as f32 / 255.0, (k / 2) as f32 / 255.0, 1.0);
        assert_eq!(channels(c), want);
    }
}

#[test]
fn from_argb32_unpacks_alpha_red_green_blue() {
    let c = Color::from_argb32(0x80ff_4001);
    assert_eq!(channels(c), bits(255.0 / 255.0, 64.0 / 255.0, 1.0 / 255.0, 128.0 / 255.0));
    assert_eq!(Color::argb32_alpha(0x80ff_4001), 0x80);
    assert_eq!(Color::argb32_alpha(0x00ff_ffff), 0);
    assert_eq!(Color::argb32_alpha(0xff00_0000), 255);
}

#[test]
fn as_argb32_packs_truncated_channels() {
    assert_eq!(color(1.0, 0.5, 0.0, 1.0).as_argb32(), 0xffff_7f00);
    assert_eq!(color(0.2, 0.4, 0.6, 0.8).as_argb32(), 0xcc33_6699);
    assert_eq!(color(0.999, 0.001, 0.0, 0.0).as_argb32(), 0x00fe_0000);
    // Not premultiplied: a transparent red keeps its red byte.
    assert_eq!(color(1.0, 0.0, 0.0, 0.0).as_argb32(), 0x00ff_0000);
}

#[test]
fn packing_an_unpacked_value_gives_it_back() {
    let mut state: u32 = 12345;
    for _ in 0..20000 {
        state = state.wrapping_mul(1664525).wrapping_add(1013904223);
        assert_eq!(Color::from_argb32(state).as_argb32(), state);
    }
    for k in 0..=255u32 {
        let packed = k * 0x0101_0101;
        assert_eq!(Color::from_argb32(packed).as_argb32(), packed);
    }
}

#[test]
fn quantization_is_idempotent() {
    for r in grid() {
        for a in grid() {
            let c = color(r, 1.0 - r, a, a);
            let once = c.as_argb32();
            assert_eq!(Color::from_argb32(once).as_argb32(), once);
        }
    }
}

#[test]
fn transparent_color_gives_the_zero_pixel() {
    assert_eq!(Color::transparent().as_pixel(), [0, 0, 0, 0]);
    assert_eq!(channels(Color::transparent()), bits(0.0, 0.0, 0.0, 0.0));
    assert_eq!(Color::white().as_pixel(), [255, 255, 255, 255]);
    assert_eq!(Color::black().as_pixel(), [0, 0, 0, 255]);
}

#[test]
fn as_pixel_premultiplies_in_blue_green_red_alpha_order() {
    assert_eq!(color(1.0, 0.5, 0.25, 1.0).as_pixel(), [63, 127, 255, 255]);
    assert_eq!(color(1.0, 0.5, 0.25, 0.5).as_pixel(), [31, 63, 127, 127]);
    for r in grid() {
        for g in grid() {
            for a in grid() {
                let c = color(r, g, 1.0 - g, a);
                assert_eq!(c.as_pixel(), float_pixel(r, g, 1.0 - g, a));
            }
        }
    }
}

#[test]
fn from_pixel_divides_by_the_alpha_byte() {
    for alpha in 1..=255u8 {
        for step in 0..=16u32 {
            let value = (step * 255 / 16) as u8;
            let p: Pixel = [value, 255 - value, value / 3, alpha];
            let af = 1.0 / alpha as f32;
            let want = bits(
                (value / 3) as f32 * af,
                (255 - value) as f32 * af,
                value as f32 * af,
                alpha as f32 / 255.0,
            );
            assert_eq!(channels(Color::from_pixel(p)), want);
        }
    }
}

#[test]
fn a_pixel_without_alpha_is_transparent() {
    assert_eq!(channels(Color::from_pixel([0, 0, 0, 0])), bits(0.0, 0.0, 0.0, 0.0));
    assert_eq!(channels(Color::from_pixel([12, 200, 255, 0])), bits(0.0, 0.0, 0.0, 0.0));
}

#[test]
fn from_premultiplied_pixel_keeps_the_channels() {
    let c = Color::from_premultiplied_pixel([10, 20, 30, 40]);
    assert_eq!(channels(c), bits(30.0 / 255.0, 20.0 / 255.0, 10.0 / 255.0, 40.0 / 255.0));
}

#[test]
fn a_pixel_survives_the_round_trip_within_one_step() {
    for alpha in 1..=255u8 {
        for value in 0..=255u8 {
            let p: Pixel = [value, value, value, alpha];
            let q = Color::from_pixel(p).as_pixel();
            assert_eq!(q[3], alpha);
            for i in 0..3 {
                assert!(q[i] == value || q[i] as u32 + 1 == value as u32, "{:?} -> {:?}", p, q);
            }
        }
    }
}

#[test]
fn round_trip_of_a_color_stays_within_one_step() {
    for r in grid() {
        for a in grid() {
            if a > 1.0 / 255.0 && r >= 0.0 {
                let c = color(r, 1.0, 0.0, a);
                let p = c.as_pixel();
                let q = Color::from_pixel(p).as_pixel();
                assert_eq!(q[3], p[3]);
                for i in 0..3 {
                    assert!(q[i] == p[i] || q[i] as u32 + 1 == p[i] as u32);
                }
            }
        }
    }
}

#[test]
fn is_transparent_is_alpha_below_one_255th() {
    assert!(color(1.0, 1.0, 1.0, 0.0).is_transparent());
    assert!(!color(1.0, 1.0, 1.0, 1.0).is_transparent());
    assert!(color(1.0, 1.0, 1.0, 0.003).is_transparent());
    assert!(!color(1.0, 1.0, 1.0, 0.004).is_transparent());
    assert!(!color(0.0, 0.0, 0.0, 1.0 / 255.0).is_transparent());
    assert!(color(0.0, 0.0, 0.0, f32::from_bits((1.0f32 / 255.0).to_bits() - 1)).is_transparent());
    assert!(!color(0.0, 0.0, 0.0, f32::NAN).is_transparent());
}

#[test]
fn is_transparent_is_a_zero_alpha_byte() {
    let mut alphas = grid();
    for k in 0..2000u32 {
        alphas.push(f32::from_bits(0x3b80_8081 - 1000 + k));
    }
    for a in alphas {
        let c = color(0.5, 0.5, 0.5, a);
        assert_eq!(c.is_transparent(), a * 255.0 < 1.0);
        assert_eq!(c.is_transparent(), c.as_pixel()[3] == 0);
    }
}

#[test]
fn is_dark_weighs_the_channels() {
    assert!(Color::black().is_dark());
    assert!(!Color::white().is_dark());
    assert!(color(1.0, 0.0, 0.0, 1.0).is_dark());
    assert!(!color(0.0, 1.0, 0.0, 1.0).is_dark());
    assert!(color(0.0, 0.0, 1.0, 1.0).is_dark());
    for r in grid() {
        for g in grid() {
            for b in grid() {
                let luminance = r * 0.216 + g * 0.7152 + b * 0.0722;
                assert_eq!(color(r, g, b, 1.0).is_dark(), luminance <= 0.5);
            }
        }
    }
}

#[test]
fn from_hsv_gives_the_six_pure_hues() {
    assert_eq!(channels(Color::from_hsv(soft(0.0), soft(1.0), soft(1.0))), bits(1.0, 0.0, 0.0, 1.0));
    assert_eq!(channels(Color::from_hsv(soft(60.0), soft(1.0), soft(1.0))), bits(1.0, 1.0, 0.0, 1.0));
    assert_eq!(
        channels(Color::from_hsv(soft(120.0), soft(1.0), soft(1.0))),
        bits(0.0, 1.0, 0.0, 1.0)
    );
    assert_eq!(
        channels(Color::from_hsv(soft(180.0), soft(1.0), soft(1.0))),
        bits(0.0, 1.0, 1.0, 1.0)
    );
    assert_eq!(
        channels(Color::from_hsv(soft(240.0), soft(1.0), soft(1.0))),
        bits(0.0, 0.0, 1.0, 1.0)
    );
    assert_eq!(
        channels(Color::from_hsv(soft(300.0), soft(1.0), soft(1.0))),
        bits(1.0, 0.0, 1.0, 1.0)
    );
}

#[test]
fn from_hsv_agrees_with_the_formula() {
    let mut hues = vec![-30.0, 359.99, 360.0, 400.0, 1.0e9, f32::NAN, f32::INFINITY, 59.999996];
    for k in 0..=72 {
        hues.push(k as f32 * 5.0);
        hues.push(k as f32 * 5.0 + 0.37);
    }
    for h in hues {
        for s in [0.0f32, 0.25, 0.5, 1.0] {
            for v in [0.0f32, 0.1, 0.6, 1.0] {
                let got = channels(Color::from_hsv(soft(h), soft(s), soft(v)));
                assert!(same_channels(got, float_hsv(h, s, v)), "hsv({:?}, {:?}, {:?})", h, s, v);
            }
        }
    }
}

#[test]
fn from_hsv_without_a_sector_is_black_plus_match() {
    // A hue that is not a number lies in no sector: only the match value is left.
    let c = Color::from_hsv(soft(f32::NAN), soft(0.5), soft(1.0));
    assert_eq!(channels(c), bits(0.5, 0.5, 0.5, 1.0));
}

#[test]
fn from_hsv_takes_a_negative_hue_to_the_second_sector() {
    let c = Color::from_hsv(soft(-30.0), soft(0.5), soft(1.0));
    assert_eq!(channels(c), bits(0.25, 1.0, 0.5, 1.0));
}

#[test]
fn from_hsv_puts_a_boundary_in_the_sector_it_opens() {
    // 60 degrees opens the second sector and 360 degrees is 0 again.
    let c = Color::from_hsv(soft(60.0), soft(1.0), soft(0.5));
    assert_eq!(channels(c), bits(0.5, 0.5, 0.0, 1.0));
    let d = Color::from_hsv(soft(360.0), soft(1.0), soft(1.0));
    assert_eq!(channels(d), bits(1.0, 0.0, 0.0, 1.0));
}

#[test]
fn named_pixels_and_channels() {
    assert_eq!(ZERO_PIXEL, [0, 0, 0, 0]);
    assert_eq!(WHITE_PIXEL, [255, 255, 255, 255]);
    assert_eq!(Color::transparent().as_pixel(), ZERO_PIXEL);
    assert_eq!(Color::white().as_pixel(), WHITE_PIXEL);
    let p = color(0.75, 0.5, 0.25, 1.0).as_pixel();
    assert_eq!(p[BLUE_CHANNEL], 63);
    assert_eq!(p[GREEN_CHANNEL], 127);
    assert_eq!(p[RED_CHANNEL], 191);
    assert_eq!(p[ALPHA_CHANNEL], 255);
}

#[test]
fn named_colors_have_exact_channels() {
    assert_eq!(channels(Color::transparent()), bits(0.0, 0.0, 0.0, 0.0));
    assert_eq!(channels(Color::black()), bits(0.0, 0.0, 0.0, 1.0));
    assert_eq!(channels(Color::white()), bits(1.0, 1.0, 1.0, 1.0));
}

#[test]
fn a_round_trip_may_lower_a_byte_by_one() {
    // 5/25 comes back from the reciprocal a little below 0.2.
    let p: Pixel = [5, 5, 5, 25];
    let c = Color::from_pixel(p);
    assert_eq!(c.as_pixel(), [4, 4, 4, 25]);
    assert!(c != color(0.2001, 0.2001, 0.2001, 25.0 / 255.0));
    assert_eq!(color(0.2001, 0.2001, 0.2001, 25.0 / 255.0).as_pixel(), p);
}

#[test]
fn channels_above_one_stop_at_the_largest_byte() {
    assert_eq!(color(2.0, 0.0, 0.0, 0.0).as_argb32(), 0x00ff_0000);
    assert_eq!(color(0.0, 0.0, 300.0, 1.0).as_argb32(), 0xff00_00ff);
    assert_eq!(color(-1.0, f32::NAN, 0.5, 1.0).as_argb32(), 0xff00_007f);
    assert_eq!(color(2.0, 1.0, 1.0, 1.0).as_pixel(), [255, 255, 255, 255]);
    assert_eq!(color(1.0, 1.0, 1.0, f32::NAN).as_pixel(), [0, 0, 0, 0]);
}

#[test]
fn equality_is_equality_of_pixels() {
    for r in grid() {
        for a in grid() {
            let c = color(r, 0.5, 0.25, a);
            let d = color(r + 0.0001, 0.5, 0.25, a);
            assert_eq!(c == d, c.as_pixel() == d.as_pixel());
            assert!(c == c);
        }
    }
    // Two transparent colours are equal whatever their other channels are.
    assert!(color(0.2, 0.4, 0.6, 0.0) == Color::transparent());
}

#[test]
fn an_opaque_color_of_bytes_has_them_in_its_pixel() {
    for k in 0..=255u8 {
        let c = Color::rgb8(k, 255 - k, k / 3);
        assert_eq!(c.as_pixel(), [k / 3, 255 - k, k, 255]);
        assert_eq!(c.as_argb32(), 0xff00_0000 | (k as u32) << 16 | ((255 - k) as u32) << 8 | (k / 3) as u32);
    }
}
