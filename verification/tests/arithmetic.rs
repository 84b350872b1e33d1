use dpcolor::binary32::Binary32;

fn soft(x: f32) -> Binary32 {
    Binary32::from_bits(x.to_bits())
}

fn agrees(got: Binary32, want: f32) -> bool {
    if want.is_nan() {
        got.is_nan()
    } else {
        got.to_bits() == want.to_bits()
    }
}

fn corner_cases() -> Vec<f32> {
    let mut values = vec![
        0.0,
        1.0,
        2.0,
        3.0,
        0.5,
        6.0,
        60.0,
        255.0,
        254.0,
        1.0 / 255.0,
        0.003,
        0.004,
        0.001,
        0.1,
        0.2,
        0.3,
        359.9,
        360.0,
        720.5,
        1.0e-40,
        3.0e38,
        1.5e-45,
        16777216.0,
        16777217.0,
        4294967296.0,
        4294967040.0,
        f32::MIN_POSITIVE,
        f32::MAX,
        f32::EPSILON,
        f32::INFINITY,
        f32::NAN,
        f32::from_bits(0x0000_0001),
        f32::from_bits(0x007f_ffff),
        f32::from_bits(0x0080_0001),
        f32::from_bits(0x3f7f_ffff),
        f32::from_bits(0x3f80_0001),
        f32::from_bits(0x7f7f_fffe),
        f32::from_bits(0x7fa0_0000),
    ];
    let negatives: Vec<f32> = values.iter().map(|v| -*v).collect();
    values.extend(negatives);
    values
}

fn next(state: &mut u64) -> u32 {
    *state = state.wrapping_mul(6364136223846793005).wrapping_add(1442695040888963407);
    (*state >> 32) as u32
}

/// Corner cases, bit patterns spread over the whole range, and numbers of
/// moderate size whose sums and differences round and cancel.
fn samples() -> Vec<f32> {
    let mut values = corner_cases();
    let mut state: u64 = 0x2545_f491_4f6c_dd1d;
    for _ in 0..150 {
        values.push(f32::from_bits(next(&mut state)));
    }
    for _ in 0..150 {
        let fraction = next(&mut state) & 0x007f_ffff;
        let exponent = 100 + next(&mut state) % 56;
        let sign = next(&mut state) & 0x8000_0000;
        values.push(f32::from_bits(sign | (exponent << 23) | fraction));
    }
    values
}

#[test]
fn multiply_agrees_with_hardware() {
    let values = samples();
    for x in values.iter() {
        for y in values.iter() {
            let got = soft(*x).multiply(soft(*y));
            assert!(agrees(got, x * y), "{:?} * {:?}: {:#x}", x, y, got.to_bits());
        }
    }
}

#[test]
fn divide_agrees_with_hardware() {
    let values = samples();
    for x in values.iter() {
        for y in values.iter() {
            let got = soft(*x).divide(soft(*y));
            assert!(agrees(got, x / y), "{:?} / {:?}: {:#x}", x, y, got.to_bits());
        }
    }
}

#[test]
fn plus_agrees_with_hardware() {
    let values = samples();
    for x in values.iter() {
        for y in values.iter() {
            let got = soft(*x).plus(soft(*y));
            assert!(agrees(got, x + y), "{:?} + {:?}: {:#x}", x, y, got.to_bits());
        }
    }
}

#[test]
fn minus_agrees_with_hardware() {
    let values = samples();
    for x in values.iter() {
        for y in values.iter() {
            let got = soft(*x).minus(soft(*y));
            assert!(agrees(got, x - y), "{:?} - {:?}: {:#x}", x, y, got.to_bits());
        }
    }
}

#[test]
fn modulo_agrees_with_hardware() {
    let values = samples();
    for x in values.iter() {
        for y in values.iter() {
            let got = soft(*x).modulo(soft(*y));
            assert!(agrees(got, x % y), "{:?} % {:?}: {:#x}", x, y, got.to_bits());
        }
    }
}

#[test]
fn comparisons_agree_with_hardware() {
    let values = samples();
    for x in values.iter() {
        for y in values.iter() {
            assert_eq!(soft(*x).less_than(soft(*y)), x < y, "{:?} < {:?}", x, y);
            assert_eq!(soft(*x).less_or_equal(soft(*y)), x <= y, "{:?} <= {:?}", x, y);
        }
    }
}

#[test]
fn truncation_agrees_with_hardware() {
    for x in samples() {
        assert_eq!(soft(x).to_u32(), x as u32, "{:?} as u32", x);
        assert_eq!(soft(x).to_u8(), x as u8, "{:?} as u8", x);
    }
    for k in 0..1000u32 {
        let x = k as f32 * 0.37;
        assert_eq!(soft(x).to_u32(), x as u32);
        assert_eq!(soft(x).to_u8(), x as u8);
    }
}

#[test]
fn sign_operations_agree_with_hardware() {
    for x in samples() {
        assert_eq!(soft(x).abs().to_bits(), x.abs().to_bits());
        assert_eq!(soft(x).negate().to_bits(), (-x).to_bits());
        assert_eq!(soft(x).is_nan(), x.is_nan());
        assert_eq!(soft(x).is_infinite(), x.is_infinite());
        assert_eq!(soft(x).is_negative(), x.is_sign_negative());
        assert_eq!(soft(x).is_zero(), x == 0.0);
    }
}

#[test]
fn every_byte_is_exact() {
    for k in 0..=255u8 {
        assert_eq!(Binary32::from_u8(k).to_bits(), (k as f32).to_bits());
        assert_eq!(Binary32::from_u8(k).to_u8(), k);
    }
}

#[test]
fn products_round_to_even_on_ties() {
    // (1 + 2^-23) * (1 + 2^-1) lies half way between two neighbours.
    let x = f32::from_bits(0x3f80_0001);
    let got = soft(x).multiply(soft(1.5));
    assert_eq!(got.to_bits(), 0x3fc0_0002);
    // 3 units of 2^-149 halved is one and a half units: the even neighbour is 2.
    let tiny = f32::from_bits(3);
    assert_eq!(soft(tiny).multiply(soft(0.5)).to_bits(), 2);
    assert_eq!(soft(f32::from_bits(1)).multiply(soft(0.5)).to_bits(), 0);
}

#[test]
fn overflow_gives_infinity_and_invalid_gives_nan() {
    assert_eq!(soft(f32::MAX).multiply(soft(2.0)).to_bits(), 0x7f80_0000);
    assert_eq!(soft(f32::MAX).plus(soft(f32::MAX)).to_bits(), 0x7f80_0000);
    assert_eq!(soft(-1.0).divide(soft(0.0)).to_bits(), 0xff80_0000);
    assert_eq!(soft(0.0).divide(soft(0.0)).to_bits(), 0x7fc0_0000);
    assert_eq!(soft(f32::INFINITY).minus(soft(f32::INFINITY)).to_bits(), 0x7fc0_0000);
    assert_eq!(soft(f32::INFINITY).multiply(soft(0.0)).to_bits(), 0x7fc0_0000);
    assert_eq!(soft(1.0).modulo(soft(0.0)).to_bits(), 0x7fc0_0000);
}

#[test]
fn exact_zero_sums_keep_the_ieee_sign() {
    assert_eq!(soft(1.0).minus(soft(1.0)).to_bits(), 0);
    assert_eq!(soft(-0.0).plus(soft(-0.0)).to_bits(), 0x8000_0000);
    assert_eq!(soft(0.0).plus(soft(-0.0)).to_bits(), 0);
    assert_eq!(soft(-6.0).modulo(soft(6.0)).to_bits(), 0x8000_0000);
}
