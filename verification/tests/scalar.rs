//! The arithmetic agrees with the machine's single precision, bit for bit.
use particle_life::scalar::Scalar;

fn hold(value: f32) -> Scalar {
    Scalar { bits: value.to_bits() }
}

fn agree(result: Scalar, expected: f32) {
    if expected.is_nan() {
        assert!(result.is_nan());
    } else {
        assert_eq!(result.bits, expected.to_bits());
    }
}

/// Bit patterns of every kind: zeros, subnormals, neighbours of powers of two,
/// infinities, NaNs, and a long scrambled run.
fn samples() -> Vec<f32> {
    let mut bits: Vec<u32> = vec![
        0, 1, 2, 3, 0x7f_ffff, 0x80_0000, 0x80_0001, 0x3eff_ffff, 0x3f00_0000, 0x3f00_0001,
        0x3f7f_ffff, 0x3f80_0000, 0x3f80_0001, 0x3fc0_0000, 0x4020_0000, 0x4080_0000, 0x4b00_0000,
        0x4b7f_ffff, 0x4b80_0000, 0x4f00_0000, 0x4eff_ffff, 0x4f7f_ffff, 0x4f80_0000, 0x5f00_0000,
        0x7f7f_ffff, 0x7f80_0000, 0x7fc0_0000,
    ];
    let mut state: u32 = 12345;
    for _ in 0..200 {
        state = state.wrapping_mul(1664525).wrapping_add(1013904223);
        bits.push((state >> 1) & 0x7fff_ffff);
        // Ordinary sizes as well.
        bits.push(0x3c00_0000 + (state >> 5));
    }
    let mut values: Vec<f32> = Vec::new();
    for b in bits {
        values.push(f32::from_bits(b));
        values.push(f32::from_bits(b | 0x8000_0000));
    }
    values
}

#[test]
fn sums_and_differences_round_like_the_machine() {
    let values = samples();
    for a in &values {
        for b in &values {
            agree(hold(*a).add(hold(*b)), a + b);
            agree(hold(*a).sub(hold(*b)), a - b);
        }
    }
}

#[test]
fn products_and_quotients_round_like_the_machine() {
    let values = samples();
    for a in &values {
        for b in &values {
            agree(hold(*a).mul(hold(*b)), a * b);
            agree(hold(*a).div(hold(*b)), a / b);
        }
    }
}

#[test]
fn remainders_match_the_machine() {
    let values = samples();
    for a in &values {
        for b in &values {
            agree(hold(*a).rem(hold(*b)), a % b);
            agree(hold(*a).rem_euclid(hold(*b)), a.rem_euclid(*b));
        }
    }
}

#[test]
fn roots_round_like_the_machine() {
    for a in &samples() {
        agree(hold(*a).sqrt(), a.sqrt());
    }
    for n in 0..5000u32 {
        agree(Scalar::from_u32(n).sqrt(), (n as f32).sqrt());
    }
}

#[test]
fn whole_numbers_match_the_machine() {
    for a in &samples() {
        agree(hold(*a).trunc(), a.trunc());
        agree(hold(*a).floor(), a.floor());
        agree(hold(*a).ceil(), a.ceil());
        agree(hold(*a).round(), a.round());
        agree(hold(*a).fract(), a.fract());
        agree(hold(*a).recip(), a.recip());
        assert_eq!(hold(*a).to_u32(), *a as u32);
        assert_eq!(hold(*a).to_i32(), *a as i32);
        let n = a.to_bits();
        agree(Scalar::from_u32(n), n as f32);
        agree(Scalar::from_i32(n as i32), n as i32 as f32);
    }
}

#[test]
fn comparisons_match_the_machine() {
    let values = samples();
    for a in &values {
        assert_eq!(hold(*a).is_nan(), a.is_nan());
        assert_eq!(hold(*a).is_finite(), a.is_finite());
        agree(hold(*a).abs(), a.abs());
        agree(hold(*a).neg(), -a);
        for b in &values {
            assert_eq!(hold(*a).lt(hold(*b)), a < b);
            assert_eq!(hold(*a).le(hold(*b)), a <= b);
            assert_eq!(hold(*a).same(hold(*b)), a == b);
            if a != b || a.to_bits() == b.to_bits() {
                agree(hold(*a).min(hold(*b)), a.min(*b));
                agree(hold(*a).max(hold(*b)), a.max(*b));
            }
        }
        if !a.is_nan() {
            agree(hold(*a).clamp(hold(-1.0), hold(0.95)), a.clamp(-1.0, 0.95));
        }
    }
}
