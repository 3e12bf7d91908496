use light_vector_db::storage::quantize::{dequantize, quantize};
use light_vector_db::{cosine_similarity, F32};

fn f(x: f32) -> F32 {
    F32::from_bits(x.to_bits())
}

fn floats(values: &[f32]) -> Vec<F32> {
    values.iter().map(|x| f(*x)).collect()
}

fn number(x: F32) -> f32 {
    f32::from_bits(x.to_bits())
}

/// The same number: one bit pattern, or two NaNs.
fn same(ours: F32, theirs: f32) -> bool {
    ours.to_bits() == theirs.to_bits() || (number(ours).is_nan() && theirs.is_nan())
}

fn next(state: &mut u64) -> u64 {
    *state = state.wrapping_add(0x9E37_79B9_7F4A_7C15);
    let mut z = *state;
    z = (z ^ (z >> 30)).wrapping_mul(0xBF58_476D_1CE4_E5B9);
    z = (z ^ (z >> 27)).wrapping_mul(0x94D0_49BB_1331_11EB);
    z ^ (z >> 31)
}

const SPECIAL: [u32; 24] = [
    0x0000_0000,
    0x8000_0000,
    0x0000_0001,
    0x8000_0001,
    0x0000_0002,
    0x007f_ffff,
    0x0080_0000,
    0x0080_0001,
    0x00ff_ffff,
    0x3f00_0000,
    0x3f7f_ffff,
    0x3f80_0000,
    0x3f80_0001,
    0xbf80_0000,
    0x4000_0000,
    0x4b80_0000,
    0x4b7f_ffff,
    0x5f00_0000,
    0x7f7f_ffff,
    0xff7f_ffff,
    0x7f80_0000,
    0xff80_0000,
    0x7fc0_0000,
    0xffc0_0001,
];

fn check_pair(a: f32, b: f32) {
    let (x, y) = (f(a), f(b));
    assert!(same(x.plus(y), a + b), "{a:e} + {b:e}");
    assert!(same(x.minus(y), a - b), "{a:e} - {b:e}");
    assert!(same(x.times(y), a * b), "{a:e} * {b:e}");
    assert!(same(x.over(y), a / b), "{a:e} / {b:e}");
    assert!(x.lt(y) == (a < b), "{a:e} < {b:e}");
    assert!((x == y) == (a == b), "{a:e} == {b:e}");
    assert!(
        x.total_lt(y) == (a.total_cmp(&b) == std::cmp::Ordering::Less),
        "{a:e} before {b:e}"
    );
}

fn check_one(a: f32) {
    let x = f(a);
    assert!(same(x.sqrt(), a.sqrt()), "sqrt {a:e}");
    assert!(same(x.negate(), -a), "- {a:e}");
    assert_eq!(x.is_finite(), a.is_finite());
    assert_eq!(x.is_nan(), a.is_nan());
    assert_eq!(x.to_u8(), a.round().clamp(0.0, 255.0) as u8, "byte of {a:e}");
}

#[test]
fn special_values_agree_with_the_hardware() {
    for a in SPECIAL {
        check_one(f32::from_bits(a));
        for b in SPECIAL {
            check_pair(f32::from_bits(a), f32::from_bits(b));
        }
    }
}

#[test]
fn random_bit_patterns_agree_with_the_hardware() {
    let mut state = 1u64;
    for _ in 0..200_000 {
        let z = next(&mut state);
        let (a, b) = (f32::from_bits(z as u32), f32::from_bits((z >> 32) as u32));
        check_pair(a, b);
        check_one(a);
    }
}

#[test]
fn random_near_values_agree_with_the_hardware() {
    // Exponents close to each other: cancellation, ties and carries.
    let mut state = 2u64;
    for _ in 0..200_000 {
        let z = next(&mut state);
        let exponent = 100 + (z >> 60) as u32;
        let a = f32::from_bits((exponent << 23) | (z as u32 & 0x807f_ffff));
        let other = 100 + (z >> 56 & 0xf) as u32;
        let b = f32::from_bits((other << 23) | ((z >> 20) as u32 & 0x807f_ffff));
        check_pair(a, b);
        // Few significant bits, so that exact halves occur.
        let c = f32::from_bits(a.to_bits() & 0xffff_f000);
        let d = f32::from_bits(b.to_bits() & 0xffff_f000);
        check_pair(c, d);
        check_pair(c, f32::from_bits(d.to_bits() & 0xfff0_0000));
    }
}

#[test]
fn random_small_values_agree_with_the_hardware() {
    // Subnormal operands and results.
    let mut state = 3u64;
    for _ in 0..100_000 {
        let z = next(&mut state);
        let a = f32::from_bits(z as u32 & 0x81ff_ffff);
        let b = f32::from_bits((z >> 32) as u32 & 0x81ff_ffff);
        check_pair(a, b);
        check_one(a);
        let c = f32::from_bits(((z >> 32) as u32 & 0x83ff_ffff) | 0x3c00_0000);
        check_pair(a, c);
    }
}

#[test]
fn random_unit_values_agree_with_the_hardware() {
    let mut state = 4u64;
    for _ in 0..100_000 {
        let a = (next(&mut state) >> 40) as f32 / (1u32 << 24) as f32 * 300.0 - 10.0;
        check_one(a);
        check_one(a.trunc() + 0.5);
    }
}

#[test]
fn bytes_are_whole_numbers() {
    for n in 0..=255u8 {
        assert_eq!(F32::from_u8(n).to_bits(), f32::from(n).to_bits());
        assert_eq!(F32::from_u8(n).to_u8(), n);
    }
}

#[test]
fn arithmetic_commutes() {
    let (a, b) = (f(0.1), f(-7.25));
    assert_eq!(a.plus(b).to_bits(), b.plus(a).to_bits());
    assert_eq!(a.times(b).to_bits(), b.times(a).to_bits());
}

#[test]
fn exact_results_are_not_rounded() {
    assert_eq!(f(1.5).plus(f(2.25)).to_bits(), 3.75f32.to_bits());
    assert_eq!(f(9.0).sqrt().to_bits(), 3.0f32.to_bits());
    assert_eq!(f(1.0).over(f(8.0)).to_bits(), 0.125f32.to_bits());
}

#[test]
fn identical_vectors_score_one() {
    let score = cosine_similarity(&floats(&[1.0, 2.0]), &floats(&[1.0, 2.0]));
    assert!((number(score) - 1.0).abs() < 1e-6);
}

#[test]
fn zero_vector_scores_zero() {
    let score = cosine_similarity(&floats(&[0.0, 0.0]), &floats(&[1.0, 1.0]));
    assert_eq!(number(score), 0.0);
}

#[test]
fn similarity_is_symmetric_and_exact() {
    let a = floats(&[0.3, -0.7, 0.2]);
    let b = floats(&[0.9, 0.1, 0.4]);
    let score = cosine_similarity(&a, &b);
    assert_eq!(score.to_bits(), cosine_similarity(&b, &a).to_bits());
    let dot: f32 = 0.3f32 * 0.9 + -0.7f32 * 0.1 + 0.2f32 * 0.4;
    let na: f32 = (0.3f32 * 0.3 + 0.7f32 * 0.7 + 0.2f32 * 0.2).sqrt();
    let nb: f32 = (0.9f32 * 0.9 + 0.1f32 * 0.1 + 0.4f32 * 0.4).sqrt();
    assert_eq!(score.to_bits(), (dot / (na * nb)).to_bits());
}

#[test]
fn extra_elements_of_the_longer_vector_are_ignored() {
    let score = |a: &[f32], b: &[f32]| number(cosine_similarity(&floats(a), &floats(b)));
    assert_eq!(score(&[3.0, 4.0], &[1.0]), 1.0);
    assert_eq!(score(&[3.0, 4.0], &[3.0, 4.0, 12.0]), 1.0);
    assert_eq!(score(&[3.0, 4.0, 12.0], &[3.0, 4.0]), 1.0);
    assert_eq!(score(&[3.0, 4.0, 12.0], &[0.0, 0.0]), 0.0);
    assert_eq!(score(&[0.0, 0.0, 12.0], &[3.0, 4.0]), 0.0);
    assert_eq!(score(&[], &[1.0]), 0.0);
}

#[test]
fn quantization_agrees_with_the_hardware() {
    let mut state = 5u64;
    for _ in 0..20_000 {
        let mut unit = || (next(&mut state) >> 40) as f32 / (1u32 << 24) as f32 * 2.0 - 1.0;
        let (p, q, v) = (unit(), unit(), unit());
        let (min, max) = (p.min(q), p.max(q));
        let span = max - min;
        let code = if span <= 0.0 {
            0
        } else {
            (((v - min) / span) * 255.0).round().clamp(0.0, 255.0) as u8
        };
        assert_eq!(quantize(f(v), f(min), f(max)), code);
        let back = min + (f32::from(code) / 255.0) * (max - min);
        assert_eq!(dequantize(code, f(min), f(max)).to_bits(), back.to_bits());
    }
    // Ranges at the edge of what can be represented: the last one reads its
    // maximum back as infinite, as the sum overflows.
    for (min, max) in [(0u32, 1u32), (1, 0x0080_0000), (0x7eff_fffb, 0x7f7f_ffff)] {
        let (min, max) = (f32::from_bits(min), f32::from_bits(max));
        let code = quantize(f(max), f(min), f(max));
        assert_eq!(code, 255);
        let back = min + (f32::from(code) / 255.0) * (max - min);
        assert_eq!(dequantize(code, f(min), f(max)).to_bits(), back.to_bits());
    }
    assert!(!dequantize(255, F32::from_bits(0x7eff_fffb), F32::from_bits(0x7f7f_ffff)).is_finite());
    // A range without width, and one too wide to measure.
    assert_eq!(quantize(f(3.0), f(2.0), f(2.0)), 0);
    assert_eq!(quantize(f(1.0), f(-3e38), f(3e38)), 0);
}

#[test]
fn quantization_keeps_order_ends_and_closeness() {
    let mut state = 6u64;
    for _ in 0..2_000 {
        let mut unit = || (next(&mut state) >> 40) as f32 / (1u32 << 24) as f32 * 2.0 - 1.0;
        let (p, q) = (unit(), unit());
        let (min, max) = (p.min(q), p.max(q));
        if min == max {
            continue;
        }
        assert_eq!(quantize(f(min), f(min), f(max)), 0);
        assert_eq!(quantize(f(max), f(min), f(max)), 255);
        let mut values: Vec<f32> = (0..20).map(|_| unit().clamp(min, max)).collect();
        values.sort_by(|a, b| a.total_cmp(b));
        let codes: Vec<u8> = values.iter().map(|v| quantize(f(*v), f(min), f(max))).collect();
        assert!(codes.windows(2).all(|w| w[0] <= w[1]));
        let width = f64::from(max) - f64::from(min);
        for (v, code) in values.iter().zip(&codes) {
            let back = f64::from(number(dequantize(*code, f(min), f(max))));
            assert!((back - f64::from(*v)).abs() * 255.0 <= width * (1.0 + 1.0 / 2048.0));
        }
    }
    // One step of the range is not always enough.
    let f32_of = |x: f64| x as f32;
    let (min, max) = (f32_of(7.291315202808276e-38), f32_of(7.291440198631294e-38));
    let v = f32_of(7.291336502544934e-38);
    let back = number(dequantize(quantize(f(v), f(min), f(max)), f(min), f(max)));
    let loss = (f64::from(back) - f64::from(v)).abs() * 255.0;
    let width = f64::from(max) - f64::from(min);
    assert!(loss > width);
    assert!(loss <= width * (1.0 + 1.0 / 2048.0) + 255.0 * f64::from(f32::from_bits(1)));
}
