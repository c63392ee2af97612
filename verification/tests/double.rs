use aether::double::{from_integer, from_natural, plus, reciprocal, Double};

fn d(x: f64) -> Double {
    Double { bits: x.to_bits() }
}

fn sample() -> Vec<f64> {
    vec![
        0.0, -0.0, 1.0, -1.0, 0.1, 1e300, -1e300, f64::MIN_POSITIVE, 5e-324, f64::INFINITY,
        f64::NEG_INFINITY, f64::NAN, 1.0 / 61.0,
    ]
}

#[test]
fn comparisons_agree_with_the_machine() {
    for a in sample() {
        assert_eq!(d(a).is_nan(), a.is_nan());
        for b in sample() {
            assert_eq!(d(a).less(d(b)), a < b, "{a} < {b}");
            assert_eq!(d(a).at_most(d(b)), a <= b, "{a} <= {b}");
        }
    }
}

#[test]
fn naturals_and_integers_convert_as_the_machine_does() {
    let mut numbers: Vec<u64> = (0..64).flat_map(|k| [1u64 << k, (1u64 << k) - 1, (1u64 << k) | 1]).collect();
    numbers.extend([(1 << 53) + 1, (1 << 53) + 3, (1 << 54) + 2, (1 << 54) + 6, u64::MAX]);
    for n in numbers {
        assert_eq!(from_natural(n).bits, (n as f64).to_bits(), "{n}");
        assert_eq!(from_integer(n as i64).bits, (n as i64 as f64).to_bits(), "{}", n as i64);
        assert_eq!(from_integer((n as i64).wrapping_neg()).bits, ((n as i64).wrapping_neg() as f64).to_bits());
    }
}

#[test]
fn reciprocals_round_as_the_machine_does() {
    for n in 1..5000u64 {
        let x = n as f64;
        assert_eq!(reciprocal(d(x)).bits, (1.0 / x).to_bits(), "1/{n}");
    }
    assert_eq!(reciprocal(d(u64::MAX as f64)).bits, (1.0 / u64::MAX as f64).to_bits());
}

#[test]
fn sums_round_as_the_machine_does() {
    for i in 1..300u64 {
        for j in 1..300u64 {
            let (a, b) = (1.0 / i as f64, 1.0 / j as f64);
            assert_eq!(plus(d(a), d(b)).bits, (a + b).to_bits(), "1/{i} + 1/{j}");
        }
    }
    assert_eq!(plus(d(0.0), d(0.25)).bits, 0.25f64.to_bits());
    assert_eq!(plus(d(60.0), d(1.0)).bits, 61.0f64.to_bits());
}
