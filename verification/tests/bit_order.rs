use float_ord::FloatOrd;
use rp_forest::bits::{key_of, ge_zero, gt_bits, abs_bits, neg_bits};

fn samples() -> Vec<f32> {
    vec![
        0.0,
        -0.0,
        1.0,
        -1.0,
        0.5,
        -0.5,
        1e-40,
        -1e-40,
        f32::MAX,
        f32::MIN,
        f32::INFINITY,
        f32::NEG_INFINITY,
        f32::NAN,
        -f32::NAN,
        3.25,
        -3.25,
    ]
}

#[test]
fn key_order_matches_float_ord() {
    let vals = samples();
    for &a in &vals {
        for &b in &vals {
            let lhs = key_of(a.to_bits()) < key_of(b.to_bits());
            let rhs = FloatOrd(a) < FloatOrd(b);
            assert_eq!(lhs, rhs, "order of {} and {}", a, b);
        }
    }
}

#[test]
fn ge_zero_matches_ieee() {
    for &a in &samples() {
        assert_eq!(ge_zero(a.to_bits()), a >= 0.0, "sign test of {}", a);
    }
}

#[test]
fn gt_matches_ieee() {
    for &a in &samples() {
        for &b in &samples() {
            assert_eq!(gt_bits(a.to_bits(), b.to_bits()), a > b, "{} > {}", a, b);
        }
    }
}

#[test]
fn abs_and_neg_match_ieee() {
    for &a in &samples() {
        assert_eq!(abs_bits(a.to_bits()), a.abs().to_bits(), "abs of {}", a);
        assert_eq!(neg_bits(a.to_bits()), (-a).to_bits(), "negation of {}", a);
    }
}
