use cuda_lbm::ieee::{double_finite, double_less, single_finite, single_less};

#[test]
fn singles_are_ordered_like_numbers() {
    let numbers = [
        0.0f32, -0.0, 1.0, -1.0, 1.5, 0.03, 2e-5, 1e-45, -1e-45, 1.1754942e-38, 1.1754944e-38,
        f32::MAX, f32::MIN, f32::INFINITY, f32::NEG_INFINITY, f32::NAN, -f32::NAN,
    ];
    for a in numbers {
        for b in numbers {
            assert_eq!(single_less(a.to_bits(), b.to_bits()), a < b, "{a} {b}");
        }
        assert_eq!(single_finite(a.to_bits()), a.is_finite(), "{a}");
    }
}

#[test]
fn doubles_are_ordered_like_numbers() {
    let numbers = [
        0.0f64, -0.0, 1.0, -1.0, 1.5, 2e-6, 1e-4, 5e-324, -5e-324, 2.2250738585072011e-308,
        2.2250738585072014e-308, f64::MAX, f64::MIN, f64::INFINITY, f64::NEG_INFINITY, f64::NAN,
        -f64::NAN,
    ];
    for a in numbers {
        for b in numbers {
            assert_eq!(double_less(a.to_bits(), b.to_bits()), a < b, "{a} {b}");
        }
        assert_eq!(double_finite(a.to_bits()), a.is_finite(), "{a}");
    }
}
