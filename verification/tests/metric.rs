use drain::metric::{Metric, TENTH};

fn metric(x: f64) -> Metric {
    Metric { bits: x.to_bits() }
}

fn samples() -> Vec<f64> {
    vec![
        0.0,
        -0.0,
        1.0,
        -1.0,
        0.1,
        0.25,
        0.9,
        0.99,
        1.5,
        2.0,
        3.0,
        19.999,
        20.0,
        50.0,
        255.0,
        1e6,
        1e18,
        1e19,
        1.8446744073709552e19,
        1e300,
        -1e300,
        f64::MIN_POSITIVE,
        5e-324,
        -5e-324,
        f64::MAX,
        f64::INFINITY,
        f64::NEG_INFINITY,
        f64::NAN,
    ]
}

#[test]
fn readings_are_ordered_as_doubles() {
    for a in samples() {
        for b in samples() {
            assert_eq!(metric(a).less(metric(b)), a < b, "{} {}", a, b);
            assert_eq!(metric(a).reaches(metric(b)), a >= b, "{} {}", a, b);
        }
    }
}

#[test]
fn readings_reach_whole_numbers_as_doubles() {
    for n in 0u8..=255 {
        assert_eq!(Metric::whole(n), metric(f64::from(n)));
        for a in samples() {
            assert_eq!(metric(a).reaches_whole(n), a >= f64::from(n), "{} {}", a, n);
        }
    }
}

#[test]
fn readings_are_counted_as_doubles() {
    for a in samples() {
        assert_eq!(metric(a).count(), a as u64, "{}", a);
        assert_eq!(metric(a).number(), !a.is_nan(), "{}", a);
        assert_eq!(metric(a).zeroed(), a == 0.0, "{}", a);
    }
    assert_eq!(metric(12345.9).count(), 12345);
    assert_eq!(metric(9007199254740993.0).count(), 9007199254740992);
}

#[test]
fn constants_are_doubles() {
    assert_eq!(TENTH, 0.1f64.to_bits());
    assert_eq!(Metric::zero(), metric(0.0));
}
