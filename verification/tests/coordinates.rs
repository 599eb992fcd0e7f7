use overline::{to_key, CoordinateKey, OverlineError, Point};

fn point(x: f64, y: f64) -> Point {
    Point { x: x.to_bits(), y: y.to_bits() }
}

#[test]
fn key_of_an_ordinary_point_keeps_its_bits() {
    let key = to_key(point(1.5, -2.25)).unwrap();
    assert_eq!(key, CoordinateKey { x: 1.5f64.to_bits(), y: (-2.25f64).to_bits() });
}

#[test]
fn nan_in_either_ordinate_is_rejected() {
    assert_eq!(to_key(point(f64::NAN, 0.0)), Err(OverlineError::InvalidCoordinate));
    assert_eq!(to_key(point(0.0, f64::NAN)), Err(OverlineError::InvalidCoordinate));
    assert_eq!(to_key(point(-f64::NAN, 1.0)), Err(OverlineError::InvalidCoordinate));
    // The smallest and the largest bit pattern that is not a number.
    assert_eq!(
        to_key(Point { x: 0x7ff0_0000_0000_0001, y: 0 }),
        Err(OverlineError::InvalidCoordinate)
    );
    assert_eq!(
        to_key(Point { x: 0, y: 0xffff_ffff_ffff_ffff }),
        Err(OverlineError::InvalidCoordinate)
    );
}

#[test]
fn infinities_are_numbers() {
    assert!(to_key(point(f64::INFINITY, f64::NEG_INFINITY)).is_ok());
}

#[test]
fn the_two_zeros_have_one_key() {
    assert_eq!(to_key(point(-0.0, 0.0)), to_key(point(0.0, -0.0)));
    assert_eq!(to_key(point(-0.0, -0.0)).unwrap(), CoordinateKey { x: 0, y: 0 });
}

#[test]
fn points_that_differ_in_the_last_bit_have_different_keys() {
    let next = f64::from_bits(1.0f64.to_bits() + 1);
    assert_ne!(to_key(point(1.0, 2.0)), to_key(point(next, 2.0)));
    assert_ne!(to_key(point(2.0, 1.0)), to_key(point(2.0, next)));
}

#[test]
fn keys_agree_with_equality_of_numbers() {
    let samples = [0.0, -0.0, 1.0, -1.0, 1e-300, -1e300, f64::INFINITY, f64::MIN_POSITIVE];
    for a in samples {
        for b in samples {
            let same_key = to_key(point(a, 7.0)) == to_key(point(b, 7.0));
            assert_eq!(same_key, a == b, "{} and {}", a, b);
        }
    }
}
