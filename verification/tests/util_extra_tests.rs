use xensieve::util::{gcd, intersection};
use xensieve::Residual;

#[test]
fn gcd_of_equal_and_coprime() {
    assert_eq!(gcd(7, 7).unwrap(), 7);
    assert_eq!(gcd(1, 1000).unwrap(), 1);
    assert_eq!(gcd(u128::MAX, u128::MAX - 1).unwrap(), 1);
}

#[test]
fn intersection_classes_with_no_common_member() {
    assert_eq!(intersection::<u64>(6, 4, 1, 2).unwrap(), (0, 0));
}

#[test]
fn intersection_overflow_is_an_error() {
    let big: u128 = 1u128 << 100;
    assert!(intersection::<u128>(big, big - 1, 0, 0).is_err());
}

#[test]
fn intersection_too_large_for_type_is_an_error() {
    assert!(intersection::<u8>(16, 17, 0, 0).is_err());
    assert_eq!(intersection::<u16>(16, 17, 0, 0).unwrap(), (272, 0));
}

#[test]
fn intersection_members_are_common_members() {
    // where the first reduced shift is not above the second
    let cases: Vec<(u64, u64, u64, u64)> = vec![(4, 3, 0, 1), (6, 4, 2, 4), (45, 40, 1, 11), (9, 12, 3, 6)];
    for (m1, m2, s1, s2) in cases {
        let (m, s) = intersection::<u64>(m1, m2, s1, s2).unwrap();
        let r = Residual::<u64>::new(m, s);
        let r1 = Residual::<u64>::new(m1, s1);
        let r2 = Residual::<u64>::new(m2, s2);
        for v in -400..400 {
            assert_eq!(r.contains(v), r1.contains(v) && r2.contains(v));
        }
    }
}

#[test]
fn intersection_of_larger_shift_first() {
    // the shift is computed from the distance between the reduced shifts,
    // which here gives a class outside the second one
    let (m, s) = intersection::<u64>(45, 40, 11, 1).unwrap();
    assert_eq!((m, s), (360, 101));
    assert!(!Residual::<u64>::new(40, 1).contains(101));
}

#[test]
fn residual_and_zero_modulus() {
    let r = Residual::<u64>::new(0, 0) & Residual::<u64>::new(3, 1);
    assert_eq!(r.to_string(), "0@0");
}

#[test]
fn residual_to_string_large() {
    let r = Residual::<u128>::new(u128::MAX, 5);
    assert_eq!(r.to_string(), "340282366920938463463374607431768211455@5");
}

#[test]
fn residual_periodic() {
    let r = Residual::<u64>::new(7, 3);
    for v in -30..30 {
        assert_eq!(r.contains(v), r.contains(v + 7 * 5));
    }
}

#[test]
fn error_messages() {
    assert_eq!(gcd(0, 5).unwrap_err(), "zero or negative values not supported");
    let big: u128 = 1u128 << 100;
    assert_eq!(intersection::<u128>(big, big - 1, 0, 0).unwrap_err(), "intersection overflow");
    assert_eq!(intersection::<u8>(16, 17, 0, 0).unwrap_err(), "intersection conversion failure");
}
