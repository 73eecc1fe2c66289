use xensieve::util::{gcd, intersection, meziriac};

#[test]
fn test_gcd_a() {
    assert_eq!(gcd(14, 15).unwrap(), 1);
}

#[test]
fn test_gcd_b() {
    assert_eq!(gcd(12, 8).unwrap(), 4);
}

#[test]
fn test_gcd_c() {
    let a = 2 * 3 * 5 * 11 * 17;
    let b = 3 * 7 * 11 * 13 * 19;
    assert_eq!(gcd(a, b).unwrap(), 3 * 11);
}

#[test]
fn test_gcd_d() {
    assert_eq!(gcd(12, 0).is_err(), true);
}

#[test]
fn test_gcd_e() {
    assert_eq!(gcd(0, 3).is_err(), true);
}

#[test]
fn test_intersection_a() {
    assert_eq!(intersection::<u64>(0, 0, 2, 3).unwrap(), (0, 0));
}

#[test]
fn test_intersection_b() {
    assert_eq!(intersection::<u64>(45, 40, 11, 1).unwrap(), (360, 101));
}

#[test]
fn test_meziriac_a() {
    assert_eq!(meziriac(1, 1).unwrap(), 1);
    assert_eq!(meziriac(10, 1).unwrap(), 1);
    assert_eq!(meziriac(10, 10).unwrap(), 0);
    assert_eq!(meziriac(12, 12).unwrap(), 0);
    assert_eq!(meziriac(3, 11).unwrap(), 4);
    assert_eq!(meziriac(20, 9).unwrap(), 5);
    assert_eq!(meziriac(101, 13).unwrap(), 4);
}
