use xensieve::Sieve;

#[test]
fn doc_contains_with_spaces() {
    let s = Sieve::new("3@0 & 5@0");
    assert_eq!(s.contains(15), true);
    assert_eq!(s.contains(16), false);
    assert_eq!(s.contains(30), true);
}

#[test]
fn typed_sieve_u32() {
    let s: Sieve<u32> = Sieve::new_typed("3@0|5@1|5@4");
    assert_eq!(s.to_string(), "Sieve{3@0|5@1|5@4}");
    assert!(s.contains(6));
}

#[test]
fn typed_sieve_u8_at_limit() {
    let s: Sieve<u8> = Sieve::new_typed("200@250");
    assert_eq!(s.to_string(), "Sieve{200@50}");
    assert!(s.contains(50));
    assert!(s.contains(250));
}

#[test]
fn typed_sieve_u128_large() {
    let s: Sieve<u128> = Sieve::new_typed("340282366920938463463374607431768211455@7");
    assert_eq!(s.to_string(), "Sieve{340282366920938463463374607431768211455@7}");
    assert!(s.contains(7));
    assert!(!s.contains(8));
}

#[test]
fn and_binds_tighter_than_or() {
    // read as 3@0 | (4@0 & 5@0)
    let s = Sieve::new("3@0|4@0&5@0");
    assert_eq!(s.contains(3), true);
    assert_eq!(s.contains(4), false);
    assert_eq!(s.contains(20), true);
}

#[test]
fn and_binds_tighter_than_xor() {
    // read as 2@0 ^ (3@0 & 3@0)
    let s = Sieve::new("2@0^3@0&3@0");
    assert_eq!(s.contains(2), true);
    assert_eq!(s.contains(3), true);
    assert_eq!(s.contains(6), false);
}

#[test]
fn xor_binds_tighter_than_or() {
    // read as (2@0 ^ 2@0) | 3@0
    let s = Sieve::new("2@0^2@0|3@0");
    assert_eq!(s.contains(2), false);
    assert_eq!(s.contains(3), true);
}

#[test]
fn not_binds_tightest() {
    // read as (!3@0) & 4@0
    let s = Sieve::new("!3@0&4@0");
    assert_eq!(s.contains(4), true);
    assert_eq!(s.contains(12), false);
    assert_eq!(s.contains(1), false);
}

#[test]
fn double_inversion() {
    let s = Sieve::new("!!3@0");
    assert_eq!(s.to_string(), "Sieve{!(!(3@0))}");
    assert_eq!(s.contains(3), true);
    assert_eq!(s.contains(4), false);
}

#[test]
fn parentheses_override_precedence() {
    let s = Sieve::new("(3@0|4@0)&5@0");
    assert_eq!(s.contains(3), false);
    assert_eq!(s.contains(15), true);
    assert_eq!(s.contains(20), true);
    assert_eq!(s.contains(5), false);
}

#[test]
fn symmetric_difference_membership() {
    let s = Sieve::new("2@0^3@0");
    assert_eq!(s.contains(2), true);
    assert_eq!(s.contains(3), true);
    assert_eq!(s.contains(6), false);
    assert_eq!(s.contains(1), false);
}

#[test]
fn sieve_periodic_over_product_of_moduli() {
    let s = Sieve::new("(5@0|4@2)&!30@10");
    let period: i128 = 5 * 4 * 30;
    for v in -50..50 {
        assert_eq!(s.contains(v), s.contains(v + period));
        assert_eq!(s.contains(v), s.contains(v - 3 * period));
    }
}

#[test]
fn operators_combine_membership() {
    let a = Sieve::new("2@0");
    let b = Sieve::new("3@1");
    for v in -12..12 {
        assert_eq!((&a & &b).contains(v), a.contains(v) && b.contains(v));
        assert_eq!((&a | &b).contains(v), a.contains(v) || b.contains(v));
        assert_eq!((&a ^ &b).contains(v), a.contains(v) != b.contains(v));
        assert_eq!((!&a).contains(v), !a.contains(v));
    }
}

#[test]
fn empty_class_contains_nothing() {
    let s = Sieve::new("0@0");
    for v in -5..5 {
        assert!(!s.contains(v));
    }
    let t = Sieve::new("!0@3");
    for v in -5..5 {
        assert!(t.contains(v));
    }
}

#[test]
fn extreme_values() {
    let s = Sieve::new("2@1");
    assert_eq!(s.contains(i128::MIN), false);
    assert_eq!(s.contains(i128::MAX), true);
    assert_eq!(s.contains(i128::MIN + 1), true);
}
