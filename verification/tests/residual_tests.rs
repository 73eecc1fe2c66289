use xensieve::Residual;

#[test]
fn test_residual_a() {
    let r1 = Residual::<u64>::new(3, 0);
    assert_eq!(r1.to_string(), String::from("3@0"));
}

#[test]
fn test_residual_b() {
    let r1 = Residual::<u64>::new(0, 2);
    assert_eq!(r1.to_string(), "0@0");
}

#[test]
fn test_residual_to_string_a() {
    let r1 = Residual::<u64>::new(3, 0);
    assert_eq!(r1.to_string(), "3@0");
}

#[test]
fn test_residual_to_string_b() {
    let r1 = Residual::<u64>::new(8, 3);
    assert_eq!(r1.to_string(), "8@3");
}

#[test]
fn test_residual_to_string_c() {
    let r1 = Residual::<u64>::new(5, 8);
    assert_eq!(r1.to_string(), "5@3");
}

#[test]
fn test_residual_to_string_d() {
    let r1 = Residual::<u64>::new(5, 9);
    assert_eq!(r1.to_string(), "5@4");
}

#[test]
fn test_residual_to_string_e() {
    let r1 = Residual::<u64>::new(5, 10);
    assert_eq!(r1.to_string(), "5@0");
}

#[test]
fn test_residual_eq_a() {
    let r1 = Residual::<u64>::new(5, 2);
    let r2 = Residual::<u64>::new(5, 3);
    assert_eq!(r1 == r2, false);
    assert_eq!(r1 != r2, true);
}

#[test]
fn test_residual_eq_b() {
    let r1 = Residual::<u64>::new(5, 2);
    let r2 = Residual::<u64>::new(5, 2);
    assert_eq!(r1 == r2, true);
    assert_eq!(r1 != r2, false);
}

#[test]
fn test_residual_ord_a() {
    let r1 = Residual::<u64>::new(5, 2);
    let r2 = Residual::<u64>::new(5, 3);
    assert!(r1 < r2);
}

#[test]
fn test_residual_ord_b() {
    let r1 = Residual::<u64>::new(2, 3);
    let r2 = Residual::<u64>::new(5, 3);
    assert!(r1 < r2);
}

#[test]
fn test_residual_ord_c() {
    let r1 = Residual::<u64>::new(5, 3);
    let r2 = Residual::<u64>::new(5, 3);
    assert!(r1 == r2);
}

#[test]
fn test_residual_bitand_a() {
    let r1 = Residual::<u64>::new(4, 0);
    let r2 = Residual::<u64>::new(3, 0);
    assert_eq!((r1 & r2).to_string(), "12@0");
}

#[test]
fn test_residual_bitand_b() {
    let r1 = Residual::<u64>::new(4, 0);
    let r2 = Residual::<u64>::new(3, 1);
    assert_eq!((r1 & r2).to_string(), "12@4");
}

#[test]
fn test_residual_bitand_c() {
    let r1 = Residual::<u64>::new(5, 2);
    let r2 = Residual::<u64>::new(10, 3);
    assert_eq!((r1 & r2).to_string(), "0@0");
}

#[test]
fn test_residual_bitand_d() {
    let r1 = Residual::<u64>::new(3, 2);
    let r2 = Residual::<u64>::new(3, 1);
    assert_eq!((r1 & r2).to_string(), "0@0");
}

#[test]
fn test_residual_contains_a() {
    let r1 = Residual::<u64>::new(3, 0);
    assert_eq!(r1.contains(-3), true);
    assert_eq!(r1.contains(-2), false);
    assert_eq!(r1.contains(-1), false);
    assert_eq!(r1.contains(0), true);
    assert_eq!(r1.contains(1), false);
    assert_eq!(r1.contains(2), false);
    assert_eq!(r1.contains(3), true);
    assert_eq!(r1.contains(4), false);
    assert_eq!(r1.contains(5), false);
}

#[test]
fn test_residual_contains_b() {
    let r1 = Residual::<u64>::new(0, 0);
    assert_eq!(r1.contains(-2), false);
    assert_eq!(r1.contains(-1), false);
    assert_eq!(r1.contains(0), false);
    assert_eq!(r1.contains(1), false);
    assert_eq!(r1.contains(2), false);
    assert_eq!(r1.contains(3), false);
}

#[test]
fn test_residual_contains_c() {
    let r1 = Residual::<u64>::new(3, 1);
    assert_eq!(r1.contains(-3), false);
    assert_eq!(r1.contains(-2), true);
    assert_eq!(r1.contains(-1), false);
    assert_eq!(r1.contains(0), false);
    assert_eq!(r1.contains(1), true);
    assert_eq!(r1.contains(2), false);
    assert_eq!(r1.contains(3), false);
    assert_eq!(r1.contains(4), true);
}
