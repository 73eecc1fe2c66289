use xensieve::{Residual, Sieve};

fn range(from: i128, to: i128) -> Vec<i128> {
    (from..to).collect()
}

#[test]
fn composed_text_reads_as_operations() {
    let a = "5@0|4@2";
    let b = "30@10";
    let sa = Sieve::new(a);
    let sb = Sieve::new(b);
    let and = Sieve::new(&format!("({})&({})", a, b));
    let xor = Sieve::new(&format!("({})^({})", a, b));
    let or = Sieve::new(&format!("({})|({})", a, b));
    let not = Sieve::new(&format!("!({})", a));
    for v in -70..70 {
        assert_eq!(and.contains(v), sa.contains(v) && sb.contains(v));
        assert_eq!(xor.contains(v), sa.contains(v) != sb.contains(v));
        assert_eq!(or.contains(v), sa.contains(v) || sb.contains(v));
        assert_eq!(not.contains(v), !sa.contains(v));
    }
}

#[test]
fn operand_text_reads_as_residual() {
    let s = Sieve::new("7@9");
    let r = Residual::<u64>::new(7, 9);
    for v in -30..30 {
        assert_eq!(s.contains(v), r.contains(v));
    }
}

#[test]
fn residuals_equal_when_shifts_agree() {
    assert_eq!(Residual::<u64>::new(3, 1), Residual::<u64>::new(3, 4));
    assert_ne!(Residual::<u64>::new(3, 1), Residual::<u64>::new(3, 2));
    assert_eq!(Residual::<u64>::new(0, 1), Residual::<u64>::new(0, 5));
}

#[test]
fn sieve_repeats_with_least_common_multiple() {
    // The moduli 4 and 6 have 12 as least common multiple, below their product.
    let s = Sieve::new("4@1|!6@3");
    for v in -50..50 {
        assert_eq!(s.contains(v + 12), s.contains(v));
    }
}

#[test]
fn intervals_are_differences_of_members() {
    let s = Sieve::new("3@0|4@0");
    let xs = range(-13, 30);
    let members = s.iter_value(xs.clone()).collect();
    let intervals = s.iter_interval(xs).collect();
    assert_eq!(intervals.len(), members.len() - 1);
    for i in 0..intervals.len() {
        assert_eq!(intervals[i], members[i + 1] - members[i]);
        assert!(intervals[i] > 0);
    }
}

#[test]
fn intervals_empty_with_one_member() {
    let s = Sieve::new("10@3");
    assert_eq!(s.iter_interval(range(0, 10)).collect(), Vec::<i128>::new());
}

#[test]
fn residuals_order_by_modulus_then_shift() {
    let new = Residual::<u64>::new;
    assert!(new(5, 2) < new(5, 3));
    assert!(new(2, 3) < new(5, 3));
    assert!(new(2, 9) < new(5, 0));
    assert!(new(5, 3) > new(5, 2));
    assert!(new(5, 8) <= new(5, 3));
    assert!(new(5, 2) != new(5, 3));
}

#[test]
fn try_new_typed_accepts_valid_text() {
    let s = Sieve::<u64>::try_new_typed("(5@0|4@2)&!30@10").unwrap();
    assert_eq!(s.to_string(), Sieve::new("(5@0|4@2)&!30@10").to_string());
}

#[test]
fn try_new_typed_refuses_invalid_text() {
    assert!(Sieve::<u64>::try_new_typed("3@0|").is_none());
    assert!(Sieve::<u64>::try_new_typed("3@0 x").is_none());
    assert!(Sieve::<u64>::try_new_typed("3-0").is_none());
    assert!(Sieve::<u8>::try_new_typed("300@0").is_none());
    assert!(Sieve::<u8>::try_new_typed("200@255").is_some());
}

#[test]
fn iter_value_filters_arbitrary_inputs() {
    let s = Sieve::new("3@0|4@0");
    let xs: Vec<i128> = vec![9, -4, 5, 9, 0, 12, 7, 12, -3];
    let expected: Vec<i128> = xs.iter().copied().filter(|v| s.contains(*v)).collect();
    assert_eq!(s.iter_value(xs).collect(), expected);
}
