use xensieve::Sieve;

fn range(from: i128, to: i128) -> Vec<i128> {
    (from..to).collect()
}

#[test]
fn iter_value_union_of_two_classes() {
    let s = Sieve::new("3@0|4@0");
    assert_eq!(s.iter_value(range(0, 13)).collect(), vec![0, 3, 4, 6, 8, 9, 12]);
}

#[test]
fn iter_state_union_of_two_classes() {
    let s = Sieve::new("3@0|4@0");
    assert_eq!(
        s.iter_state(range(0, 7)).collect(),
        vec![true, false, false, true, true, false, true]
    );
}

#[test]
fn iter_interval_union_of_two_classes() {
    let s = Sieve::new("3@0|4@0");
    assert_eq!(s.iter_interval(range(0, 13)).collect(), vec![3, 1, 2, 2, 1, 3]);
}

#[test]
fn iter_value_shifted_class() {
    let s = Sieve::new("3@0|5@1");
    assert_eq!(s.iter_value(range(0, 15)).collect(), vec![0, 1, 3, 6, 9, 11, 12]);
}

#[test]
fn iter_value_step_by_step() {
    let s = Sieve::new("3@0|4@0");
    let mut it = s.iter_value(range(17, 30));
    assert_eq!(it.next().unwrap(), 18);
    assert_eq!(it.next().unwrap(), 20);
}

#[test]
fn iter_value_fed_one_by_one() {
    let s = Sieve::new("3@0|4@0");
    let mut it = s.iter_value(Vec::new());
    assert_eq!(it.next(), None);
    it.feed(17);
    assert_eq!(it.next(), None);
    it.feed(18);
    it.feed(19);
    it.feed(20);
    assert_eq!(it.next(), Some(18));
    assert_eq!(it.next(), Some(20));
    assert_eq!(it.next(), None);
}

#[test]
fn iter_state_step_by_step() {
    let s = Sieve::new("3@0|4@0");
    let mut it = s.iter_state(range(17, 30));
    assert_eq!(it.next().unwrap(), false);
    assert_eq!(it.next().unwrap(), true);
    assert_eq!(it.next().unwrap(), false);
    assert_eq!(it.next().unwrap(), true);
}

#[test]
fn iter_interval_step_by_step() {
    let s = Sieve::new("3@0|4@0");
    let mut it = s.iter_interval(range(17, 30));
    assert_eq!(it.next().unwrap(), 2);
    assert_eq!(it.next().unwrap(), 1);
    assert_eq!(it.next().unwrap(), 3);
}

#[test]
fn iter_interval_keeps_last_member_across_feeds() {
    let s = Sieve::new("5@0");
    let mut it = s.iter_interval(vec![0, 1, 2]);
    assert_eq!(it.next(), None);
    it.feed(5);
    assert_eq!(it.next(), Some(5));
    it.feed(7);
    it.feed(10);
    assert_eq!(it.next(), Some(5));
}

#[test]
fn iter_value_arbitrary_order_and_negatives() {
    let s = Sieve::new("3@0");
    assert_eq!(s.iter_value(vec![9, -3, 4, -6, 0, 1]).collect(), vec![9, -3, -6, 0]);
    assert_eq!(s.iter_interval(vec![9, -3, 4, -6, 0, 1]).collect(), vec![-12, -3, 6]);
}

#[test]
fn iter_value_empty_input() {
    let s = Sieve::new("3@0");
    assert_eq!(s.iter_value(Vec::new()).collect(), Vec::<i128>::new());
    assert_eq!(s.iter_state(Vec::new()).collect(), Vec::<bool>::new());
    assert_eq!(s.iter_interval(Vec::new()).collect(), Vec::<i128>::new());
}

#[test]
fn readme_sieves() {
    let s1 = Sieve::new("5@0");
    let s2 = Sieve::new("30@10");
    let s3 = Sieve::new("(5@0|4@2)&!30@10");
    assert_eq!(s1.iter_value(range(0, 50)).collect(), vec![0, 5, 10, 15, 20, 25, 30, 35, 40, 45]);
    assert_eq!(s2.iter_value(range(0, 50)).collect(), vec![10, 40]);
    assert_eq!(
        s3.iter_value(range(0, 50)).collect(),
        vec![0, 2, 5, 6, 14, 15, 18, 20, 22, 25, 26, 30, 34, 35, 38, 42, 45, 46]
    );
    assert_eq!(
        s1.iter_state(range(0, 10)).collect(),
        vec![true, false, false, false, false, true, false, false, false, false]
    );
    assert_eq!(
        s3.iter_state(range(0, 10)).collect(),
        vec![true, false, true, false, false, true, true, false, false, false]
    );
    assert_eq!(s2.iter_interval(range(0, 50)).collect(), vec![30]);
    assert_eq!(
        s3.iter_interval(range(0, 50)).collect(),
        vec![2, 3, 1, 8, 1, 3, 2, 2, 3, 1, 4, 4, 1, 3, 4, 3, 1]
    );
    assert_eq!(s1.contains(5), true);
    assert_eq!(s1.contains(6), false);
    assert_eq!(s3.contains(10), false);
    assert_eq!(s3.contains(30), true);
}

#[test]
fn readme_operators_match_expression() {
    let s3 = Sieve::new("(5@0|4@2)&!30@10");
    let s4: Sieve<u64> = (Sieve::new("5@0") | Sieve::new("4@2")) & !Sieve::new("30@10");
    assert_eq!(s4.to_string(), "Sieve{5@0|4@2&!(30@10)}");
    assert_eq!(s3.iter_value(range(0, 100)).collect(), s4.iter_value(range(0, 100)).collect());
}

#[test]
fn iter_interval_last_and_accepts() {
    let s = Sieve::new("4@1");
    let mut it = s.iter_interval(vec![1, 2, 5]);
    assert_eq!(it.last(), None);
    assert!(it.accepts(9));
    assert!(!it.accepts(8));
    assert_eq!(it.next(), Some(4));
    assert_eq!(it.last(), Some(5));
}
