use xensieve::parser::{infix_to_postfix, residual_to_ints, Token};

fn chars(s: &str) -> Vec<char> {
    s.chars().collect()
}

fn render(tokens: &[Token<Vec<char>>]) -> Vec<String> {
    tokens
        .iter()
        .map(|t| match t {
            Token::Operand(v) => v.iter().collect(),
            Token::Not => String::from("!"),
            Token::And => String::from("&"),
            Token::Xor => String::from("^"),
            Token::Or => String::from("|"),
            Token::Open => String::from("("),
            Token::Close => String::from(")"),
        })
        .collect()
}

#[test]
fn postfix_of_precedence() {
    let p = infix_to_postfix("3@0|4@0&5@0").unwrap();
    assert_eq!(render(&p), vec!["3@0", "4@0", "5@0", "&", "|"]);
}

#[test]
fn postfix_of_parentheses_and_inversion() {
    let p = infix_to_postfix("(5@0|4@2)&!30@10").unwrap();
    assert_eq!(render(&p), vec!["5@0", "4@2", "|", "30@10", "!", "&"]);
}

#[test]
fn postfix_left_associative() {
    let p = infix_to_postfix("1@0^2@0^3@0").unwrap();
    assert_eq!(render(&p), vec!["1@0", "2@0", "^", "3@0", "^"]);
}

#[test]
fn postfix_errors() {
    assert!(infix_to_postfix("").is_err());
    assert!(infix_to_postfix("3@0 &").is_err());
    assert!(infix_to_postfix("3@0 x 4@0").is_err());
    assert!(infix_to_postfix("(3@0").is_err());
    assert!(infix_to_postfix("3@0)").is_err());
    assert!(infix_to_postfix("3@0 4@0").is_err());
    assert!(infix_to_postfix("()").is_err());
    assert!(infix_to_postfix("3@0!").is_err());
}

#[test]
fn residual_to_ints_values() {
    assert_eq!(residual_to_ints::<u64>(&chars("3@1")).unwrap(), (3, 1));
    assert_eq!(residual_to_ints::<u64>(&chars("30@10")).unwrap(), (30, 10));
    assert_eq!(residual_to_ints::<u8>(&chars("255@0")).unwrap(), (255, 0));
}

#[test]
fn residual_to_ints_errors() {
    assert!(residual_to_ints::<u64>(&chars("3@")).is_err());
    assert!(residual_to_ints::<u64>(&chars("@3")).is_err());
    assert!(residual_to_ints::<u64>(&chars("3")).is_err());
    assert!(residual_to_ints::<u64>(&chars("3@4@5")).is_err());
    assert!(residual_to_ints::<u8>(&chars("256@1")).is_err());
    assert!(residual_to_ints::<u8>(&chars("2@256")).is_err());
    assert!(residual_to_ints::<u128>(&chars("340282366920938463463374607431768211456@1")).is_err());
}

#[test]
fn postfix_error_messages() {
    assert_eq!(infix_to_postfix("3@0 x 4@0").unwrap_err(), "unexpected character");
    assert_eq!(infix_to_postfix("3@0 &").unwrap_err(), "invalid expression");
    assert_eq!(infix_to_postfix("3@0 4@0").unwrap_err(), "invalid expression");
}

#[test]
fn residual_to_ints_error_messages() {
    assert_eq!(
        residual_to_ints::<u64>(&chars("3@x")).unwrap_err(),
        "Input must contain one '@' character separating two numbers."
    );
    assert_eq!(residual_to_ints::<u8>(&chars("256@1")).unwrap_err(), "Residual value out of range.");
}
