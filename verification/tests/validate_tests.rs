use draugur::commands::validate_follow_id;
use draugur::models::default_to_zero;

#[test]
fn accepts_a_plain_numeric_id() {
    assert_eq!(validate_follow_id("12345"), Ok(12345));
    assert_eq!(validate_follow_id("1"), Ok(1));
    assert_eq!(validate_follow_id("9999999999"), Ok(9999999999));
}

#[test]
fn rejects_empty_input() {
    assert_eq!(
        validate_follow_id(""),
        Err(String::from("Follow ID cannot be empty"))
    );
}

#[test]
fn rejects_overlong_input() {
    assert_eq!(
        validate_follow_id("123456789012345"),
        Err(String::from("Follow ID is too long"))
    );
}

#[test]
fn rejects_non_digits() {
    assert_eq!(
        validate_follow_id("12a45"),
        Err(String::from("Follow ID must contain only numbers"))
    );
    assert_eq!(
        validate_follow_id("-123"),
        Err(String::from("Follow ID must contain only numbers"))
    );
    assert_eq!(
        validate_follow_id(" 123"),
        Err(String::from("Follow ID must contain only numbers"))
    );
}

#[test]
fn rejects_zero() {
    assert_eq!(
        validate_follow_id("0"),
        Err(String::from("Follow ID must be a positive number"))
    );
    assert_eq!(
        validate_follow_id("0000"),
        Err(String::from("Follow ID must be a positive number"))
    );
}

#[test]
fn rejects_values_above_the_cap() {
    assert_eq!(
        validate_follow_id("10000000000"),
        Err(String::from("Follow ID is too large"))
    );
    assert_eq!(
        validate_follow_id("99999999999999"),
        Err(String::from("Follow ID is too large"))
    );
}

#[test]
fn leading_zeroes_are_accepted_digits() {
    assert_eq!(validate_follow_id("007"), Ok(7));
}

#[test]
fn absent_numeric_fields_default_to_zero() {
    assert_eq!(default_to_zero(), 0);
}
