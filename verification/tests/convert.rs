use min_turns::convert::binary_to_decimal;

fn ok(s: &str) -> Result<String, String> {
    Ok(s.to_string())
}

#[test]
fn binary_numerals_come_out_in_decimal() {
    assert_eq!(binary_to_decimal("0"), ok("0"));
    assert_eq!(binary_to_decimal("1"), ok("1"));
    assert_eq!(binary_to_decimal("101"), ok("5"));
    assert_eq!(binary_to_decimal("1010"), ok("10"));
    assert_eq!(binary_to_decimal("000"), ok("0"));
    assert_eq!(binary_to_decimal("0001100100"), ok("100"));
    assert_eq!(binary_to_decimal("11111111"), ok("255"));
}

#[test]
fn numerals_longer_than_a_machine_word() {
    let two_to_70 = format!("1{}", "0".repeat(70));
    assert_eq!(binary_to_decimal(&two_to_70), ok("1180591620717411303424"));
    let ones = "1".repeat(128);
    assert_eq!(binary_to_decimal(&ones), ok("340282366920938463463374607431768211455"));
}

#[test]
fn white_space_at_the_end_does_not_count() {
    assert_eq!(binary_to_decimal("110\n"), ok("6"));
    assert_eq!(binary_to_decimal("110 \t\r\n"), ok("6"));
    assert_eq!(binary_to_decimal("110\u{a0}"), ok("6"));
    assert_eq!(
        binary_to_decimal(" 110"),
        Err("invalid digit found in string".to_string())
    );
}

#[test]
fn sign_and_underscores() {
    assert_eq!(binary_to_decimal("+11"), ok("3"));
    assert_eq!(binary_to_decimal("1_0_1"), ok("5"));
    assert_eq!(binary_to_decimal("1__"), ok("1"));
    assert_eq!(binary_to_decimal("+1_0"), ok("2"));
    assert_eq!(binary_to_decimal("_1"), Err("invalid digit found in string".to_string()));
    assert_eq!(binary_to_decimal("+_1"), Err("invalid digit found in string".to_string()));
    assert_eq!(binary_to_decimal("++1"), Err("invalid digit found in string".to_string()));
    assert_eq!(binary_to_decimal("-1"), Err("invalid digit found in string".to_string()));
}

#[test]
fn what_is_no_numeral_is_reported() {
    assert_eq!(binary_to_decimal(""), Err("cannot parse integer from empty string".to_string()));
    assert_eq!(binary_to_decimal("\n"), Err("cannot parse integer from empty string".to_string()));
    assert_eq!(binary_to_decimal("+"), Err("cannot parse integer from empty string".to_string()));
    assert_eq!(binary_to_decimal("2"), Err("invalid digit found in string".to_string()));
    assert_eq!(binary_to_decimal("10a"), Err("invalid digit found in string".to_string()));
    assert_eq!(binary_to_decimal("1 0"), Err("invalid digit found in string".to_string()));
    assert_eq!(binary_to_decimal("1\u{e9}"), Err("invalid digit found in string".to_string()));
}
