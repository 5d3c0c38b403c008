use pestr::positive_int;

#[test]
fn plain_numerals_parse() {
    assert_eq!(positive_int("12"), Ok(12));
    assert_eq!(positive_int("1"), Ok(1));
    assert_eq!(positive_int("36"), Ok(36));
}

#[test]
fn leading_plus_and_zeros_are_accepted() {
    assert_eq!(positive_int("+7"), Ok(7));
    assert_eq!(positive_int("007"), Ok(7));
    assert_eq!(positive_int("+0012"), Ok(12));
}

#[test]
fn largest_value_parses_and_overflow_is_rejected() {
    assert_eq!(positive_int("4294967295"), Ok(u32::MAX));
    assert_eq!(
        positive_int("4294967296"),
        Err(String::from("must be a positive integer"))
    );
    assert_eq!(
        positive_int("99999999999999999999"),
        Err(String::from("must be a positive integer"))
    );
}

#[test]
fn zero_is_not_positive() {
    assert_eq!(positive_int("0"), Err(String::from("must be > 0")));
    assert_eq!(positive_int("+0"), Err(String::from("must be > 0")));
    assert_eq!(positive_int("000"), Err(String::from("must be > 0")));
}

#[test]
fn malformed_values_are_rejected() {
    let expected = Err(String::from("must be a positive integer"));
    assert_eq!(positive_int(""), expected);
    assert_eq!(positive_int("+"), expected);
    assert_eq!(positive_int("abc"), expected);
    assert_eq!(positive_int("-3"), expected);
    assert_eq!(positive_int("12.5"), expected);
    assert_eq!(positive_int(" 7"), expected);
    assert_eq!(positive_int("7 "), expected);
    assert_eq!(positive_int("1e3"), expected);
}
