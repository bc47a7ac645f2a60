use ducky::utils::{extract_digits, extract_ident, extract_op, extract_whitespaces, extract_whitespaces1, tag};

#[test]
fn utils_test_extract_one_digit() {
    assert_eq!(extract_digits("1+2"), Ok(("+2", "1")));
    assert_eq!(extract_digits("100-200"), Ok(("-200", "100")));
}

#[test]
fn utils_test_extract_anything_empty_input() {
    assert_eq!(extract_digits(""), Err("expected digits".to_string()));
}

#[test]
fn utils_test_extract_digits_without_remaning() {
    assert_eq!(extract_digits("100"), Ok(("", "100")));
}

#[test]
fn utils_test_extract_invalid_digits() {
    assert_eq!(extract_digits("abcd"), Err("expected digits".to_string()));
}

#[test]
fn utils_test_extract_plus() {
    assert_eq!(extract_op("+2"), ("2", "+"));
}

#[test]
fn utils_test_extract_minus() {
    assert_eq!(extract_op("-10"), ("10", "-"));
}

#[test]
fn utils_test_extract_star() {
    assert_eq!(extract_op("*3"), ("3", "*"));
}

#[test]
fn utils_test_extract_slash() {
    assert_eq!(extract_op("/4"), ("4", "/"));
}

#[test]
fn utils_test_extract_ws() {
    assert_eq!(extract_whitespaces("    12312"), ("12312", "    "));
}

#[test]
fn test_extract_newlines_or_spaces() {
    assert_eq!(extract_whitespaces(" \n \n \nabc"), ("abc", " \n \n \n"));
}

#[test]
fn test_extract_non_spaces() {
    assert_eq!(
        extract_whitespaces1("blah"),
        Err("expected whitespace".to_string()),
    );
}

#[test]
fn utils_test_extract_ident() {
    assert_eq!(extract_ident("val char"), Ok((" char", "val")));
}

#[test]
fn utils_test_extract_ident_start_with_number() {
    assert_eq!(extract_ident("123val char"), Err("expected identifier".to_string()));
}

#[test]
fn utils_test_tag() {
    assert_eq!(tag("let", "let a = 1"), Ok(" a = 1"));
}

#[test]
fn tag_failure_names_the_expected_text() {
    assert_eq!(tag("=>", "= x"), Err("expected =>".to_string()));
}

#[test]
fn whitespace_stops_at_tab() {
    assert_eq!(extract_whitespaces(" \tx"), ("\tx", " "));
    assert_eq!(extract_whitespaces1(" \nx"), Ok(("x", " \n")));
}

#[test]
fn ident_takes_letters_and_digits() {
    assert_eq!(extract_ident("abc1231+"), Ok(("+", "abc1231")));
    assert_eq!(extract_ident(""), Err("expected identifier".to_string()));
}
