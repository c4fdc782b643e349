use indent_inputs::line::{parse_line, validate_line};

#[test]
fn parses_plain_number() {
    assert_eq!(parse_line("3"), Some(3));
    assert_eq!(parse_line("120"), Some(120));
    assert_eq!(parse_line("0"), Some(0));
}

#[test]
fn parses_leading_plus() {
    assert_eq!(parse_line("+7"), Some(7));
    assert_eq!(parse_line("+"), None);
    assert_eq!(parse_line("++7"), None);
}

#[test]
fn rejects_non_numbers() {
    assert_eq!(parse_line(""), None);
    assert_eq!(parse_line("-1"), None);
    assert_eq!(parse_line("12a"), None);
    assert_eq!(parse_line(" 12"), None);
    assert_eq!(parse_line("abc"), None);
}

#[test]
fn largest_line_number() {
    let max = usize::MAX.to_string();
    assert_eq!(parse_line(&max), Some(usize::MAX));
    let over = format!("{}0", max);
    assert_eq!(parse_line(&over), None);
}

#[test]
fn agrees_with_std_parse() {
    for s in ["0", "42", "+5", "-5", "", "x", "007", "99999999999999999999999"] {
        assert_eq!(parse_line(s), s.parse::<usize>().ok(), "{}", s);
    }
}

#[test]
fn validate_line_accepts_and_refuses() {
    assert_eq!(validate_line("10"), Ok(()));
    assert_eq!(validate_line("ten"), Err("not a valid line number".to_string()));
}

#[test]
fn validate_line_refuses_zero() {
    assert_eq!(validate_line("0"), Err("not a valid line number".to_string()));
    assert_eq!(validate_line("+0"), Err("not a valid line number".to_string()));
    assert_eq!(validate_line("1"), Ok(()));
    assert_eq!(validate_line("+1"), Ok(()));
}
