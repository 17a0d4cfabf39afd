use word_assistant::parse::{parse_len, parse_usize};

#[test]
fn parse_len_hyphenated_pair() {
    assert_eq!(parse_len("3-5"), Some((3, 5)));
}

#[test]
fn parse_len_reorders_reversed_pair() {
    assert_eq!(parse_len("5-3"), Some((3, 5)));
}

#[test]
fn parse_len_single_number() {
    assert_eq!(parse_len("4"), Some((4, 4)));
}

#[test]
fn parse_len_rejects_non_numbers() {
    assert_eq!(parse_len("abc"), None);
    assert_eq!(parse_len("3-x"), None);
    assert_eq!(parse_len(""), None);
}

#[test]
fn parse_len_rejects_more_than_two_parts() {
    assert_eq!(parse_len("1-2-3"), None);
}

#[test]
fn parse_len_rejects_empty_parts() {
    assert_eq!(parse_len("-5"), None);
    assert_eq!(parse_len("3-"), None);
    assert_eq!(parse_len("-"), None);
}

#[test]
fn parse_len_equal_bounds() {
    assert_eq!(parse_len("7-7"), Some((7, 7)));
}

#[test]
fn parse_usize_plain_numbers() {
    assert_eq!(parse_usize("0"), Some(0));
    assert_eq!(parse_usize("22"), Some(22));
    assert_eq!(parse_usize("007"), Some(7));
}

#[test]
fn parse_usize_rejects_overflow_and_junk() {
    assert_eq!(parse_usize("99999999999999999999999999"), None);
    assert_eq!(parse_usize("1a"), None);
    assert_eq!(parse_usize("+5"), None);
    assert_eq!(parse_usize(""), None);
}
