use fuzzcheck_view::filter::{parse_number, InputFilter};

#[test]
fn all_stands_for_all_inputs() {
    assert_eq!(InputFilter::from_string("all"), Some(InputFilter::All));
}

#[test]
fn a_number_stands_for_one_input() {
    assert_eq!(InputFilter::from_string("0"), Some(InputFilter::Input(0)));
    assert_eq!(InputFilter::from_string("42"), Some(InputFilter::Input(42)));
    assert_eq!(InputFilter::from_string("007"), Some(InputFilter::Input(7)));
    assert_eq!(InputFilter::from_string("+15"), Some(InputFilter::Input(15)));
}

#[test]
fn anything_else_stands_for_no_filter() {
    for text in ["", "All", "all ", "alll", "al", "-1", "+", "++1", "1+", "4 2", " 42", "0x10", "1_000", "٣", "12a"] {
        assert_eq!(InputFilter::from_string(text), None);
    }
}

#[test]
fn numbers_agree_with_the_standard_library() {
    let largest = format!("{}", usize::MAX);
    let too_large = format!("{}0", usize::MAX);
    let next = "18446744073709551616";
    let padded = format!("0000000000000000000000000000{}", usize::MAX);
    for text in [
        "", "0", "1", "9", "10", "+0", "+", "-", "-0", "00", "+007", "12345678901234567890",
        "99999999999999999999", "184467440737095516150", largest.as_str(), too_large.as_str(),
        next, padded.as_str(), "1e3", "१२", "1 ", "\n1",
    ] {
        assert_eq!(parse_number(text), text.parse::<usize>().ok());
    }
}

#[test]
fn largest_number_is_read_and_the_next_is_not() {
    assert_eq!(parse_number(&format!("{}", usize::MAX)), Some(usize::MAX));
    assert_eq!(parse_number("18446744073709551616"), None);
    assert_eq!(parse_number("18446744073709551615"), "18446744073709551615".parse::<usize>().ok());
}
