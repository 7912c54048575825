use fuzzcheck_view::fuzzcheck::Region;
use fuzzcheck_view::text::{decimal_string, is_sliceable, string_in_region};

fn region(l0: usize, l1: usize, c0: usize, c1: usize) -> Region {
    Region { lines: (l0, l1), cols: (c0, c1) }
}

const SOURCE: [&str; 4] = ["fn main() {", "    let x = 1;", "xyz", "}"];

#[test]
fn slice_within_one_line() {
    assert_eq!(string_in_region(&SOURCE, &region(2, 2, 5, 8)), "let");
}

#[test]
fn columns_zero_and_one_both_start_the_line() {
    assert_eq!(string_in_region(&SOURCE, &region(1, 1, 0, 3)), "fn");
    assert_eq!(string_in_region(&SOURCE, &region(1, 1, 1, 3)), "fn");
}

#[test]
fn end_column_past_the_line_is_clipped() {
    assert_eq!(string_in_region(&SOURCE, &region(3, 3, 2, 50)), "yz");
    assert_eq!(string_in_region(&SOURCE, &region(3, 3, 1, usize::MAX)), "xyz");
}

#[test]
fn zero_width_region_past_the_line_has_no_text() {
    assert_eq!(string_in_region(&SOURCE, &region(3, 3, 5, 5)), "");
}

#[test]
fn slice_over_several_lines_joins_with_line_feeds() {
    assert_eq!(
        string_in_region(&SOURCE, &region(1, 3, 4, 3)),
        "main() {\n    let x = 1;\nxy"
    );
    assert_eq!(string_in_region(&SOURCE, &region(3, 4, 3, 2)), "z\n}");
}

#[test]
fn line_zero_stands_for_the_first_line() {
    assert_eq!(string_in_region(&SOURCE, &region(0, 0, 0, usize::MAX)), "fn main() {");
}

#[test]
fn end_line_before_start_line_collapses_to_the_start_line() {
    assert_eq!(string_in_region(&SOURCE, &region(3, 1, 1, 3)), "xy");
    assert_eq!(string_in_region(&SOURCE, &region(3, 2, 2, 4)), "yz");
}

#[test]
fn columns_count_characters_not_bytes() {
    let lines = ["żółw = 'ß';"];
    assert_eq!(string_in_region(&lines, &region(1, 1, 1, 5)), "żółw");
    assert_eq!(string_in_region(&lines, &region(1, 1, 9, 10)), "ß");
    assert_eq!(string_in_region(&lines, &region(1, 1, 9, 40)), "ß';");
}

#[test]
fn region_behind_the_last_line_gets_a_diagnostic() {
    assert_eq!(
        string_in_region(&SOURCE, &region(5, 5, 1, 3)),
        "error: line_start ( 4 ) > lines.len()"
    );
    assert_eq!(
        string_in_region(&SOURCE, &region(1208, 1300, 9, 1)),
        "error: line_start ( 1207 ) > lines.len()"
    );
    let none: [&str; 0] = [];
    assert_eq!(string_in_region(&none, &region(0, 0, 0, 0)), "error: line_start ( 0 ) > lines.len()");
}

#[test]
fn sliceable_tells_what_can_be_cut() {
    assert!(is_sliceable(&SOURCE, &region(2, 2, 5, 8)));
    assert!(is_sliceable(&SOURCE, &region(2, 2, 5, 5)));
    assert!(!is_sliceable(&SOURCE, &region(2, 2, 8, 5)));
    assert!(is_sliceable(&SOURCE, &region(3, 3, 40, 30)));
    assert!(is_sliceable(&SOURCE, &region(1, 4, 9, 1)));
    assert!(!is_sliceable(&SOURCE, &region(1, 5, 1, 1)));
    assert!(is_sliceable(&SOURCE, &region(5, 9, 9, 1)));
}

#[test]
fn decimal_notation() {
    assert_eq!(decimal_string(0), "0");
    assert_eq!(decimal_string(7), "7");
    assert_eq!(decimal_string(10), "10");
    assert_eq!(decimal_string(1207), "1207");
    assert_eq!(decimal_string(9876543210), "9876543210");
    assert_eq!(decimal_string(usize::MAX), format!("{}", usize::MAX));
}

#[test]
fn lines_agree_with_the_standard_library() {
    for text in [
        "",
        "\n",
        "\n\n",
        "\r\n",
        "\r",
        "a",
        "a\n",
        "a\r",
        "a\r\n",
        "a\r\r\n",
        "a\rb\nc",
        "\ra\n",
        "a\n\nb",
        "a\n\r\nb\r",
        "one\ntwo\nthree",
        "one\r\ntwo\r\nthree\r\n",
        "żółw\n\u{2028}\nß\r\n\r\r",
        "fn main() {\n    let x = 1;\n}\n",
    ] {
        let expected: Vec<String> = text.lines().map(|line| line.to_string()).collect();
        assert_eq!(fuzzcheck_view::text::lines_of(text), expected);
    }
}

#[test]
fn borrowed_lines_are_the_same_lines() {
    let owned = vec!["a".to_string(), String::new(), "ż b".to_string()];
    assert_eq!(fuzzcheck_view::text::borrowed_lines(&owned), vec!["a", "", "ż b"]);
}

#[test]
fn text_order_agrees_with_the_standard_library() {
    let texts = ["", "a", "A", "ab", "abc", "abd", "b", "B", "é", "e", "z", "ż", "\u{10000}", "\u{ffff}", "src/a.rs", "src/ab.rs", "src/B.rs"];
    for a in texts {
        for b in texts {
            assert_eq!(fuzzcheck_view::text::text_not_behind(a, b), a <= b);
        }
    }
}
