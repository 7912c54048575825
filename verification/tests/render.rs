use fuzzcheck_view::coverage::{CodeLine, CodeSpan, CodeSpanKind, CoverageStatus, FunctionCoverage};
use fuzzcheck_view::fuzzcheck::{
    CommonCounterWithSingleRegion, Counter, CounterId, Function, InferredCounter, Region,
};
use fuzzcheck_view::render::{can_render, render_lines};

fn region(l0: usize, l1: usize, c0: usize, c1: usize) -> Region {
    Region { lines: (l0, l1), cols: (c0, c1) }
}

fn untracked(text: &str) -> CodeSpan {
    CodeSpan { text: text.to_string(), kind: CodeSpanKind::Untracked }
}

fn physical(id: usize, text: &str) -> CodeSpan {
    CodeSpan {
        text: text.to_string(),
        kind: CodeSpanKind::Physical { id, status: CoverageStatus::Unknown },
    }
}

fn inferred(from: Vec<usize>, text: &str) -> CodeSpan {
    CodeSpan {
        text: text.to_string(),
        kind: CodeSpanKind::Inferred { inferred_from: from, status: CoverageStatus::Unknown },
    }
}

fn line(lineno: usize, spans: Vec<CodeSpan>) -> CodeLine {
    CodeLine { lineno, spans }
}

fn function(counters: Vec<Counter>, inferred_counters: Vec<InferredCounter>) -> Function {
    Function { name: "_ZN3foo3barE".to_string(), file: "src/foo.rs".to_string(), counters, inferred_counters }
}

fn text_of(line: &CodeLine) -> String {
    line.spans.iter().map(|span| span.text.as_str()).collect()
}

const TEXT: &str = "fn bar(x: u8) -> u8 {\n    if x > 3 { x - 1 } else { x }\n}\n";

#[test]
fn two_counters_on_one_line_with_a_gap_between() {
    let f = function(
        vec![
            Counter { id: 0, regions: vec![region(2, 2, 1, 5)] },
            Counter { id: 1, regions: vec![region(2, 2, 10, 15)] },
        ],
        vec![],
    );
    let cov = f.coverage("fn main() {\nabcdefghijklmnopqrst\n}\n");
    assert_eq!(
        cov.lines,
        vec![
            line(1, vec![untracked("fn main() {")]),
            line(
                2,
                vec![untracked(""), physical(0, "abcd"), untracked("efghi"), physical(1, "jklmn")]
            ),
        ]
    );
}

#[test]
fn zero_width_region_past_a_short_line_gets_the_placeholder() {
    let f = function(vec![Counter { id: 7, regions: vec![region(3, 3, 5, 5)] }], vec![]);
    let cov = f.coverage("a\nb\nxyz\n");
    assert_eq!(
        cov.lines,
        vec![
            line(2, vec![untracked("b")]),
            line(3, vec![untracked("xyz"), untracked(" "), physical(7, " ⦿ ")]),
        ]
    );
}

#[test]
fn zero_width_region_within_a_line_gets_exactly_two_spans() {
    let f = function(vec![], vec![InferredCounter { regions: vec![region(2, 2, 3, 3)], from_counter_ids: vec![4, 5] }]);
    let cov = f.coverage("a\nhello\n");
    assert_eq!(
        cov.lines,
        vec![
            line(1, vec![untracked("a")]),
            line(2, vec![untracked("he"), untracked(" "), inferred(vec![4, 5], " ⦿ ")]),
        ]
    );
    assert_eq!(cov.counter_ids, Vec::<usize>::new());
}

#[test]
fn region_without_text_over_two_lines_gets_no_placeholder() {
    let f = function(vec![Counter { id: 1, regions: vec![region(1, 2, 9, 0)] }], vec![]);
    let cov = f.coverage("ab\ncd\n");
    assert_eq!(
        cov.lines,
        vec![
            line(0, vec![untracked("ab")]),
            line(1, vec![untracked("ab"), physical(1, ""), untracked("")]),
            line(2, vec![untracked(""), physical(1, "")]),
        ]
    );
}

#[test]
fn region_over_three_lines_gets_one_span_per_line() {
    let f = function(vec![Counter { id: 2, regions: vec![region(2, 4, 3, 2)] }], vec![]);
    let cov = f.coverage("zero\nabcdef\nghijkl\nmnopqr\nlast\n");
    assert_eq!(
        cov.lines,
        vec![
            line(1, vec![untracked("zero")]),
            line(2, vec![untracked("ab"), physical(2, "cdef"), untracked("")]),
            line(3, vec![untracked(""), physical(2, "ghijkl"), untracked("")]),
            line(4, vec![untracked(""), physical(2, "m")]),
        ]
    );
}

#[test]
fn spans_of_each_line_give_back_the_source() {
    let f = function(
        vec![
            Counter { id: 0, regions: vec![region(1, 1, 21, 22), region(2, 2, 16, 21)] },
            Counter { id: 1, regions: vec![region(2, 2, 8, 13)] },
            Counter { id: 2, regions: vec![region(2, 3, 31, 2)] },
        ],
        vec![InferredCounter { regions: vec![region(2, 2, 14, 15)], from_counter_ids: vec![0, 1] }],
    );
    let cov = f.coverage(TEXT);
    let source: Vec<&str> = TEXT.lines().collect();
    assert_eq!(cov.lines.len(), 4);
    assert_eq!(cov.lines[0], line(0, vec![untracked("fn bar(x: u8) -> u8 {")]));
    assert_eq!(
        cov.lines[1],
        line(1, vec![untracked("fn bar(x: u8) -> u8 "), physical(0, "{"), untracked("")])
    );
    for line in &cov.lines[1..] {
        assert_eq!(text_of(line), source[line.lineno - 1]);
    }
    assert_eq!(
        cov.lines[2],
        line(
            2,
            vec![
                untracked("    if "),
                physical(1, "x > 3"),
                untracked(" "),
                inferred(vec![0, 1], "{"),
                untracked(" "),
                physical(0, "x - 1"),
                untracked(" } else { "),
                physical(2, "x }"),
                untracked(""),
            ]
        )
    );
    assert_eq!(cov.counter_ids, vec![0, 1, 2]);
}

#[test]
fn last_line_ends_where_the_last_unit_ends() {
    let f = function(vec![Counter { id: 0, regions: vec![region(2, 2, 3, 5)] }], vec![]);
    let cov = f.coverage("first\nsecond\nthird\n");
    assert_eq!(
        cov.lines,
        vec![line(1, vec![untracked("first")]), line(2, vec![untracked("se"), physical(0, "co")])]
    );
}

#[test]
fn function_without_counters_has_a_message_for_its_file() {
    let f = function(vec![], vec![]);
    let cov = f.coverage(TEXT);
    assert_eq!(cov.file, "no counters for _ZN3foo3barE in src/foo.rs");
    assert_eq!(cov.lines, vec![]);
    assert_eq!(cov.counter_ids, Vec::<usize>::new());
    assert_eq!(cov.name.name, "_ZN3foo3barE");
    assert_eq!(cov.name.demangled_name, "foo::bar");
}

#[test]
fn counters_without_regions_are_no_counters() {
    let f = function(vec![Counter { id: 3, regions: vec![] }], vec![]);
    let cov = f.coverage(TEXT);
    assert_eq!(cov.file, "no counters for _ZN3foo3barE in src/foo.rs");
    assert_eq!(cov.counter_ids, Vec::<usize>::new());
}

#[test]
fn name_is_demangled_and_ids_are_sorted() {
    let f = Function {
        name: "_ZN4core3fmt5Write9write_fmt17h0123456789abcdefE".to_string(),
        file: "lib.rs".to_string(),
        counters: vec![
            Counter { id: 9, regions: vec![region(1, 1, 1, 2)] },
            Counter { id: 2, regions: vec![region(1, 1, 2, 3)] },
            Counter { id: 5, regions: vec![] },
        ],
        inferred_counters: vec![],
    };
    let cov = f.coverage("abc");
    assert_eq!(cov.name.demangled_name, "core::fmt::Write::write_fmt::h0123456789abcdef");
    assert_eq!(cov.name.name, "_ZN4core3fmt5Write9write_fmt17h0123456789abcdefE");
    assert_eq!(cov.file, "lib.rs");
    assert_eq!(cov.counter_ids, vec![2, 5, 9]);
}

#[test]
fn symbol_that_is_no_mangled_name_stays_as_it_is() {
    let f = Function {
        name: "main".to_string(),
        file: "lib.rs".to_string(),
        counters: vec![],
        inferred_counters: vec![],
    };
    assert_eq!(f.coverage("").name.demangled_name, "main");
}

#[test]
fn line_endings_with_carriage_return_are_left_out() {
    let f = function(vec![Counter { id: 0, regions: vec![region(2, 2, 1, 9)] }], vec![]);
    let cov = f.coverage("one\r\ntwo\r\nthree");
    assert_eq!(cov.lines, vec![line(1, vec![untracked("one")]), line(2, vec![untracked(""), physical(0, "two")])]);
}

#[test]
fn lines_behind_the_text_get_a_diagnostic() {
    let f = function(vec![Counter { id: 0, regions: vec![region(3, 3, 1, 4)] }], vec![]);
    let cov = f.coverage("one\ntwo\n");
    assert_eq!(
        cov.lines,
        vec![
            line(2, vec![untracked("two")]),
            line(
                3,
                vec![
                    untracked("error: line_start ( 2 ) > lines.len()"),
                    physical(0, "error: line_start ( 2 ) > lines.len()"),
                ]
            ),
        ]
    );
}

#[test]
fn rendering_twice_gives_the_same_view() {
    let f = function(
        vec![Counter { id: 0, regions: vec![region(2, 2, 16, 21), region(1, 1, 4, 7)] }],
        vec![InferredCounter { regions: vec![region(2, 2, 8, 13)], from_counter_ids: vec![0] }],
    );
    let one: FunctionCoverage = f.coverage(TEXT);
    let other: FunctionCoverage = f.coverage(TEXT);
    assert_eq!(one, other);
}

#[test]
fn try_coverage_agrees_with_coverage_where_it_renders() {
    let f = function(vec![Counter { id: 0, regions: vec![region(2, 2, 16, 21)] }], vec![]);
    assert_eq!(f.try_coverage(TEXT), Some(f.coverage(TEXT)));
}

#[test]
fn unit_that_ends_behind_the_last_unit_cannot_be_rendered() {
    let f = function(
        vec![
            Counter { id: 0, regions: vec![region(1, 3, 1, 2)] },
            Counter { id: 1, regions: vec![region(2, 2, 1, 2)] },
        ],
        vec![],
    );
    assert_eq!(f.try_coverage(TEXT), None);
}

#[test]
fn unit_that_ends_before_it_starts_on_its_line_cannot_be_rendered() {
    let f = function(vec![Counter { id: 0, regions: vec![region(2, 2, 9, 5)] }], vec![]);
    assert_eq!(f.try_coverage(TEXT), None);
    let behind = function(vec![Counter { id: 0, regions: vec![region(7, 7, 9, 5)] }], vec![]);
    assert!(behind.try_coverage(TEXT).is_some());
}

#[test]
fn inverted_units_are_passed_over() {
    let units = vec![
        CommonCounterWithSingleRegion { id: CounterId::Physical { id: 0 }, region: region(1, 1, 1, 3) },
        CommonCounterWithSingleRegion { id: CounterId::Physical { id: 1 }, region: region(2, 1, 1, 3) },
        CommonCounterWithSingleRegion { id: CounterId::Physical { id: 2 }, region: region(2, 2, 2, 3) },
    ];
    let source = ["abc", "def"];
    assert!(can_render(&units, &source));
    assert_eq!(
        render_lines(&units, &source),
        vec![
            line(0, vec![untracked("abc")]),
            line(1, vec![untracked(""), physical(0, "ab"), untracked("c")]),
            line(2, vec![untracked("d"), physical(2, "e")]),
        ]
    );
}

#[test]
fn no_units_render_to_no_lines() {
    let source = ["abc"];
    assert!(can_render(&vec![], &source));
    assert_eq!(render_lines(&vec![], &source), vec![]);
}

#[test]
fn carriage_return_without_line_feed_stays_in_its_line() {
    let f = function(vec![Counter { id: 0, regions: vec![region(2, 2, 1, 9)] }], vec![]);
    let cov = f.coverage("one\ntwo\r");
    assert_eq!(cov.lines[1], line(2, vec![untracked(""), physical(0, "two\r")]));
}

#[test]
fn types_are_reached_from_the_root_of_the_crate() {
    let span = fuzzcheck_view::CodeSpan {
        text: "x".to_string(),
        kind: fuzzcheck_view::CodeSpanKind::Physical { id: 1, status: fuzzcheck_view::CoverageStatus::Hit },
    };
    assert_eq!(span, physical_with(1, "x", CoverageStatus::Hit));
    assert_eq!(fuzzcheck_view::InputFilter::from_string("3"), Some(fuzzcheck_view::InputFilter::Input(3)));
}

fn physical_with(id: usize, text: &str, status: CoverageStatus) -> CodeSpan {
    CodeSpan { text: text.to_string(), kind: CodeSpanKind::Physical { id, status } }
}
