use fuzzcheck_view::coverage::{
    CodeLine, CodeSpan, CodeSpanKind, CoverageStatus, FunctionCoverage, FunctionName,
};
use fuzzcheck_view::filter::InputFilter;
use fuzzcheck_view::fuzzcheck::SerializedUniqCov;
use fuzzcheck_view::query::NotFound;
use fuzzcheck_view::status::{resolve_status, CoverageStatusResolver};

fn span(text: &str, kind: CodeSpanKind) -> CodeSpan {
    CodeSpan { text: text.to_string(), kind }
}

fn counted(id: usize, status: CoverageStatus) -> CodeSpanKind {
    CodeSpanKind::Physical { id, status }
}

fn derived(from: Vec<usize>, status: CoverageStatus) -> CodeSpanKind {
    CodeSpanKind::Inferred { inferred_from: from, status }
}

fn view(statuses: [CoverageStatus; 4], inferred: CoverageStatus) -> FunctionCoverage {
    FunctionCoverage {
        name: FunctionName { name: "f".to_string(), demangled_name: "f".to_string() },
        file: "f.rs".to_string(),
        lines: vec![
            CodeLine { lineno: 4, spans: vec![span("fn f() {", CodeSpanKind::Untracked)] },
            CodeLine {
                lineno: 5,
                spans: vec![
                    span("  ", CodeSpanKind::Untracked),
                    span("a", counted(42, statuses[0])),
                    span(" + ", derived(vec![42, 43], inferred)),
                    span("b", counted(43, statuses[1])),
                ],
            },
            CodeLine { lineno: 6, spans: vec![] },
            CodeLine {
                lineno: 7,
                spans: vec![span("c", counted(42, statuses[2])), span("d", counted(99, statuses[3]))],
            },
        ],
        counter_ids: vec![42, 43, 99],
    }
}

fn stats() -> SerializedUniqCov {
    SerializedUniqCov {
        all_hit_counters: vec![43, 42],
        best_for_counter: vec![(42, 7), (43, 8), (42, 8)],
        ranked_inputs: vec![8, 7],
        counters_for_input: vec![(7, vec![42]), (8, vec![43, 42]), (9, vec![99]), (7, vec![43])],
    }
}

use CoverageStatus::{Best, Hit, NotHit, Unique, Unknown};

#[test]
fn under_all_inputs_a_counter_is_hit_or_not() {
    let mut cov = view([Unknown, Unknown, Best, Unique], Unknown);
    assert_eq!(resolve_status(&mut cov, &stats(), InputFilter::All), Ok(()));
    assert_eq!(cov, view([Hit, Hit, Hit, NotHit], Unknown));
}

#[test]
fn best_input_marks_its_counter_as_best() {
    let mut cov = view([Unknown, Unknown, Unknown, Unknown], Unknown);
    assert_eq!(resolve_status(&mut cov, &stats(), InputFilter::Input(7)), Ok(()));
    assert_eq!(cov, view([Best, NotHit, Best, NotHit], Unknown));
}

#[test]
fn other_input_that_hits_the_counter_marks_it_as_hit() {
    let mut cov = view([Unknown, Unknown, Unknown, Unknown], Unknown);
    assert_eq!(resolve_status(&mut cov, &stats(), InputFilter::Input(8)), Ok(()));
    assert_eq!(cov, view([Hit, Best, Hit, NotHit], Unknown));
}

#[test]
fn counter_without_a_best_input_is_hit() {
    let mut cov = view([Unknown, Unknown, Unknown, Unknown], Unknown);
    assert_eq!(resolve_status(&mut cov, &stats(), InputFilter::Input(9)), Ok(()));
    assert_eq!(cov, view([NotHit, NotHit, NotHit, Hit], Unknown));
}

#[test]
fn unknown_input_is_not_found_and_changes_nothing() {
    let mut cov = view([Unknown, Hit, Best, Unique], Hit);
    assert_eq!(resolve_status(&mut cov, &stats(), InputFilter::Input(10)), Err(NotFound));
    assert_eq!(cov, view([Unknown, Hit, Best, Unique], Hit));
}

#[test]
fn inferred_spans_keep_their_status() {
    for status in [Hit, NotHit, Best, Unique, Unknown] {
        let mut cov = view([Unknown, Unknown, Unknown, Unknown], status);
        assert_eq!(resolve_status(&mut cov, &stats(), InputFilter::Input(8)), Ok(()));
        assert_eq!(cov, view([Hit, Best, Hit, NotHit], status));
    }
}

#[test]
fn resolving_twice_is_resolving_once() {
    for filter in [InputFilter::All, InputFilter::Input(7), InputFilter::Input(8), InputFilter::Input(9)] {
        let mut once = view([Unknown, Hit, Best, Unique], Unique);
        resolve_status(&mut once, &stats(), filter).unwrap();
        let mut twice = once.clone();
        resolve_status(&mut twice, &stats(), filter).unwrap();
        assert_eq!(once, twice);
    }
}

#[test]
fn resolver_gives_the_status_of_a_counter() {
    let stats = stats();
    let all = CoverageStatusResolver::new(&stats, InputFilter::All).unwrap();
    assert_eq!(all.status_of(42), Hit);
    assert_eq!(all.status_of(99), NotHit);
    let seven = CoverageStatusResolver::new(&stats, InputFilter::Input(7)).unwrap();
    assert_eq!(seven.status_of(42), Best);
    assert_eq!(seven.status_of(43), NotHit);
    let eight = CoverageStatusResolver::new(&stats, InputFilter::Input(8)).unwrap();
    assert_eq!(eight.status_of(42), Hit);
    assert_eq!(eight.status_of(43), Best);
    assert!(CoverageStatusResolver::new(&stats, InputFilter::Input(1)).is_err());
}
