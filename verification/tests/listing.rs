use fuzzcheck_view::coverage::{FunctionCoverage, FunctionName};
use fuzzcheck_view::filter::{CoverageKindFilter, FunctionFilter, InputFilter};
use fuzzcheck_view::fuzzcheck::SerializedUniqCov;
use fuzzcheck_view::listing::{find_function, functions, functions_per_file, names_are_distinct};
use fuzzcheck_view::query::NotFound;

fn name(name: &str) -> FunctionName {
    FunctionName { name: name.to_string(), demangled_name: format!("demangled {}", name) }
}

fn view(function: &str, file: &str, counter_ids: Vec<usize>) -> FunctionCoverage {
    FunctionCoverage { name: name(function), file: file.to_string(), lines: vec![], counter_ids }
}

fn views() -> Vec<FunctionCoverage> {
    vec![
        view("full", "a.rs", vec![1, 2]),
        view("none", "b.rs", vec![5, 6]),
        view("half", "a.rs", vec![2, 5]),
        view("bare", "c.rs", vec![]),
        view("best", "b.rs", vec![3]),
    ]
}

fn stats() -> SerializedUniqCov {
    SerializedUniqCov {
        all_hit_counters: vec![1, 2, 3],
        best_for_counter: vec![(1, 7), (2, 8), (3, 7), (3, 7)],
        ranked_inputs: vec![7, 8],
        counters_for_input: vec![(7, vec![1, 2, 3]), (8, vec![2])],
    }
}

fn group(file: &str, names: &[&str]) -> (String, Vec<FunctionName>) {
    (file.to_string(), names.iter().map(|n| name(n)).collect())
}

fn all_groups() -> Vec<(String, Vec<FunctionName>)> {
    vec![group("a.rs", &["full", "half"]), group("b.rs", &["none", "best"]), group("c.rs", &["bare"])]
}

use CoverageKindFilter::{LeastComplex, Unique};
use FunctionFilter::{Exclude0PercentCoverage, Exclude100PercentCoverage};

#[test]
fn functions_are_grouped_by_file_in_order_of_first_occurrence() {
    assert_eq!(functions_per_file(&views()), all_groups());
    assert_eq!(functions_per_file(&vec![]), vec![]);
}

#[test]
fn function_is_found_by_its_name() {
    let all = views();
    assert_eq!(find_function(&all, "half"), Ok(&all[2]));
    assert_eq!(find_function(&all, "Half"), Err(NotFound));
    let mut twice = views();
    twice.push(view("none", "z.rs", vec![9]));
    assert_eq!(find_function(&twice, "none").unwrap().file, "b.rs");
}

#[test]
fn names_that_occur_twice_are_seen() {
    assert!(names_are_distinct(&views()));
    assert!(names_are_distinct(&vec![]));
    let mut twice = views();
    twice.push(view("none", "z.rs", vec![9]));
    assert!(!names_are_distinct(&twice));
}

#[test]
fn without_exclusion_everything_is_listed() {
    for input in [InputFilter::All, InputFilter::Input(7), InputFilter::Input(1000)] {
        for kind in [CoverageKindFilter::All, LeastComplex, Unique] {
            assert_eq!(functions(&all_groups(), &views(), &stats(), input, &vec![], kind), Ok(all_groups()));
        }
    }
}

#[test]
fn functions_without_coverage_are_left_out() {
    let listed = functions(
        &all_groups(),
        &views(),
        &stats(),
        InputFilter::All,
        &vec![Exclude0PercentCoverage],
        CoverageKindFilter::All,
    );
    assert_eq!(listed, Ok(vec![group("a.rs", &["full", "half"]), group("b.rs", &["best"])]));
}

#[test]
fn functions_with_full_coverage_are_left_out() {
    let listed = functions(
        &all_groups(),
        &views(),
        &stats(),
        InputFilter::All,
        &vec![Exclude100PercentCoverage],
        CoverageKindFilter::All,
    );
    assert_eq!(listed, Ok(vec![group("a.rs", &["half"]), group("b.rs", &["none"])]));
}

#[test]
fn both_exclusions_leave_the_partly_covered() {
    let listed = functions(
        &all_groups(),
        &views(),
        &stats(),
        InputFilter::All,
        &vec![Exclude100PercentCoverage, Exclude0PercentCoverage, Exclude100PercentCoverage],
        CoverageKindFilter::All,
    );
    assert_eq!(listed, Ok(vec![group("a.rs", &["half"])]));
}

#[test]
fn one_input_counts_only_what_it_hits() {
    let listed = functions(
        &all_groups(),
        &views(),
        &stats(),
        InputFilter::Input(8),
        &vec![Exclude0PercentCoverage],
        CoverageKindFilter::All,
    );
    assert_eq!(listed, Ok(vec![group("a.rs", &["full", "half"])]));
}

#[test]
fn least_complex_counts_only_where_the_input_is_the_best() {
    let seven = functions(
        &all_groups(),
        &views(),
        &stats(),
        InputFilter::Input(7),
        &vec![Exclude0PercentCoverage],
        LeastComplex,
    );
    assert_eq!(seven, Ok(vec![group("a.rs", &["full"]), group("b.rs", &["best"])]));
    let full = functions(
        &all_groups(),
        &views(),
        &stats(),
        InputFilter::Input(7),
        &vec![Exclude100PercentCoverage],
        LeastComplex,
    );
    assert_eq!(full, Ok(vec![group("a.rs", &["full", "half"]), group("b.rs", &["none"])]));
}

#[test]
fn unknown_input_is_not_found() {
    let listed = functions(
        &all_groups(),
        &views(),
        &stats(),
        InputFilter::Input(9),
        &vec![Exclude0PercentCoverage],
        CoverageKindFilter::All,
    );
    assert_eq!(listed, Err(NotFound));
}

#[test]
fn name_without_a_view_is_not_found() {
    let mut groups = all_groups();
    groups.push(group("d.rs", &["ghost"]));
    let listed = functions(
        &groups,
        &views(),
        &stats(),
        InputFilter::All,
        &vec![Exclude100PercentCoverage],
        CoverageKindFilter::All,
    );
    assert_eq!(listed, Err(NotFound));
}
