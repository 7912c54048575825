use fuzzcheck_view::fuzzcheck::Region;
use fuzzcheck_view::geometry::{region_between_regions, region_is_empty, split_region_by_line};

fn region(l0: usize, l1: usize, c0: usize, c1: usize) -> Region {
    Region { lines: (l0, l1), cols: (c0, c1) }
}

#[test]
fn multi_line_region_splits_into_one_region_per_line() {
    let parts = split_region_by_line(&region(10, 12, 7, 3));
    assert_eq!(
        parts,
        vec![region(10, 10, 7, usize::MAX), region(11, 11, 0, usize::MAX), region(12, 12, 0, 3)]
    );
}

#[test]
fn single_line_region_splits_into_itself() {
    assert_eq!(split_region_by_line(&region(4, 4, 2, 9)), vec![region(4, 4, 2, 9)]);
}

#[test]
fn inverted_region_splits_into_nothing() {
    assert_eq!(split_region_by_line(&region(5, 4, 2, 9)), Vec::<Region>::new());
}

#[test]
fn two_line_region_has_no_interior_line() {
    assert_eq!(
        split_region_by_line(&region(1, 2, 3, 4)),
        vec![region(1, 1, 3, usize::MAX), region(2, 2, 0, 4)]
    );
}

#[test]
fn split_at_the_largest_line_number() {
    let top = usize::MAX;
    assert_eq!(
        split_region_by_line(&region(top - 1, top, 3, 4)),
        vec![region(top - 1, top - 1, 3, usize::MAX), region(top, top, 0, 4)]
    );
}

#[test]
fn gap_between_two_regions_on_one_line() {
    let gap = region_between_regions(&region(4, 4, 1, 5), &region(4, 4, 10, 15));
    assert_eq!(gap, region(4, 4, 5, 10));
    assert!(!region_is_empty(&gap));
}

#[test]
fn gap_between_adjacent_regions_is_empty() {
    let gap = region_between_regions(&region(4, 4, 1, 5), &region(4, 4, 5, 8));
    assert_eq!(gap, region(4, 4, 5, 5));
    assert!(region_is_empty(&gap));
}

#[test]
fn gap_over_several_lines_takes_end_and_start() {
    let gap = region_between_regions(&region(2, 3, 1, 9), &region(6, 8, 4, 2));
    assert_eq!(gap, region(3, 6, 9, 4));
    assert!(!region_is_empty(&gap));
}

#[test]
fn emptiness_follows_lines_then_columns() {
    assert!(region_is_empty(&region(3, 2, 0, 100)));
    assert!(region_is_empty(&region(3, 3, 5, 5)));
    assert!(region_is_empty(&region(3, 3, 6, 5)));
    assert!(!region_is_empty(&region(3, 3, 5, 6)));
    assert!(!region_is_empty(&region(3, 4, 9, 1)));
}
