use fuzzcheck_view::fuzzcheck::{
    CommonCounter, CommonCounterWithSingleRegion, Counter, CounterId, Function, InferredCounter,
    Region,
};
use fuzzcheck_view::normalize::{split_counter_by_line, split_counter_by_region};
use fuzzcheck_view::order::sort_stably;

fn region(l0: usize, l1: usize, c0: usize, c1: usize) -> Region {
    Region { lines: (l0, l1), cols: (c0, c1) }
}

fn physical(id: usize, region: Region) -> CommonCounterWithSingleRegion {
    CommonCounterWithSingleRegion { id: CounterId::Physical { id }, region }
}

fn inferred(from: Vec<usize>, region: Region) -> CommonCounterWithSingleRegion {
    CommonCounterWithSingleRegion { id: CounterId::Inferred { from }, region }
}

#[test]
fn counter_with_regions_becomes_one_unit_per_region() {
    let counter = CommonCounter {
        id: CounterId::Inferred { from: vec![3, 4] },
        regions: vec![region(5, 5, 1, 2), region(2, 3, 4, 1), region(9, 9, 0, 0)],
    };
    assert_eq!(
        split_counter_by_region(counter),
        vec![
            inferred(vec![3, 4], region(5, 5, 1, 2)),
            inferred(vec![3, 4], region(2, 3, 4, 1)),
            inferred(vec![3, 4], region(9, 9, 0, 0)),
        ]
    );
}

#[test]
fn counter_without_regions_becomes_no_unit() {
    let counter = CommonCounter { id: CounterId::Physical { id: 1 }, regions: vec![] };
    assert_eq!(split_counter_by_region(counter), vec![]);
}

#[test]
fn unit_over_three_lines_becomes_three_parts() {
    assert_eq!(
        split_counter_by_line(physical(8, region(10, 12, 7, 3))),
        vec![
            physical(8, region(10, 10, 7, usize::MAX)),
            physical(8, region(11, 11, 0, usize::MAX)),
            physical(8, region(12, 12, 0, 3)),
        ]
    );
}

#[test]
fn unit_on_one_line_is_its_own_part() {
    assert_eq!(
        split_counter_by_line(inferred(vec![1], region(3, 3, 5, 5))),
        vec![inferred(vec![1], region(3, 3, 5, 5))]
    );
}

#[test]
fn units_are_ordered_by_line_then_column() {
    let function = Function {
        name: "f".to_string(),
        file: "f.rs".to_string(),
        counters: vec![
            Counter { id: 0, regions: vec![region(7, 7, 1, 4), region(2, 2, 9, 12)] },
            Counter { id: 1, regions: vec![region(2, 2, 3, 5)] },
            Counter { id: 2, regions: vec![] },
        ],
        inferred_counters: vec![InferredCounter {
            regions: vec![region(1, 9, 1, 2), region(7, 7, 0, 2)],
            from_counter_ids: vec![0, 1],
        }],
    };
    assert_eq!(
        function.units(),
        vec![
            inferred(vec![0, 1], region(1, 9, 1, 2)),
            physical(1, region(2, 2, 3, 5)),
            physical(0, region(2, 2, 9, 12)),
            inferred(vec![0, 1], region(7, 7, 0, 2)),
            physical(0, region(7, 7, 1, 4)),
        ]
    );
}

#[test]
fn units_that_start_at_one_place_keep_their_order() {
    let function = Function {
        name: "f".to_string(),
        file: "f.rs".to_string(),
        counters: vec![
            Counter { id: 5, regions: vec![region(4, 4, 2, 30)] },
            Counter { id: 3, regions: vec![region(4, 9, 2, 1)] },
            Counter { id: 4, regions: vec![region(4, 4, 2, 2), region(1, 1, 1, 1)] },
        ],
        inferred_counters: vec![InferredCounter {
            regions: vec![region(4, 5, 2, 0)],
            from_counter_ids: vec![9],
        }],
    };
    assert_eq!(
        function.units(),
        vec![
            physical(4, region(1, 1, 1, 1)),
            physical(5, region(4, 4, 2, 30)),
            physical(3, region(4, 9, 2, 1)),
            physical(4, region(4, 4, 2, 2)),
            inferred(vec![9], region(4, 5, 2, 0)),
        ]
    );
}

#[test]
fn function_without_counters_has_no_units() {
    let function = Function {
        name: "f".to_string(),
        file: "f.rs".to_string(),
        counters: vec![],
        inferred_counters: vec![],
    };
    assert_eq!(function.units(), vec![]);
}

#[test]
fn numbers_are_sorted_ascending() {
    assert_eq!(sort_stably(vec![5usize, 1, 4, 1, 0, 9, 5]), vec![0, 1, 1, 4, 5, 5, 9]);
    assert_eq!(sort_stably(Vec::<usize>::new()), Vec::<usize>::new());
    assert_eq!(sort_stably(vec![3usize, 2, 1]), vec![1, 2, 3]);
}

#[test]
fn sorting_twice_is_sorting_once() {
    let units = vec![
        physical(1, region(3, 3, 1, 2)),
        physical(2, region(1, 1, 8, 9)),
        physical(3, region(3, 3, 1, 7)),
        physical(4, region(1, 1, 2, 3)),
    ];
    let once = sort_stably(units);
    assert_eq!(sort_stably(once.clone()), once);
}
