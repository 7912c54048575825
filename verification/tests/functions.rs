use fuzzcheck_view::fuzzcheck::{Counter, CoverageMap, Function, Region};

fn function(name: &str, file: &str, line: usize) -> Function {
    Function {
        name: name.to_string(),
        file: file.to_string(),
        counters: vec![Counter { id: line, regions: vec![Region { lines: (line, line), cols: (1, 3) }] }],
        inferred_counters: vec![],
    }
}

fn names(map: &CoverageMap, sources: &Vec<String>) -> Vec<String> {
    map.functions(sources).into_iter().map(|cov| cov.name.name).collect()
}

const TEXT: &str = "one\ntwo\nthree\nfour\nfive\nsix\n";

#[test]
fn views_are_ordered_by_file_then_first_line() {
    let map = CoverageMap {
        functions: vec![
            function("d", "src/b.rs", 5),
            function("a", "src/b.rs", 2),
            function("c", "src/a.rs", 6),
            function("e", "src/ab.rs", 1),
            function("b", "src/a.rs", 3),
            function("f", "src/B.rs", 3),
            function("g", "src/é.rs", 3),
        ],
    };
    let sources = vec![TEXT.to_string(); 7];
    assert_eq!(names(&map, &sources), vec!["f", "b", "c", "e", "a", "d", "g"]);
}

#[test]
fn views_of_one_file_and_line_keep_their_order() {
    let map = CoverageMap {
        functions: vec![
            function("z", "lib.rs", 4),
            function("y", "lib.rs", 2),
            function("x", "lib.rs", 4),
            function("w", "lib.rs", 2),
        ],
    };
    let sources = vec![TEXT.to_string(); 4];
    assert_eq!(names(&map, &sources), vec!["y", "w", "z", "x"]);
}

#[test]
fn each_function_is_rendered_over_its_own_text() {
    let map = CoverageMap {
        functions: vec![function("b", "b.rs", 2), function("a", "a.rs", 2)],
    };
    let sources = vec!["b1\nb2\n".to_string(), "a1\na2\n".to_string()];
    let covs = map.functions(&sources);
    assert_eq!(covs[0].file, "a.rs");
    assert_eq!(covs[0].lines[0].spans[0].text, "a1");
    assert_eq!(covs[0].lines[1].spans[1].text, "a2");
    assert_eq!(covs[1].file, "b.rs");
    assert_eq!(covs[1].lines[0].spans[0].text, "b1");
}

#[test]
fn one_function_without_counters_is_rendered_alone() {
    let lone = Function {
        name: "lone".to_string(),
        file: "lib.rs".to_string(),
        counters: vec![],
        inferred_counters: vec![],
    };
    let map = CoverageMap { functions: vec![lone.clone()] };
    let covs = map.try_functions(&vec![TEXT.to_string()]).unwrap();
    assert_eq!(covs.len(), 1);
    assert_eq!(covs[0].file, "no counters for lone in lib.rs");
    let two = CoverageMap { functions: vec![lone, function("a", "a.rs", 2)] };
    assert_eq!(two.try_functions(&vec![TEXT.to_string(), TEXT.to_string()]), None);
}

#[test]
fn no_functions_give_no_views() {
    let map = CoverageMap { functions: vec![] };
    assert_eq!(map.functions(&vec![]), vec![]);
    assert_eq!(map.try_functions(&vec![TEXT.to_string()]), None);
}

#[test]
fn paths_are_mapped_one_by_one() {
    let mut map = CoverageMap {
        functions: vec![function("a", "src/a.rs", 2), function("b", "/abs/b.rs", 3)],
    };
    let before = map.clone();
    map.map_relative_paths(|path: String| format!("/workspace/{}", path));
    assert_eq!(map.functions[0].file, "/workspace/src/a.rs");
    assert_eq!(map.functions[1].file, "/workspace//abs/b.rs");
    assert_eq!(map.functions[0].name, before.functions[0].name);
    assert_eq!(map.functions[0].counters, before.functions[0].counters);
    assert_eq!(map.functions[1].counters, before.functions[1].counters);
    assert_eq!(map.functions.len(), 2);
}
