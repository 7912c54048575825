use fuzzcheck_view::filter::InputInfo;
use fuzzcheck_view::fuzzcheck::{CorpusMap, SerializedUniqCov};
use fuzzcheck_view::query::{best_input_for_counter, input, inputs, read_input_corpus, NotFound};

fn stats() -> SerializedUniqCov {
    SerializedUniqCov {
        all_hit_counters: vec![1, 2, 42],
        best_for_counter: vec![(1, 3), (42, 7), (2, 5), (42, 9)],
        ranked_inputs: vec![7, 3, 5],
        counters_for_input: vec![(3, vec![1]), (7, vec![42, 1]), (5, vec![]), (7, vec![2])],
    }
}

fn corpus_map() -> CorpusMap {
    CorpusMap(vec![
        (("pool".to_string(), 3), "aaa".to_string()),
        (("pool".to_string(), 7), "bbb".to_string()),
        (("other".to_string(), 5), "ccc".to_string()),
        (("pool".to_string(), 7), "ddd".to_string()),
    ])
}

#[test]
fn best_input_of_a_counter() {
    assert_eq!(stats().best_input_for(42), Ok(7));
    assert_eq!(stats().best_input_for(1), Ok(3));
    assert_eq!(stats().best_input_for(2), Ok(5));
}

#[test]
fn best_input_of_an_unknown_counter_is_not_found() {
    assert_eq!(stats().best_input_for(43), Err(NotFound));
    assert_eq!(stats().best_input_for(7), Err(NotFound));
}

#[test]
fn ranked_inputs_keep_their_order() {
    assert_eq!(stats().ranked_inputs(), &vec![7, 3, 5]);
}

#[test]
fn counters_of_an_input() {
    assert_eq!(stats().counters_for(7), Ok(&vec![42, 1]));
    assert_eq!(stats().counters_for(5), Ok(&vec![]));
    assert_eq!(stats().counters_for(42), Err(NotFound));
}

#[test]
fn hash_of_an_input() {
    assert_eq!(corpus_map().hash_for(7), Ok(&"bbb".to_string()));
    assert_eq!(corpus_map().hash_for(5), Ok(&"ccc".to_string()));
    assert_eq!(corpus_map().hash_for(4), Err(NotFound));
}

#[test]
fn hash_of_the_best_input_of_a_counter() {
    assert_eq!(best_input_for_counter(&stats(), &corpus_map(), 42), Ok("bbb".to_string()));
    assert_eq!(best_input_for_counter(&stats(), &corpus_map(), 2), Ok("ccc".to_string()));
    assert_eq!(best_input_for_counter(&stats(), &corpus_map(), 100), Err(NotFound));
    let lacking = CorpusMap(vec![(("pool".to_string(), 3), "aaa".to_string())]);
    assert_eq!(best_input_for_counter(&stats(), &lacking, 42), Err(NotFound));
    assert_eq!(best_input_for_counter(&stats(), &lacking, 1), Ok("aaa".to_string()));
}

#[test]
fn ranked_inputs_with_their_hashes() {
    assert_eq!(
        inputs(&stats(), &corpus_map()),
        Ok(vec![
            InputInfo { pool_idx: 7, hash: "bbb".to_string() },
            InputInfo { pool_idx: 3, hash: "aaa".to_string() },
            InputInfo { pool_idx: 5, hash: "ccc".to_string() },
        ])
    );
    let lacking = CorpusMap(vec![(("pool".to_string(), 7), "bbb".to_string())]);
    assert_eq!(inputs(&stats(), &lacking), Err(NotFound));
    let none = SerializedUniqCov {
        all_hit_counters: vec![],
        best_for_counter: vec![],
        ranked_inputs: vec![],
        counters_for_input: vec![],
    };
    assert_eq!(inputs(&none, &lacking), Ok(vec![]));
}

#[test]
fn stored_input_by_its_hash() {
    let corpus = read_input_corpus(vec![
        ("aaa".to_string(), vec![1, 2, 3]),
        ("bbb".to_string(), vec![]),
        ("aaa".to_string(), vec![9]),
    ]);
    assert_eq!(corpus.len(), 2);
    assert_eq!(corpus.input_bytes("aaa"), Ok(&vec![9]));
    assert_eq!(corpus.input_bytes("bbb"), Ok(&vec![]));
    assert_eq!(corpus.input_bytes("ccc"), Err(NotFound));
    assert_eq!(corpus.input_bytes(""), Err(NotFound));
    assert_eq!(read_input_corpus(vec![]).input_bytes("aaa"), Err(NotFound));
}

#[test]
fn stored_input_as_text() {
    let corpus = read_input_corpus(vec![
        ("aaa".to_string(), "[1, \"żółw\"]".as_bytes().to_vec()),
        ("bbb".to_string(), vec![b'a', 0xff, b'b']),
    ]);
    assert_eq!(input(&corpus, "aaa"), Ok("[1, \"żółw\"]".to_string()));
    assert_eq!(input(&corpus, "bbb"), Ok("a\u{fffd}b".to_string()));
    assert_eq!(input(&corpus, "zzz"), Err(NotFound));
}

#[test]
fn later_file_with_the_same_hash_replaces_the_earlier() {
    let corpus = read_input_corpus(vec![
        ("x".to_string(), vec![1]),
        ("y".to_string(), vec![2]),
        ("x".to_string(), vec![3]),
        ("y".to_string(), vec![4]),
        ("x".to_string(), vec![5]),
    ]);
    assert_eq!(corpus.len(), 2);
    assert_eq!(corpus.input_bytes("x"), Ok(&vec![5]));
    assert_eq!(corpus.input_bytes("y"), Ok(&vec![4]));
    assert_eq!(read_input_corpus(vec![]).len(), 0);
}
