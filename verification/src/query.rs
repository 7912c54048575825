//! Queries against the corpus statistics and the stored inputs of a snapshot.

use crate::filter::InputInfo;
use crate::fuzzcheck::{CorpusMap, SerializedUniqCov};
use vstd::prelude::*;
use vstd::string::*;

verus! {

/// The answer to a query about a counter, an input or a hash that the snapshot
/// does not hold.
#[derive(Clone, Copy, Debug, PartialEq, Eq, Structural)]
pub struct NotFound;

/// The pool index that `pairs` gives for `counter`: that of the first pair for
/// it, or `None` where no pair is for it.
pub open spec fn best_of(pairs: Seq<(usize, usize)>, counter: usize) -> Option<usize>
    decreases pairs.len(),
{
    if pairs.len() == 0 {
        None
    } else if pairs[0].0 == counter {
        Some(pairs[0].1)
    } else {
        best_of(pairs.skip(1), counter)
    }
}

/// The counters that `entries` gives for the input `pool_index`: those of the
/// first entry for it, or `None` where no entry is for it.
pub open spec fn counters_of(entries: Seq<(usize, Vec<usize>)>, pool_index: usize) -> Option<
    Seq<usize>,
>
    decreases entries.len(),
{
    if entries.len() == 0 {
        None
    } else if entries[0].0 == pool_index {
        Some(entries[0].1@)
    } else {
        counters_of(entries.skip(1), pool_index)
    }
}

/// The hash that `entries` gives for the input `pool_index`: that of the first
/// entry for it, or `None` where no entry is for it.
pub open spec fn hash_of(entries: Seq<((String, usize), String)>, pool_index: usize) -> Option<
    Seq<char>,
>
    decreases entries.len(),
{
    if entries.len() == 0 {
        None
    } else if entries[0].0.1 == pool_index {
        Some(entries[0].1@)
    } else {
        hash_of(entries.skip(1), pool_index)
    }
}

/// The stored inputs by the hash of their content. Of two inputs with one hash
/// the one that was stored later counts.
pub open spec fn stored(files: Seq<(String, Vec<u8>)>) -> Map<Seq<char>, Seq<u8>>
    decreases files.len(),
{
    if files.len() == 0 {
        Map::empty()
    } else {
        stored(files.drop_last()).insert(files.last().0@, files.last().1@)
    }
}

/// Tells whether no hash occurs twice in `files`.
pub open spec fn distinct_hashes(files: Seq<(String, Vec<u8>)>) -> bool {
    forall|i: int, j: int|
        0 <= i < j < files.len() ==> (#[trigger] files[i]).0@ != (#[trigger] files[j]).0@
}

/// Inputs with distinct hashes are stored each under its hash, and nothing
/// else is stored.
proof fn lemma_stored_by_hash(files: Seq<(String, Vec<u8>)>)
    requires
        distinct_hashes(files),
    ensures
        forall|i: int|
            0 <= i < files.len() ==> stored(files).contains_key((#[trigger] files[i]).0@) && stored(
                files,
            )[files[i].0@] == files[i].1@,
        forall|hash: Seq<char>| #[trigger]
            stored(files).contains_key(hash) ==> exists|i: int|
                0 <= i < files.len() && (#[trigger] files[i]).0@ == hash,
    decreases files.len(),
{
    if files.len() > 0 {
        let front = files.drop_last();
        assert forall|i: int, j: int| 0 <= i < j < front.len() implies (#[trigger] front[i]).0@ != (
        #[trigger] front[j]).0@ by {
            assert(front[i] == files[i]);
            assert(front[j] == files[j]);
        }
        lemma_stored_by_hash(front);
        assert forall|i: int| 0 <= i < files.len() implies stored(files).contains_key(
            (#[trigger] files[i]).0@,
        ) && stored(files)[files[i].0@] == files[i].1@ by {
            if i < front.len() {
                assert(front[i] == files[i]);
                assert(files[i].0@ != files[files.len() - 1].0@);
            }
        }
        assert forall|hash: Seq<char>| #[trigger]
            stored(files).contains_key(hash) implies exists|i: int|
            0 <= i < files.len() && (#[trigger] files[i]).0@ == hash by {
            if hash == files.last().0@ {
                assert(files[files.len() - 1].0@ == hash);
            } else {
                assert(stored(front).contains_key(hash));
                let i = choose|i: int| 0 <= i < front.len() && (#[trigger] front[i]).0@ == hash;
                assert(files[i] == front[i]);
            }
        }
    }
}

/// The stored inputs of the corpus, each under the hash of its content. No
/// hash is held twice.
#[derive(Debug, PartialEq, Eq)]
pub struct InputCorpus {
    files: Vec<(String, Vec<u8>)>,
}

impl View for InputCorpus {
    type V = Map<Seq<char>, Seq<u8>>;

    closed spec fn view(&self) -> Map<Seq<char>, Seq<u8>> {
        stored(self.files@)
    }
}

impl InputCorpus {
    #[verifier::type_invariant]
    spec fn no_hash_twice(self) -> bool {
        distinct_hashes(self.files@)
    }

    /// The number of stored inputs.
    pub fn len(&self) -> (count: usize)
        ensures
            count == self@.dom().len(),
            self@.dom().finite(),
    {
        proof {
            use_type_invariant(self);
            lemma_count_of_stored(self.files@);
        }
        self.files.len()
    }

    /// The content of the input with the hash `hash`.
    pub fn input_bytes(&self, hash: &str) -> (bytes: Result<&Vec<u8>, NotFound>)
        ensures
            match bytes {
                Ok(content) => self@.contains_key(hash@) && self@[hash@] == content@,
                Err(_) => !self@.contains_key(hash@),
            },
    {
        let wanted = String::from_str(hash);
        let count = self.files.len();
        let mut i: usize = 0;
        while i < count
            invariant
                i <= count == self.files@.len(),
                wanted@ == hash@,
                forall|k: int| 0 <= k < i ==> (#[trigger] self.files@[k]).0@ != hash@,
            decreases count - i,
        {
            if self.files[i].0 == wanted {
                proof {
                    use_type_invariant(self);
                    lemma_stored_by_hash(self.files@);
                }
                return Ok(&self.files[i].1);
            }
            i = i + 1;
        }
        proof {
            use_type_invariant(self);
            lemma_stored_by_hash(self.files@);
        }
        Err(NotFound)
    }
}

/// Distinct hashes store as many inputs as there are files.
proof fn lemma_count_of_stored(files: Seq<(String, Vec<u8>)>)
    requires
        distinct_hashes(files),
    ensures
        stored(files).dom().finite(),
        stored(files).dom().len() == files.len(),
    decreases files.len(),
{
    if files.len() > 0 {
        let front = files.drop_last();
        assert forall|i: int, j: int| 0 <= i < j < front.len() implies (#[trigger] front[i]).0@ != (
        #[trigger] front[j]).0@ by {
            assert(front[i] == files[i]);
            assert(front[j] == files[j]);
        }
        lemma_count_of_stored(front);
        lemma_stored_by_hash(front);
        if stored(front).contains_key(files.last().0@) {
            let i = choose|i: int|
                0 <= i < front.len() && (#[trigger] front[i]).0@ == files.last().0@;
            assert(files[i] == front[i]);
            assert(files[i].0@ != files[files.len() - 1].0@);
        }
        assert(stored(files).dom() =~= stored(front).dom().insert(files.last().0@));
    } else {
        assert(stored(files).dom() =~= Set::<Seq<char>>::empty());
    }
}

/// Makes the corpus out of the files of the corpus directory, each given by the
/// stem of its name, which is the hash of its content, and by its content. Of
/// two files with one hash the later one is kept.
pub fn read_input_corpus(files: Vec<(String, Vec<u8>)>) -> (corpus: InputCorpus)
    ensures
        corpus@ == stored(files@),
{
    let mut kept: Vec<(String, Vec<u8>)> = Vec::new();
    for file in it: files
        invariant
            it.seq() == files@,
            distinct_hashes(kept@),
            stored(kept@) == stored(files@.take(it.index() as int)),
    {
        let ghost done = files@.take(it.index() as int);
        let ghost next = files@.take(it.index() + 1);
        let ghost before = kept@;
        proof {
            assert(next.drop_last() =~= done);
            assert(next.last() == file);
            lemma_stored_by_hash(before);
        }
        let count = kept.len();
        let mut at: usize = 0;
        while at < count && !(kept[at].0 == file.0)
            invariant
                at <= count == kept@.len(),
                kept@ == before,
                forall|k: int| 0 <= k < at ==> (#[trigger] before[k]).0@ != file.0@,
            decreases count - at,
        {
            at = at + 1;
        }
        if at < count {
            kept[at].1 = file.1;
            proof {
                assert(kept@[at as int].0 == before[at as int].0);
                assert forall|i: int, j: int| 0 <= i < j < kept@.len() implies (
                #[trigger] kept@[i]).0@ != (#[trigger] kept@[j]).0@ by {
                    assert(kept@[i].0 == before[i].0);
                    assert(kept@[j].0 == before[j].0);
                }
                lemma_stored_by_hash(kept@);
                assert forall|hash: Seq<char>|
                    stored(kept@).contains_key(hash) <==> stored(before).insert(
                        file.0@,
                        file.1@,
                    ).contains_key(hash) by {
                    if stored(kept@).contains_key(hash) {
                        let i = choose|i: int|
                            0 <= i < kept@.len() && (#[trigger] kept@[i]).0@ == hash;
                        assert(kept@[i].0 == before[i].0);
                    }
                    if stored(before).contains_key(hash) {
                        let i = choose|i: int|
                            0 <= i < before.len() && (#[trigger] before[i]).0@ == hash;
                        assert(kept@[i].0 == before[i].0);
                    }
                    if hash == file.0@ {
                        assert(kept@[at as int].0@ == hash);
                    }
                }
                assert forall|hash: Seq<char>| stored(kept@).contains_key(hash) implies stored(
                    kept@,
                )[hash] == stored(before).insert(file.0@, file.1@)[hash] by {
                    let i = choose|i: int| 0 <= i < kept@.len() && (#[trigger] kept@[i]).0@ == hash;
                    assert(kept@[i].0 == before[i].0);
                    if i != at {
                        assert(kept@[i] == before[i]);
                    }
                }
                assert(stored(kept@) =~= stored(before).insert(file.0@, file.1@));
            }
        } else {
            kept.push(file);
            proof {
                assert(kept@.drop_last() =~= before);
                assert forall|i: int, j: int| 0 <= i < j < kept@.len() implies (
                #[trigger] kept@[i]).0@ != (#[trigger] kept@[j]).0@ by {
                    assert(kept@[i] == before[i]);
                    if j < before.len() {
                        assert(kept@[j] == before[j]);
                    }
                }
            }
        }
    }
    assert(files@.take(files@.len() as int) =~= files@);
    InputCorpus { files: kept }
}

impl SerializedUniqCov {
    /// The pool index of the best input for the counter `counter_id`.
    pub fn best_input_for(&self, counter_id: usize) -> (best: Result<usize, NotFound>)
        ensures
            best == match best_of(self.best_for_counter@, counter_id) {
                Some(pool_index) => Ok::<usize, NotFound>(pool_index),
                None => Err(NotFound),
            },
    {
        let count = self.best_for_counter.len();
        let mut i: usize = 0;
        assert(self.best_for_counter@.skip(0) =~= self.best_for_counter@);
        while i < count
            invariant
                i <= count == self.best_for_counter@.len(),
                best_of(self.best_for_counter@, counter_id) == best_of(
                    self.best_for_counter@.skip(i as int),
                    counter_id,
                ),
            decreases count - i,
        {
            assert(self.best_for_counter@.skip(i as int).skip(1) =~= self.best_for_counter@.skip(
                i + 1,
            ));
            if self.best_for_counter[i].0 == counter_id {
                return Ok(self.best_for_counter[i].1);
            }
            i = i + 1;
        }
        Err(NotFound)
    }

    /// The inputs of the corpus in the order in which the engine ranked them.
    pub fn ranked_inputs(&self) -> (ranked: &Vec<usize>)
        ensures
            ranked@ == self.ranked_inputs@,
    {
        &self.ranked_inputs
    }

    /// The counters that the input `pool_index` hits.
    pub fn counters_for(&self, pool_index: usize) -> (counters: Result<&Vec<usize>, NotFound>)
        ensures
            match counters {
                Ok(found) => counters_of(self.counters_for_input@, pool_index) == Some(found@),
                Err(_) => counters_of(self.counters_for_input@, pool_index) is None,
            },
    {
        let count = self.counters_for_input.len();
        let mut i: usize = 0;
        assert(self.counters_for_input@.skip(0) =~= self.counters_for_input@);
        while i < count
            invariant
                i <= count == self.counters_for_input@.len(),
                counters_of(self.counters_for_input@, pool_index) == counters_of(
                    self.counters_for_input@.skip(i as int),
                    pool_index,
                ),
            decreases count - i,
        {
            assert(self.counters_for_input@.skip(i as int).skip(1)
                =~= self.counters_for_input@.skip(i + 1));
            if self.counters_for_input[i].0 == pool_index {
                return Ok(&self.counters_for_input[i].1);
            }
            i = i + 1;
        }
        Err(NotFound)
    }
}

impl CorpusMap {
    /// The hash of the content of the input `pool_index`.
    pub fn hash_for(&self, pool_index: usize) -> (hash: Result<&String, NotFound>)
        ensures
            match hash {
                Ok(found) => hash_of(self.0@, pool_index) == Some(found@),
                Err(_) => hash_of(self.0@, pool_index) is None,
            },
    {
        let count = self.0.len();
        let mut i: usize = 0;
        assert(self.0@.skip(0) =~= self.0@);
        while i < count
            invariant
                i <= count == self.0@.len(),
                hash_of(self.0@, pool_index) == hash_of(self.0@.skip(i as int), pool_index),
            decreases count - i,
        {
            assert(self.0@.skip(i as int).skip(1) =~= self.0@.skip(i + 1));
            if self.0[i].0.1 == pool_index {
                return Ok(&self.0[i].1);
            }
            i = i + 1;
        }
        Err(NotFound)
    }
}

/// The hash of the best input for `counter`, or `None` where the statistics
/// know no best input for it or the corpus map does not hold that input.
pub open spec fn best_hash(stats: SerializedUniqCov, corpus_map: CorpusMap, counter: usize) -> Option<
    Seq<char>,
> {
    match best_of(stats.best_for_counter@, counter) {
        Some(pool_index) => hash_of(corpus_map.0@, pool_index),
        None => None,
    }
}

/// The hash of the content of the best input for the counter `counter`.
pub fn best_input_for_counter(
    stats: &SerializedUniqCov,
    corpus_map: &CorpusMap,
    counter: usize,
) -> (hash: Result<String, NotFound>)
    ensures
        match hash {
            Ok(found) => best_hash(*stats, *corpus_map, counter) == Some(found@),
            Err(_) => best_hash(*stats, *corpus_map, counter) is None,
        },
{
    match stats.best_input_for(counter) {
        Err(_) => Err(NotFound),
        Ok(pool_index) => match corpus_map.hash_for(pool_index) {
            Err(_) => Err(NotFound),
            Ok(found) => Ok(found.clone()),
        },
    }
}

/// Tells whether `infos` are the inputs `ranked`, in their order, each with the
/// hash that `entries` gives for it.
pub open spec fn lists_inputs(
    infos: Seq<InputInfo>,
    ranked: Seq<usize>,
    entries: Seq<((String, usize), String)>,
) -> bool {
    &&& infos.len() == ranked.len()
    &&& forall|i: int|
        0 <= i < ranked.len() ==> (#[trigger] infos[i]).pool_idx == ranked[i] && hash_of(
            entries,
            ranked[i],
        ) == Some(infos[i].hash@)
}

/// The ranked inputs of the corpus, each with the hash of its content. There is
/// no list where the corpus map lacks one of them.
pub fn inputs(stats: &SerializedUniqCov, corpus_map: &CorpusMap) -> (listed: Result<
    Vec<InputInfo>,
    NotFound,
>)
    ensures
        match listed {
            Ok(infos) => lists_inputs(infos@, stats.ranked_inputs@, corpus_map.0@),
            Err(_) => exists|i: int|
                0 <= i < stats.ranked_inputs@.len() && hash_of(
                    corpus_map.0@,
                    #[trigger] stats.ranked_inputs@[i],
                ) is None,
        },
{
    let mut infos: Vec<InputInfo> = Vec::new();
    let count = stats.ranked_inputs.len();
    let mut i: usize = 0;
    while i < count
        invariant
            i <= count == stats.ranked_inputs@.len(),
            lists_inputs(infos@, stats.ranked_inputs@.take(i as int), corpus_map.0@),
        decreases count - i,
    {
        let pool_idx = stats.ranked_inputs[i];
        match corpus_map.hash_for(pool_idx) {
            Err(_) => {
                return Err(NotFound);
            },
            Ok(found) => {
                infos.push(InputInfo { pool_idx, hash: found.clone() });
            },
        }
        i = i + 1;
    }
    assert(stats.ranked_inputs@.take(count as int) =~= stats.ranked_inputs@);
    Ok(infos)
}

/// The text that the bytes `bytes` stand for when they are read as UTF-8 and
/// each part that is no UTF-8 is replaced, as `String::from_utf8_lossy` does it.
pub uninterp spec fn lossy_text(bytes: Seq<u8>) -> Seq<char>;

/// The text of `bytes` by `String::from_utf8_lossy` of the standard library.
/// The contract only gives that text a name; it depends on `bytes` alone.
#[verifier::external_body]
fn text_of_bytes(bytes: &Vec<u8>) -> (text: String)
    ensures
        text@ == lossy_text(bytes@),
{
    String::from_utf8_lossy(bytes).to_string()
}

/// The content of the input with the hash `hash`, as text.
pub fn input(corpus: &InputCorpus, hash: &str) -> (text: Result<String, NotFound>)
    ensures
        match text {
            Ok(found) => corpus@.contains_key(hash@) && found@ == lossy_text(corpus@[hash@]),
            Err(_) => !corpus@.contains_key(hash@),
        },
{
    match corpus.input_bytes(hash) {
        Err(_) => Err(NotFound),
        Ok(bytes) => Ok(text_of_bytes(bytes)),
    }
}

} // verus!
