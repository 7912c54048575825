//! The data that the fuzzing engine writes: coverage counters with their
//! source regions, the corpus statistics and the corpus map.

use vstd::prelude::*;

verus! {

/// A stretch of source text. `lines` is 1-based and inclusive on both ends;
/// `cols` is 1-based, its start inclusive and its end exclusive.
#[derive(Clone, Copy, Debug, PartialEq, Eq)]
pub struct Region {
    pub lines: (usize, usize),
    pub cols: (usize, usize),
}

/// A counter that the instrumentation placed, with the regions it covers.
#[derive(Clone, Debug, PartialEq, Eq)]
pub struct Counter {
    pub id: usize,
    pub regions: Vec<Region>,
}

/// A counter without an id of its own, derived from physical counters.
#[derive(Clone, Debug, PartialEq, Eq)]
pub struct InferredCounter {
    pub regions: Vec<Region>,
    pub from_counter_ids: Vec<usize>,
}

/// Where a unit of coverage comes from.
#[derive(Clone, Debug, PartialEq, Eq)]
pub enum CounterId {
    Physical { id: usize },
    Inferred { from: Vec<usize> },
}

/// A physical or inferred counter with all its regions.
#[derive(Clone, Debug, PartialEq, Eq)]
pub struct CommonCounter {
    pub id: CounterId,
    pub regions: Vec<Region>,
}

/// One region of a counter, tagged with the counter it belongs to.
#[derive(Clone, Debug, PartialEq, Eq)]
pub struct CommonCounterWithSingleRegion {
    pub id: CounterId,
    pub region: Region,
}

/// An instrumented function: its symbol name, the path of its source file and
/// its counters.
#[derive(Clone, Debug, PartialEq, Eq)]
pub struct Function {
    pub name: String,
    pub file: String,
    pub counters: Vec<Counter>,
    pub inferred_counters: Vec<InferredCounter>,
}

/// All instrumented functions of one snapshot.
#[derive(Clone, Debug, PartialEq, Eq)]
pub struct CoverageMap {
    pub functions: Vec<Function>,
}

/// The corpus statistics of one snapshot, as the engine computed them.
#[derive(Clone, Debug, PartialEq, Eq)]
pub struct SerializedUniqCov {
    pub all_hit_counters: Vec<usize>,
    pub best_for_counter: Vec<(usize, usize)>,
    pub ranked_inputs: Vec<usize>,
    pub counters_for_input: Vec<(usize, Vec<usize>)>,
}

/// Relates each stored input, given by its pool path and pool index, to the
/// hash of its content.
#[derive(Clone, Debug, PartialEq, Eq)]
pub struct CorpusMap(pub Vec<((String, usize), String)>);

/// The mathematical value of a [`CounterId`].
pub enum OriginModel {
    Physical { id: usize },
    Inferred { from: Seq<usize> },
}

/// The mathematical value of a [`CommonCounterWithSingleRegion`].
pub struct UnitModel {
    pub id: OriginModel,
    pub region: Region,
}

/// The mathematical value of a [`CommonCounter`].
pub struct CounterModel {
    pub id: OriginModel,
    pub regions: Seq<Region>,
}

impl View for CounterId {
    type V = OriginModel;

    open spec fn view(&self) -> OriginModel {
        match self {
            CounterId::Physical { id } => OriginModel::Physical { id: *id },
            CounterId::Inferred { from } => OriginModel::Inferred { from: from@ },
        }
    }
}

impl View for CommonCounterWithSingleRegion {
    type V = UnitModel;

    open spec fn view(&self) -> UnitModel {
        UnitModel { id: self.id@, region: self.region }
    }
}

impl View for CommonCounter {
    type V = CounterModel;

    open spec fn view(&self) -> CounterModel {
        CounterModel { id: self.id@, regions: self.regions@ }
    }
}

impl CoverageMap {
    /// Puts in place of the path of each function's file what `map` makes of
    /// it.
    pub fn map_relative_paths<F: Fn(String) -> String>(&mut self, map: F)
        requires
            forall|i: int|
                0 <= i < old(self).functions@.len() ==> map.requires(
                    ((#[trigger] old(self).functions@[i]).file,),
                ),
        ensures
            final(self).functions@.len() == old(self).functions@.len(),
            forall|i: int|
                0 <= i < old(self).functions@.len() ==> {
                    &&& map.ensures(
                        (old(self).functions@[i].file,),
                        (#[trigger] final(self).functions@[i]).file,
                    )
                    &&& final(self).functions@[i].name == old(self).functions@[i].name
                    &&& final(self).functions@[i].counters == old(self).functions@[i].counters
                    &&& final(self).functions@[i].inferred_counters == old(
                        self,
                    ).functions@[i].inferred_counters
                },
    {
        let ghost before = *self;
        let count = self.functions.len();
        let mut i: usize = 0;
        while i < count
            invariant
                i <= count == before.functions@.len(),
                self.functions@.len() == before.functions@.len(),
                forall|k: int|
                    0 <= k < before.functions@.len() ==> map.requires(
                        ((#[trigger] before.functions@[k]).file,),
                    ),
                forall|k: int|
                    0 <= k < i ==> {
                        &&& map.ensures(
                            (before.functions@[k].file,),
                            (#[trigger] self.functions@[k]).file,
                        )
                        &&& self.functions@[k].name == before.functions@[k].name
                        &&& self.functions@[k].counters == before.functions@[k].counters
                        &&& self.functions@[k].inferred_counters
                            == before.functions@[k].inferred_counters
                    },
                forall|k: int| i <= k < count ==> self.functions@[k] == before.functions@[k],
            decreases count - i,
        {
            let path = self.functions[i].file.clone();
            assert(before.functions@[i as int].file == path);
            let mapped = map(path);
            self.functions[i].file = mapped;
            i = i + 1;
        }
    }
}

impl CounterId {
    /// A copy with the same value.
    pub fn duplicate(&self) -> (copy: CounterId)
        ensures
            copy@ == self@,
    {
        match self {
            CounterId::Physical { id } => CounterId::Physical { id: *id },
            CounterId::Inferred { from } => CounterId::Inferred { from: from.clone() },
        }
    }
}

} // verus!
