//! Brings the counters of a function, physical and inferred, into one sequence
//! of units of one region each, ordered by where their regions start.

use crate::fuzzcheck::{
    CommonCounter, CommonCounterWithSingleRegion, CounterId, CounterModel, Function, OriginModel,
    Region, UnitModel,
};
use crate::order::{
    ascending, lemma_sort_ascending, lemma_sort_is_stable, lemma_sort_keeps_items, sort_stably,
    stable_sort, ties, views, Ranked,
};
use vstd::prelude::*;

verus! {

/// The units of `counter`: one for each of its regions, in their order.
pub open spec fn units_of(counter: CounterModel) -> Seq<UnitModel> {
    Seq::new(
        counter.regions.len(),
        |i: int| UnitModel { id: counter.id, region: counter.regions[i] },
    )
}

/// The units of all of `counters`, counter after counter.
pub open spec fn all_units(counters: Seq<CounterModel>) -> Seq<UnitModel>
    decreases counters.len(),
{
    if counters.len() == 0 {
        Seq::empty()
    } else {
        all_units(counters.drop_last()) + units_of(counters.last())
    }
}

/// The parts of `unit` line by line: each part has the origin of `unit` and one
/// line of its region.
pub open spec fn parts_by_line(unit: UnitModel) -> Seq<UnitModel> {
    Seq::new(
        unit.region.line_count(),
        |i: int| UnitModel { id: unit.id, region: unit.region.by_line()[i] },
    )
}

impl Ranked for CommonCounterWithSingleRegion {
    open spec fn ranked(&self) -> bool {
        true
    }

    /// Units are ranked by the line on which their region starts, then by its
    /// starting column.
    open spec fn not_behind(a: UnitModel, b: UnitModel) -> bool {
        a.region.lines.0 < b.region.lines.0 || (a.region.lines.0 == b.region.lines.0
            && a.region.cols.0 <= b.region.cols.0)
    }

    proof fn lemma_ranking_total(a: UnitModel, b: UnitModel) {
    }

    proof fn lemma_ranking_transitive(a: UnitModel, b: UnitModel, c: UnitModel) {
    }

    fn ranks_not_behind(&self, other: &CommonCounterWithSingleRegion) -> (before: bool) {
        self.region.lines.0 < other.region.lines.0 || (self.region.lines.0
            == other.region.lines.0 && self.region.cols.0 <= other.region.cols.0)
    }
}

impl Function {
    /// The counters of the function in one sequence: the physical counters in
    /// their order, then the inferred ones in theirs.
    pub open spec fn common_counters(&self) -> Seq<CounterModel> {
        Seq::new(
            self.counters@.len(),
            |i: int|
                CounterModel {
                    id: OriginModel::Physical { id: self.counters@[i].id },
                    regions: self.counters@[i].regions@,
                },
        ) + Seq::new(
            self.inferred_counters@.len(),
            |i: int|
                CounterModel {
                    id: OriginModel::Inferred { from: self.inferred_counters@[i].from_counter_ids@ },
                    regions: self.inferred_counters@[i].regions@,
                },
        )
    }

    /// The units of the function in the order in which they are rendered: by
    /// starting line and starting column, units that start at the same place in
    /// the order of [`Function::common_counters`].
    pub open spec fn sorted_units(&self) -> Seq<UnitModel> {
        stable_sort::<CommonCounterWithSingleRegion>(all_units(self.common_counters()))
    }

    /// The units of the function, ordered by where their regions start.
    pub fn units(&self) -> (units: Vec<CommonCounterWithSingleRegion>)
        ensures
            views(units@) == self.sorted_units(),
    {
        let ghost common = self.common_counters();
        let mut units: Vec<CommonCounterWithSingleRegion> = Vec::new();
        let physical = self.counters.len();
        let mut i: usize = 0;
        while i < physical
            invariant
                i <= physical == self.counters@.len(),
                common == self.common_counters(),
                views(units@) == all_units(common.take(i as int)),
            decreases physical - i,
        {
            let counter = CommonCounter {
                id: CounterId::Physical { id: self.counters[i].id },
                regions: self.counters[i].regions.clone(),
            };
            assert(counter@ == common[i as int]);
            let mut split = split_counter_by_region(counter);
            let ghost before = views(units@);
            units.append(&mut split);
            proof {
                assert(common.take(i + 1).drop_last() =~= common.take(i as int));
                assert(views(units@) =~= before + units_of(common[i as int]));
            }
            i = i + 1;
        }
        let inferred = self.inferred_counters.len();
        let mut j: usize = 0;
        while j < inferred
            invariant
                j <= inferred == self.inferred_counters@.len(),
                physical == self.counters@.len(),
                common == self.common_counters(),
                views(units@) == all_units(common.take(physical + j)),
            decreases inferred - j,
        {
            let counter = CommonCounter {
                id: CounterId::Inferred { from: self.inferred_counters[j].from_counter_ids.clone() },
                regions: self.inferred_counters[j].regions.clone(),
            };
            assert(counter@ == common[physical + j]);
            let mut split = split_counter_by_region(counter);
            let ghost before = views(units@);
            units.append(&mut split);
            proof {
                assert(common.take(physical + j + 1).drop_last() =~= common.take(physical + j));
                assert(views(units@) =~= before + units_of(common[physical + j]));
            }
            j = j + 1;
        }
        assert(common.take(physical + inferred) =~= common);
        sort_stably(units)
    }
}

/// The units of a function are in ascending order of the place where their
/// regions start, they are the units of its counters, each as often as it
/// occurs among them, and units that start at one place stand in the order of
/// the counters.
pub proof fn lemma_units_are_ordered(function: Function, place: UnitModel)
    ensures
        ascending::<CommonCounterWithSingleRegion>(function.sorted_units()),
        function.sorted_units().to_multiset() == all_units(
            function.common_counters(),
        ).to_multiset(),
        function.sorted_units().filter(
            |unit: UnitModel| ties::<CommonCounterWithSingleRegion>(unit, place),
        ) == all_units(function.common_counters()).filter(
            |unit: UnitModel| ties::<CommonCounterWithSingleRegion>(unit, place),
        ),
{
    let units = all_units(function.common_counters());
    lemma_sort_ascending::<CommonCounterWithSingleRegion>(units);
    lemma_sort_keeps_items::<CommonCounterWithSingleRegion>(units);
    lemma_sort_is_stable::<CommonCounterWithSingleRegion>(units, place);
}

/// Splits `c` into one unit for each of its regions.
pub fn split_counter_by_region(c: CommonCounter) -> (units: Vec<CommonCounterWithSingleRegion>)
    ensures
        views(units@) == units_of(c@),
{
    let mut units: Vec<CommonCounterWithSingleRegion> = Vec::new();
    let count = c.regions.len();
    let mut i: usize = 0;
    while i < count
        invariant
            i <= count == c.regions@.len(),
            views(units@) == units_of(c@).take(i as int),
        decreases count - i,
    {
        let ghost before = views(units@);
        let unit = CommonCounterWithSingleRegion { id: c.id.duplicate(), region: c.regions[i] };
        assert(unit@ == units_of(c@)[i as int]);
        units.push(unit);
        assert(views(units@) =~= before.push(unit@));
        assert(before.push(unit@) =~= units_of(c@).take(i + 1));
        i = i + 1;
    }
    assert(units_of(c@).take(count as int) =~= units_of(c@));
    units
}

/// Splits `c` into one unit for each line that its region touches.
pub fn split_counter_by_line(c: CommonCounterWithSingleRegion) -> (parts: Vec<
    CommonCounterWithSingleRegion,
>)
    requires
        c.region.lines.1 - c.region.lines.0 < usize::MAX,
    ensures
        views(parts@) == parts_by_line(c@),
{
    let mut parts: Vec<CommonCounterWithSingleRegion> = Vec::new();
    if c.region.lines.1 < c.region.lines.0 {
        assert(views(parts@) =~= parts_by_line(c@));
        return parts;
    }
    let mut line: usize = c.region.lines.0;
    loop
        invariant_except_break
            c.region.lines.0 <= line <= c.region.lines.1,
            views(parts@) == parts_by_line(c@).take(line - c.region.lines.0),
        invariant
            c.region.lines.0 <= c.region.lines.1,
            c.region.lines.1 - c.region.lines.0 < usize::MAX,
        ensures
            views(parts@) == parts_by_line(c@),
        decreases c.region.lines.1 - line,
    {
        let start_col: usize = if line == c.region.lines.0 {
            c.region.cols.0
        } else {
            0
        };
        let end_col: usize = if line == c.region.lines.1 {
            c.region.cols.1
        } else {
            usize::MAX
        };
        let ghost before = views(parts@);
        let part = CommonCounterWithSingleRegion {
            id: c.id.duplicate(),
            region: Region { lines: (line, line), cols: (start_col, end_col) },
        };
        assert(part@ == parts_by_line(c@)[line - c.region.lines.0]);
        parts.push(part);
        assert(views(parts@) =~= before.push(part@));
        assert(before.push(part@) =~= parts_by_line(c@).take(line - c.region.lines.0 + 1));
        if line == c.region.lines.1 {
            assert(parts_by_line(c@).take(line - c.region.lines.0 + 1) =~= parts_by_line(c@));
            break;
        }
        line = line + 1;
    }
    parts
}

} // verus!
