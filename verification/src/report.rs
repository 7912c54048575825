//! The annotated view of a function, made from its counters and the text of
//! its source file.

use crate::coverage::{CoverageModel, FunctionCoverage, FunctionName, NameModel};
use crate::fuzzcheck::{CommonCounterWithSingleRegion, CoverageMap, Function};
use crate::order::{
    ascending, lemma_sort_ascending, lemma_sort_keeps_items, sort_stably, stable_sort, views,
    Ranked,
};
use crate::render::{can_render, last_line, render_lines, renderable, rendered_lines};
use crate::text::{
    char_offset, lemma_text_order_antisymmetric, lemma_text_order_total,
    borrowed_lines, lemma_text_order_transitive, line_texts, lines_of, split_lines, text_not_behind,
    text_precedes,
};
use crate::tiling::{
    all_visible, has_lines, in_order, joined_text, lemma_spans_reproduce_source, line_text,
};
use vstd::prelude::*;
use vstd::string::*;

verus! {

/// The readable form of the symbol name `symbol`, as the crate `rustc_demangle`
/// prints it.
pub uninterp spec fn demangled(symbol: Seq<char>) -> Seq<char>;

/// The readable form of `symbol`: what `rustc_demangle::demangle` prints for it.
/// The contract only gives that text a name; it depends on `symbol` alone.
#[verifier::external_body]
fn demangle_symbol(symbol: &str) -> (readable: String)
    ensures
        readable@ == demangled(symbol@),
{
    rustc_demangle::demangle(symbol).to_string()
}

/// What stands for the file of a function that has no counters.
pub open spec fn no_counters_text(name: Seq<char>, file: Seq<char>) -> Seq<char> {
    "no counters for "@ + name + " in "@ + file
}

impl Function {
    /// The ids of the physical counters of the function, in their order.
    pub open spec fn physical_ids(&self) -> Seq<usize> {
        Seq::new(self.counters@.len(), |i: int| self.counters@[i].id)
    }

    /// The name of the function with its readable form.
    pub open spec fn full_name(&self) -> NameModel {
        NameModel { name: self.name@, demangled_name: demangled(self.name@) }
    }

    /// The annotated view of the function over the text `text` of its source
    /// file. A function without units has no lines, and a message in place of
    /// its file. Any other function has the lines that its units are rendered
    /// to over the lines of `text`, and the ids of its physical counters in
    /// ascending order.
    pub open spec fn rendering(&self, text: Seq<char>) -> CoverageModel {
        if self.sorted_units().len() == 0 {
            CoverageModel {
                name: self.full_name(),
                file: no_counters_text(self.name@, self.file@),
                lines: Seq::empty(),
                counter_ids: Seq::empty(),
            }
        } else {
            CoverageModel {
                name: self.full_name(),
                file: self.file@,
                lines: rendered_lines(self.sorted_units(), split_lines(text)),
                counter_ids: stable_sort::<usize>(self.physical_ids()),
            }
        }
    }

    /// Tells whether the function can be rendered over `text`.
    pub open spec fn renders_over(&self, text: Seq<char>) -> bool {
        renderable(self.sorted_units(), split_lines(text))
    }

    /// The ids of the physical counters in ascending order.
    fn sorted_ids(&self) -> (ids: Vec<usize>)
        ensures
            ids@ == stable_sort::<usize>(self.physical_ids()),
    {
        let mut ids: Vec<usize> = Vec::new();
        let count = self.counters.len();
        let mut i: usize = 0;
        while i < count
            invariant
                i <= count == self.counters@.len(),
                ids@ == self.physical_ids().take(i as int),
            decreases count - i,
        {
            ids.push(self.counters[i].id);
            assert(ids@ =~= self.physical_ids().take(i + 1));
            i = i + 1;
        }
        assert(self.physical_ids().take(count as int) =~= self.physical_ids());
        let sorted = sort_stably(ids);
        assert(views(sorted@) =~= sorted@);
        assert(views(ids@) =~= ids@);
        sorted
    }

    /// Renders the units `units` of the function over `lines`.
    fn coverage_of(&self, units: &Vec<CommonCounterWithSingleRegion>, lines: &[&str]) -> (cov:
        FunctionCoverage)
        requires
            views(units@) == self.sorted_units(),
            renderable(views(units@), line_texts(lines@)),
        ensures
            cov.name@ == self.full_name(),
            units@.len() == 0 ==> cov@ == (CoverageModel {
                name: self.full_name(),
                file: no_counters_text(self.name@, self.file@),
                lines: Seq::empty(),
                counter_ids: Seq::empty(),
            }),
            units@.len() > 0 ==> cov@ == (CoverageModel {
                name: self.full_name(),
                file: self.file@,
                lines: rendered_lines(self.sorted_units(), line_texts(lines@)),
                counter_ids: stable_sort::<usize>(self.physical_ids()),
            }),
    {
        let name = FunctionName {
            name: self.name.clone(),
            demangled_name: demangle_symbol(self.name.as_str()),
        };
        if units.len() == 0 {
            let mut file = String::from_str("no counters for ");
            file.append(self.name.as_str());
            file.append(" in ");
            file.append(self.file.as_str());
            let cov = FunctionCoverage { name, file, lines: Vec::new(), counter_ids: Vec::new() };
            assert(views(cov.lines@) =~= Seq::empty());
            return cov;
        }
        let code_lines = render_lines(units, lines);
        let counter_ids = self.sorted_ids();
        FunctionCoverage { name, file: self.file.clone(), lines: code_lines, counter_ids }
    }

    /// The annotated view of the function over the text `text` of its source
    /// file.
    pub fn coverage(&self, text: &str) -> (cov: FunctionCoverage)
        requires
            self.renders_over(text@),
        ensures
            cov@ == self.rendering(text@),
    {
        let owned = lines_of(text);
        let lines = borrowed_lines(&owned);
        let units = self.units();
        assert(views(units@).len() == units@.len());
        self.coverage_of(&units, lines.as_slice())
    }

    /// The annotated view of the function over `text`, or `None` where the
    /// function cannot be rendered over it.
    pub fn try_coverage(&self, text: &str) -> (cov: Option<FunctionCoverage>)
        ensures
            cov is Some <==> self.renders_over(text@),
            cov matches Some(c) ==> c@ == self.rendering(text@),
    {
        let owned = lines_of(text);
        let lines = borrowed_lines(&owned);
        let units = self.units();
        assert(views(units@).len() == units@.len());
        if can_render(&units, lines.as_slice()) {
            Some(self.coverage_of(&units, lines.as_slice()))
        } else {
            None
        }
    }
}

impl Ranked for FunctionCoverage {
    /// A view has a rank when it has a first line.
    open spec fn ranked(&self) -> bool {
        self.lines@.len() > 0
    }

    /// Views are ranked by their file, in the order of texts, and within one
    /// file by the number of their first line.
    open spec fn not_behind(a: CoverageModel, b: CoverageModel) -> bool {
        if a.file == b.file {
            a.lines[0].lineno <= b.lines[0].lineno
        } else {
            text_precedes(a.file, b.file)
        }
    }

    proof fn lemma_ranking_total(a: CoverageModel, b: CoverageModel) {
        lemma_text_order_total(a.file, b.file);
    }

    proof fn lemma_ranking_transitive(a: CoverageModel, b: CoverageModel, c: CoverageModel) {
        if a.file != b.file && b.file != c.file {
            lemma_text_order_transitive(a.file, b.file, c.file);
            if a.file == c.file {
                lemma_text_order_antisymmetric(a.file, b.file);
            }
        }
    }

    fn ranks_not_behind(&self, other: &FunctionCoverage) -> (before: bool) {
        assert(self@.lines[0] == self.lines@[0]@);
        assert(other@.lines[0] == other.lines@[0]@);
        if self.file == other.file {
            self.lines[0].lineno <= other.lines[0].lineno
        } else {
            text_not_behind(self.file.as_str(), other.file.as_str())
        }
    }
}

impl CoverageMap {
    /// The views of the functions of the map, function by function, each over
    /// the text that `sources` holds for it.
    pub open spec fn renderings(&self, sources: Seq<String>) -> Seq<CoverageModel> {
        Seq::new(self.functions@.len(), |i: int| self.functions@[i].rendering(sources[i]@))
    }

    /// Tells whether the functions of the map can be rendered over `sources`
    /// and put in order: there is one text for each function, each function
    /// can be rendered over its text, and each view has a first line if there
    /// is more than one.
    pub open spec fn renders_over(&self, sources: Seq<String>) -> bool {
        &&& sources.len() == self.functions@.len()
        &&& forall|i: int|
            0 <= i < self.functions@.len() ==> (#[trigger] self.functions@[i]).renders_over(
                sources[i]@,
            )
        &&& self.functions@.len() > 1 ==> forall|i: int|
            0 <= i < self.functions@.len() ==> (#[trigger] self.renderings(sources)[i]).lines.len()
                > 0
    }

    /// The views of all functions, without order.
    fn rendered(&self, sources: &Vec<String>) -> (covs: Option<Vec<FunctionCoverage>>)
        ensures
            covs is Some <==> self.renders_over(sources@),
            covs matches Some(found) ==> views(found@) == self.renderings(sources@),
    {
        let count = self.functions.len();
        if sources.len() != count {
            return None;
        }
        let mut covs: Vec<FunctionCoverage> = Vec::new();
        let mut i: usize = 0;
        while i < count
            invariant
                i <= count == self.functions@.len(),
                sources@.len() == count,
                views(covs@) == self.renderings(sources@).take(i as int),
                forall|k: int|
                    0 <= k < i ==> (#[trigger] self.functions@[k]).renders_over(sources@[k]@),
                count > 1 ==> forall|k: int|
                    0 <= k < i ==> (#[trigger] self.renderings(sources@)[k]).lines.len() > 0,
            decreases count - i,
        {
            match self.functions[i].try_coverage(sources[i].as_str()) {
                None => {
                    return None;
                },
                Some(cov) => {
                    assert(views(cov.lines@).len() == cov.lines@.len());
                    if count > 1 && cov.lines.len() == 0 {
                        assert(self.renderings(sources@)[i as int].lines.len() == 0);
                        return None;
                    }
                    let ghost before = views(covs@);
                    covs.push(cov);
                    assert(views(covs@) =~= before.push(cov@));
                    assert(before.push(cov@) =~= self.renderings(sources@).take(i + 1));
                },
            }
            i = i + 1;
        }
        assert(self.renderings(sources@).take(count as int) =~= self.renderings(sources@));
        Some(covs)
    }

    /// The views of all functions of the map, ordered by their file and the
    /// number of their first line, or `None` where the functions cannot be
    /// rendered over `sources` and put in order. `sources` holds for each
    /// function, in the order of the map, the text of its source file.
    pub fn try_functions(&self, sources: &Vec<String>) -> (covs: Option<Vec<FunctionCoverage>>)
        ensures
            covs is Some <==> self.renders_over(sources@),
            covs matches Some(found) ==> views(found@) == stable_sort::<FunctionCoverage>(
                self.renderings(sources@),
            ),
    {
        match self.rendered(sources) {
            None => None,
            Some(covs) => {
                if covs.len() <= 1 {
                    proof {
                        let all = self.renderings(sources@);
                        assert(views(covs@).len() == covs@.len());
                        reveal_with_fuel(stable_sort, 2);
                        if all.len() == 1 {
                            assert(stable_sort::<FunctionCoverage>(all.drop_last()) =~= Seq::<
                                CoverageModel,
                            >::empty());
                            assert(stable_sort::<FunctionCoverage>(all) =~= all);
                        }
                    }
                    Some(covs)
                } else {
                    assert(views(covs@).len() == covs@.len());
                    assert(self.renders_over(sources@));
                    assert(self.functions@.len() > 1);
                    assert forall|i: int| 0 <= i < covs@.len() implies (
                    #[trigger] covs@[i]).ranked() by {
                        assert(views(covs@)[i] == covs@[i]@);
                        assert(views(covs@[i].lines@).len() == covs@[i].lines@.len());
                        assert(self.renderings(sources@)[i].lines.len() > 0);
                    }
                    Some(sort_stably(covs))
                }
            },
        }
    }

    /// The views of all functions of the map, ordered by their file and the
    /// number of their first line. `sources` holds for each function, in the
    /// order of the map, the text of its source file.
    pub fn functions(&self, sources: &Vec<String>) -> (covs: Vec<FunctionCoverage>)
        requires
            self.renders_over(sources@),
        ensures
            views(covs@) == stable_sort::<FunctionCoverage>(self.renderings(sources@)),
    {
        self.try_functions(sources).unwrap()
    }
}

/// The texts of the spans of each line of a function's view, put together in
/// their order, are the source text of that line: all of it, but on the last
/// line the text up to the end of the last unit. This holds when the units of
/// the function are in the order of the text and do not overlap, each unit that
/// lies on one line has text, and the text has all the lines that the units
/// speak of.
pub proof fn lemma_view_reproduces_source(function: Function, text: Seq<char>, k: int)
    requires
        in_order(function.sorted_units(), split_lines(text)),
        all_visible(function.sorted_units(), split_lines(text)),
        has_lines(split_lines(text), last_line(function.sorted_units())),
        0 <= k < function.rendering(text).lines.len(),
    ensures
        joined_text(function.rendering(text).lines[k].spans) == if function.rendering(
            text,
        ).lines[k].lineno < last_line(function.sorted_units()) {
            line_text(split_lines(text), function.rendering(text).lines[k].lineno)
        } else {
            line_text(split_lines(text), function.rendering(text).lines[k].lineno).take(
                char_offset(
                    line_text(split_lines(text), function.rendering(text).lines[k].lineno),
                    function.sorted_units().last().region.cols.1,
                ),
            )
        },
{
    let units = function.sorted_units();
    let lineno = function.rendering(text).lines[k].lineno;
    lemma_spans_reproduce_source(units, split_lines(text), lineno);
}

/// The ids of the physical counters in a function's view are in ascending
/// order, and they are the ids of the function's physical counters, each as
/// often as it occurs among them.
pub proof fn lemma_counter_ids_are_sorted(function: Function, text: Seq<char>)
    requires
        function.sorted_units().len() > 0,
    ensures
        ascending::<usize>(function.rendering(text).counter_ids),
        function.rendering(text).counter_ids.to_multiset() == function.physical_ids().to_multiset(),
{
    lemma_sort_ascending::<usize>(function.physical_ids());
    lemma_sort_keeps_items::<usize>(function.physical_ids());
}

/// Rendering is a function of the counters and of the text: two views of one
/// function over one text are equal in every line and span, and in their order.
pub proof fn lemma_rendering_is_determined(
    function: Function,
    text: Seq<char>,
    one: FunctionCoverage,
    other: FunctionCoverage,
)
    requires
        one@ == function.rendering(text),
        other@ == function.rendering(text),
    ensures
        one@ == other@,
        one@.lines == other@.lines,
{
}

} // verus!
