//! Gives every span that a physical counter covers its coverage status, under
//! all inputs or under one input. The texts and the bounds of the spans stay
//! as they are.

use crate::coverage::{
    CodeSpanKind, CoverageModel, CoverageStatus, FunctionCoverage, LineModel, SpanKindModel,
    SpanModel,
};
use crate::filter::InputFilter;
use crate::fuzzcheck::SerializedUniqCov;
use crate::order::views;
use crate::query::{best_of, counters_of, NotFound};
use vstd::prelude::*;

verus! {

/// The rule by which a status is given, as a mathematical value.
pub enum StatusRule {
    /// Under all inputs: the counters that any input hits.
    Global { hits: Seq<usize> },
    /// Under one input: the counters that it hits, the best input of each
    /// counter, and the pool index of the input.
    Input { counters: Seq<usize>, best: Seq<(usize, usize)>, pool_index: usize },
}

/// The status of the counter `id` under `rule`. Under all inputs it is `Hit`
/// if any input hits the counter, else `NotHit`. Under one input it is `NotHit`
/// if that input does not hit the counter, `Best` if it hits it and is the best
/// input for it, and `Hit` otherwise.
pub open spec fn status_under(rule: StatusRule, id: usize) -> CoverageStatus {
    match rule {
        StatusRule::Global { hits } => if hits.contains(id) {
            CoverageStatus::Hit
        } else {
            CoverageStatus::NotHit
        },
        StatusRule::Input { counters, best, pool_index } => if counters.contains(id) {
            if best_of(best, id) == Some(pool_index) {
                CoverageStatus::Best
            } else {
                CoverageStatus::Hit
            }
        } else {
            CoverageStatus::NotHit
        },
    }
}

/// `kind` with its status under `rule`. Only the class of a physical counter
/// changes.
pub open spec fn kind_under(rule: StatusRule, kind: SpanKindModel) -> SpanKindModel {
    match kind {
        SpanKindModel::Physical { id, status } => SpanKindModel::Physical {
            id: id,
            status: status_under(rule, id),
        },
        other => other,
    }
}

/// `span` with its status under `rule`.
pub open spec fn span_under(rule: StatusRule, span: SpanModel) -> SpanModel {
    SpanModel { text: span.text, kind: kind_under(rule, span.kind) }
}

/// `line` with the status of each of its spans under `rule`.
pub open spec fn line_under(rule: StatusRule, line: LineModel) -> LineModel {
    LineModel {
        lineno: line.lineno,
        spans: Seq::new(line.spans.len(), |i: int| span_under(rule, line.spans[i])),
    }
}

/// `cov` with the status of each of its spans under `rule`.
pub open spec fn coverage_under(rule: StatusRule, cov: CoverageModel) -> CoverageModel {
    CoverageModel {
        name: cov.name,
        file: cov.file,
        lines: Seq::new(cov.lines.len(), |i: int| line_under(rule, cov.lines[i])),
        counter_ids: cov.counter_ids,
    }
}

/// The rule by which a status is given: under all inputs, or under one input.
#[derive(Clone, Copy, Debug)]
pub enum CoverageStatusResolver<'a> {
    Global { hits: &'a Vec<usize> },
    Input { counters: &'a Vec<usize>, best: &'a Vec<(usize, usize)>, pool_index: usize },
}

impl<'a> View for CoverageStatusResolver<'a> {
    type V = StatusRule;

    open spec fn view(&self) -> StatusRule {
        match self {
            CoverageStatusResolver::Global { hits } => StatusRule::Global { hits: hits@ },
            CoverageStatusResolver::Input { counters, best, pool_index } => StatusRule::Input {
                counters: counters@,
                best: best@,
                pool_index: *pool_index,
            },
        }
    }
}

/// The rule that `stats` give for `filter`, or `None` where `filter` names an
/// input of which `stats` know no counters.
pub open spec fn rule_for(stats: SerializedUniqCov, filter: InputFilter) -> Option<StatusRule> {
    match filter {
        InputFilter::All => Some(StatusRule::Global { hits: stats.all_hit_counters@ }),
        InputFilter::Input(pool_index) => match counters_of(stats.counters_for_input@, pool_index) {
            Some(counters) => Some(
                StatusRule::Input { counters, best: stats.best_for_counter@, pool_index },
            ),
            None => None,
        },
    }
}

/// Tells whether `id` is one of `ids`.
pub(crate) fn holds(ids: &Vec<usize>, id: usize) -> (found: bool)
    ensures
        found == ids@.contains(id),
{
    let count = ids.len();
    let mut i: usize = 0;
    while i < count
        invariant
            i <= count == ids@.len(),
            forall|k: int| 0 <= k < i ==> ids@[k] != id,
        decreases count - i,
    {
        if ids[i] == id {
            return true;
        }
        i = i + 1;
    }
    false
}

/// Tells whether `pool_index` is the best input that `best` gives for `id`.
fn is_best(best: &Vec<(usize, usize)>, id: usize, pool_index: usize) -> (yes: bool)
    ensures
        yes == (best_of(best@, id) == Some(pool_index)),
{
    let count = best.len();
    let mut i: usize = 0;
    assert(best@.skip(0) =~= best@);
    while i < count
        invariant
            i <= count == best@.len(),
            best_of(best@, id) == best_of(best@.skip(i as int), id),
        decreases count - i,
    {
        assert(best@.skip(i as int).skip(1) =~= best@.skip(i + 1));
        if best[i].0 == id {
            return best[i].1 == pool_index;
        }
        i = i + 1;
    }
    false
}

impl<'a> CoverageStatusResolver<'a> {
    /// The rule for `filter` over the statistics `stats`.
    pub fn new(stats: &'a SerializedUniqCov, filter: InputFilter) -> (resolver: Result<
        CoverageStatusResolver<'a>,
        NotFound,
    >)
        ensures
            match resolver {
                Ok(found) => rule_for(*stats, filter) == Some(found@),
                Err(_) => rule_for(*stats, filter) is None,
            },
    {
        match filter {
            InputFilter::All => Ok(CoverageStatusResolver::Global { hits: &stats.all_hit_counters }),
            InputFilter::Input(pool_index) => match stats.counters_for(pool_index) {
                Ok(counters) => Ok(
                    CoverageStatusResolver::Input {
                        counters,
                        best: &stats.best_for_counter,
                        pool_index,
                    },
                ),
                Err(_) => Err(NotFound),
            },
        }
    }

    /// The status of the counter `id`.
    pub fn status_of(&self, id: usize) -> (status: CoverageStatus)
        ensures
            status == status_under(self@, id),
    {
        match self {
            CoverageStatusResolver::Global { hits } => if holds(hits, id) {
                CoverageStatus::Hit
            } else {
                CoverageStatus::NotHit
            },
            CoverageStatusResolver::Input { counters, best, pool_index } => if holds(counters, id) {
                if is_best(best, id, *pool_index) {
                    CoverageStatus::Best
                } else {
                    CoverageStatus::Hit
                }
            } else {
                CoverageStatus::NotHit
            },
        }
    }

    /// Gives every span of `cov` that a physical counter covers its status.
    pub fn apply(&self, cov: &mut FunctionCoverage)
        ensures
            final(cov)@ == coverage_under(self@, old(cov)@),
    {
        let ghost before = *cov;
        let ghost rule = self@;
        let line_count = cov.lines.len();
        let mut li: usize = 0;
        while li < line_count
            invariant
                li <= line_count == before.lines@.len(),
                rule == self@,
                cov.name == before.name,
                cov.file == before.file,
                cov.counter_ids == before.counter_ids,
                cov.lines@.len() == before.lines@.len(),
                forall|k: int| 0 <= k < li ==> (#[trigger] cov.lines@[k])@ == line_under(rule, before.lines@[k]@),
                forall|k: int| li <= k < line_count ==> cov.lines@[k] == before.lines@[k],
            decreases line_count - li,
        {
            let span_count = cov.lines[li].spans.len();
            let mut si: usize = 0;
            while si < span_count
                invariant
                    li < line_count == before.lines@.len(),
                    si <= span_count == before.lines@[li as int].spans@.len(),
                    rule == self@,
                    cov.name == before.name,
                    cov.file == before.file,
                    cov.counter_ids == before.counter_ids,
                    cov.lines@.len() == before.lines@.len(),
                    forall|k: int| 0 <= k < li ==> (#[trigger] cov.lines@[k])@ == line_under(rule, before.lines@[k]@),
                    forall|k: int| li < k < line_count ==> cov.lines@[k] == before.lines@[k],
                    cov.lines@[li as int].lineno == before.lines@[li as int].lineno,
                    cov.lines@[li as int].spans@.len() == span_count,
                    forall|m: int|
                        0 <= m < si ==> (#[trigger] cov.lines@[li as int].spans@[m])@ == span_under(
                            rule,
                            before.lines@[li as int].spans@[m]@,
                        ),
                    forall|m: int|
                        si <= m < span_count ==> cov.lines@[li as int].spans@[m]
                            == before.lines@[li as int].spans@[m],
                decreases span_count - si,
            {
                let counter = match &cov.lines[li].spans[si].kind {
                    CodeSpanKind::Physical { id, status: _ } => Some(*id),
                    _ => None,
                };
                match counter {
                    Some(id) => {
                        let status = self.status_of(id);
                        cov.lines[li].spans[si].kind = CodeSpanKind::Physical { id: id, status };
                    },
                    None => {},
                }
                si = si + 1;
            }
            proof {
                assert(cov.lines@[li as int]@.spans =~= line_under(
                    rule,
                    before.lines@[li as int]@,
                ).spans);
            }
            li = li + 1;
        }
        proof {
            assert(views(cov.lines@) =~= coverage_under(rule, before@).lines);
        }
    }
}

/// Gives the spans of `cov` their status under `filter`. Where `filter` names
/// an input of which `stats` know no counters, `cov` stays as it is.
pub fn resolve_status(cov: &mut FunctionCoverage, stats: &SerializedUniqCov, filter: InputFilter) -> (done:
    Result<(), NotFound>)
    ensures
        match rule_for(*stats, filter) {
            Some(rule) => done is Ok && final(cov)@ == coverage_under(rule, old(cov)@),
            None => done is Err && *final(cov) == *old(cov),
        },
{
    match CoverageStatusResolver::new(stats, filter) {
        Ok(resolver) => {
            resolver.apply(cov);
            Ok(())
        },
        Err(_) => Err(NotFound),
    }
}

/// Giving the status a second time under the same rule changes nothing.
pub proof fn lemma_status_is_idempotent(rule: StatusRule, cov: CoverageModel)
    ensures
        coverage_under(rule, coverage_under(rule, cov)) == coverage_under(rule, cov),
{
    let once = coverage_under(rule, cov);
    let twice = coverage_under(rule, once);
    assert forall|i: int| 0 <= i < once.lines.len() implies twice.lines[i] == once.lines[i] by {
        assert(twice.lines[i].spans =~= once.lines[i].spans);
    }
    assert(twice.lines =~= once.lines);
}

/// Giving the status changes neither the text of a span nor the number of
/// spans and lines.
pub proof fn lemma_status_keeps_text(rule: StatusRule, cov: CoverageModel, line: int, span: int)
    requires
        0 <= line < cov.lines.len(),
        0 <= span < cov.lines[line].spans.len(),
    ensures
        coverage_under(rule, cov).lines.len() == cov.lines.len(),
        coverage_under(rule, cov).lines[line].lineno == cov.lines[line].lineno,
        coverage_under(rule, cov).lines[line].spans.len() == cov.lines[line].spans.len(),
        coverage_under(rule, cov).lines[line].spans[span].text == cov.lines[line].spans[span].text,
{
}

} // verus!
