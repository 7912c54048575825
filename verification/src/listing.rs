//! The list of the functions of a snapshot: grouped by their file, found by
//! their name, and filtered by how much of them the inputs cover.

use crate::coverage::{CoverageModel, FunctionCoverage, FunctionName, NameModel};
use crate::filter::{CoverageKindFilter, FunctionFilter, InputFilter};
use crate::fuzzcheck::SerializedUniqCov;
use crate::order::views;
use crate::query::NotFound;
use crate::status::{holds, rule_for, CoverageStatusResolver, StatusRule};
use vstd::prelude::*;
use vstd::string::*;

verus! {

/// The files of `covs`, each once, in the order in which they first occur.
pub open spec fn files_of(covs: Seq<CoverageModel>) -> Seq<Seq<char>>
    decreases covs.len(),
{
    if covs.len() == 0 {
        Seq::empty()
    } else if files_of(covs.drop_last()).contains(covs.last().file) {
        files_of(covs.drop_last())
    } else {
        files_of(covs.drop_last()).push(covs.last().file)
    }
}

/// The names of those of `covs` whose file is `file`, in their order.
pub open spec fn names_in(covs: Seq<CoverageModel>, file: Seq<char>) -> Seq<NameModel>
    decreases covs.len(),
{
    if covs.len() == 0 {
        Seq::empty()
    } else if covs.last().file == file {
        names_in(covs.drop_last(), file).push(covs.last().name)
    } else {
        names_in(covs.drop_last(), file)
    }
}

/// The functions of `covs` by file: one group for each file, in the order in
/// which the files first occur, with the names of the functions of that file in
/// their order.
pub open spec fn grouped(covs: Seq<CoverageModel>) -> Seq<(Seq<char>, Seq<NameModel>)> {
    Seq::new(
        files_of(covs).len(),
        |i: int| (files_of(covs)[i], names_in(covs, files_of(covs)[i])),
    )
}

/// The mathematical value of a list of groups.
pub open spec fn groups_view(groups: Seq<(String, Vec<FunctionName>)>) -> Seq<
    (Seq<char>, Seq<NameModel>),
> {
    Seq::new(groups.len(), |i: int| (groups[i].0@, views(groups[i].1@)))
}

/// No file occurs twice among the files of `covs`.
pub proof fn lemma_files_are_distinct(covs: Seq<CoverageModel>)
    ensures
        forall|i: int, j: int|
            0 <= i < j < files_of(covs).len() ==> files_of(covs)[i] != files_of(covs)[j],
    decreases covs.len(),
{
    if covs.len() > 0 {
        let rest = files_of(covs.drop_last());
        lemma_files_are_distinct(covs.drop_last());
        if !rest.contains(covs.last().file) {
            assert forall|i: int, j: int| 0 <= i < j < files_of(covs).len() implies files_of(
                covs,
            )[i] != files_of(covs)[j] by {
                assert(files_of(covs)[i] == rest[i]);
                if j < rest.len() {
                    assert(files_of(covs)[j] == rest[j]);
                } else {
                    assert(rest.contains(rest[i]));
                }
            }
        }
    }
}

/// A file that is none of the files of `covs` has no names.
proof fn lemma_new_file_has_no_names(covs: Seq<CoverageModel>, file: Seq<char>)
    requires
        !files_of(covs).contains(file),
    ensures
        names_in(covs, file).len() == 0,
    decreases covs.len(),
{
    if covs.len() > 0 {
        let rest = files_of(covs.drop_last());
        if rest.contains(covs.last().file) {
        } else {
            assert(rest.push(covs.last().file).last() == covs.last().file);
            assert forall|k: int| 0 <= k < rest.len() implies rest[k] != file by {
                assert(rest.push(covs.last().file)[k] == rest[k]);
            }
        }
        lemma_new_file_has_no_names(covs.drop_last(), file);
    }
}

impl FunctionName {
    /// A copy with the same value.
    pub fn duplicate(&self) -> (copy: FunctionName)
        ensures
            copy@ == self@,
    {
        FunctionName { name: self.name.clone(), demangled_name: self.demangled_name.clone() }
    }
}

/// The names of the functions of `covs`, grouped by their file.
pub fn functions_per_file(covs: &Vec<FunctionCoverage>) -> (groups: Vec<
    (String, Vec<FunctionName>),
>)
    ensures
        groups_view(groups@) == grouped(views(covs@)),
{
    let ghost all = views(covs@);
    let mut groups: Vec<(String, Vec<FunctionName>)> = Vec::new();
    let count = covs.len();
    let mut i: usize = 0;
    assert(groups_view(groups@) =~= grouped(all.take(0)));
    while i < count
        invariant
            i <= count == covs@.len(),
            all == views(covs@),
            groups_view(groups@) == grouped(all.take(i as int)),
        decreases count - i,
    {
        let ghost done = all.take(i as int);
        let ghost next = all.take(i + 1);
        let ghost before = groups_view(groups@);
        let cov = &covs[i];
        proof {
            assert(next.drop_last() =~= done);
            assert(next.last() == cov@);
            assert(before.len() == files_of(done).len());
            lemma_files_are_distinct(done);
        }
        let group_count = groups.len();
        let mut at: usize = 0;
        while at < group_count && !(groups[at].0 == cov.file)
            invariant
                at <= group_count == groups@.len(),
                group_count == files_of(done).len(),
                before == groups_view(groups@),
                before == grouped(done),
                forall|k: int| 0 <= k < at ==> files_of(done)[k] != cov.file@,
            decreases group_count - at,
        {
            assert(before[at as int].0 == groups@[at as int].0@);
            assert(before[at as int].0 == files_of(done)[at as int]);
            at = at + 1;
        }
        let ghost old_groups = groups@;
        if at < group_count {
            assert(before[at as int].0 == groups@[at as int].0@);
            assert(before[at as int].0 == files_of(done)[at as int]);
            assert(files_of(done)[at as int] == cov@.file);
            assert(files_of(done).contains(cov@.file));
            let ghost names = views(groups@[at as int].1@);
            assert(names == before[at as int].1);
            groups[at].1.push(cov.name.duplicate());
            proof {
                assert(views(groups@[at as int].1@) =~= names.push(cov@.name));
                assert(files_of(next) == files_of(done));
                assert forall|k: int| 0 <= k < groups@.len() implies groups_view(groups@)[k]
                    == grouped(next)[k] by {
                    assert(before[k] == grouped(done)[k]);
                    if k != at {
                        assert(groups@[k] == old_groups[k]);
                        assert(files_of(done)[k] != files_of(done)[at as int]);
                    }
                }
                assert(groups_view(groups@) =~= grouped(next));
            }
        } else {
            let mut names: Vec<FunctionName> = Vec::new();
            names.push(cov.name.duplicate());
            groups.push((cov.file.clone(), names));
            proof {
                assert forall|k: int| 0 <= k < files_of(done).len() implies files_of(done)[k]
                    != cov@.file by {}
                assert(!files_of(done).contains(cov@.file));
                lemma_new_file_has_no_names(done, cov@.file);
                assert(views(names@) =~= names_in(next, cov@.file));
                assert(files_of(next) == files_of(done).push(cov@.file));
                assert forall|k: int| 0 <= k < groups@.len() implies groups_view(groups@)[k]
                    == grouped(next)[k] by {
                    if k < old_groups.len() {
                        assert(groups@[k] == old_groups[k]);
                        assert(before[k] == grouped(done)[k]);
                        assert(files_of(next)[k] == files_of(done)[k]);
                    }
                }
                assert(groups_view(groups@) =~= grouped(next));
            }
        }
        i = i + 1;
    }
    assert(all.take(count as int) =~= all);
    groups
}

/// The position of the first of `covs` with the name `name`, or `None` where
/// none has that name.
pub open spec fn position_of(covs: Seq<CoverageModel>, name: Seq<char>) -> Option<int>
    decreases covs.len(),
{
    if covs.len() == 0 {
        None
    } else {
        match position_of(covs.drop_last(), name) {
            Some(at) => Some(at),
            None => if covs.last().name.name == name {
                Some(covs.len() - 1)
            } else {
                None
            },
        }
    }
}

/// The position that is found holds the name, and no position before it does.
pub proof fn lemma_position_is_first(covs: Seq<CoverageModel>, name: Seq<char>)
    ensures
        match position_of(covs, name) {
            Some(at) => 0 <= at < covs.len() && covs[at].name.name == name && forall|k: int|
                0 <= k < at ==> covs[k].name.name != name,
            None => forall|k: int| 0 <= k < covs.len() ==> covs[k].name.name != name,
        },
    decreases covs.len(),
{
    if covs.len() > 0 {
        let front = covs.drop_last();
        lemma_position_is_first(front, name);
        match position_of(front, name) {
            Some(at) => {
                assert(covs[at] == front[at]);
                assert forall|k: int| 0 <= k < at implies covs[k].name.name != name by {
                    assert(covs[k] == front[k]);
                }
            },
            None => {
                assert forall|k: int| 0 <= k < covs.len() - 1 implies covs[k].name.name != name by {
                    assert(covs[k] == front[k]);
                }
            },
        }
    }
}

/// The view of the function with the name `name`: the first of `covs` that has
/// it.
pub fn find_function<'a>(covs: &'a Vec<FunctionCoverage>, name: &str) -> (found: Result<
    &'a FunctionCoverage,
    NotFound,
>)
    ensures
        match found {
            Ok(cov) => position_of(views(covs@), name@) is Some && *cov == covs@[position_of(
                views(covs@),
                name@,
            ).unwrap()],
            Err(_) => position_of(views(covs@), name@) is None,
        },
{
    match find_position(covs, name) {
        Some(at) => Ok(&covs[at]),
        None => Err(NotFound),
    }
}

/// The position of the first of `covs` with the name `name`.
fn find_position(covs: &Vec<FunctionCoverage>, name: &str) -> (found: Option<usize>)
    ensures
        match found {
            Some(at) => position_of(views(covs@), name@) == Some(at as int) && at < covs@.len(),
            None => position_of(views(covs@), name@) is None,
        },
{
    let ghost all = views(covs@);
    let wanted = String::from_str(name);
    let count = covs.len();
    let mut i: usize = 0;
    assert(all.take(0) =~= Seq::<CoverageModel>::empty());
    while i < count
        invariant
            i <= count == covs@.len(),
            all == views(covs@),
            wanted@ == name@,
            position_of(all.take(i as int), name@) is None,
        decreases count - i,
    {
        proof {
            assert(all.take(i + 1).drop_last() =~= all.take(i as int));
            assert(all.take(i + 1).last() == covs@[i as int]@);
        }
        if covs[i].name.name == wanted {
            proof {
                lemma_position_from_prefix(all, name@, i + 1);
            }
            return Some(i);
        }
        i = i + 1;
    }
    assert(all.take(count as int) =~= all);
    None
}

/// A position that is found among the first `count` of `covs` is found among
/// all of them.
proof fn lemma_position_from_prefix(covs: Seq<CoverageModel>, name: Seq<char>, count: int)
    requires
        0 <= count <= covs.len(),
        position_of(covs.take(count), name) is Some,
    ensures
        position_of(covs, name) == position_of(covs.take(count), name),
    decreases covs.len() - count,
{
    if count < covs.len() {
        assert(covs.take(count + 1).drop_last() =~= covs.take(count));
        lemma_position_from_prefix(covs, name, count + 1);
    } else {
        assert(covs.take(count) =~= covs);
    }
}

/// Tells whether the names of `covs` are all different.
pub open spec fn distinct_names(covs: Seq<CoverageModel>) -> bool {
    forall|i: int, j: int|
        0 <= i < j < covs.len() ==> (#[trigger] covs[i]).name.name != (#[trigger] covs[j]).name.name
}

/// Tells whether no two of `covs` have the same name.
pub fn names_are_distinct(covs: &Vec<FunctionCoverage>) -> (distinct: bool)
    ensures
        distinct == distinct_names(views(covs@)),
{
    let ghost all = views(covs@);
    let count = covs.len();
    let mut j: usize = 0;
    while j < count
        invariant
            j <= count == covs@.len(),
            all == views(covs@),
            forall|a: int, b: int|
                0 <= a < b < j ==> (#[trigger] all[a]).name.name != (#[trigger] all[b]).name.name,
        decreases count - j,
    {
        let mut i: usize = 0;
        while i < j
            invariant
                i <= j < count == covs@.len(),
                all == views(covs@),
                forall|a: int| 0 <= a < i ==> (#[trigger] all[a]).name.name != all[j as int].name.name,
            decreases j - i,
        {
            if covs[i].name.name == covs[j].name.name {
                assert(all[i as int].name.name == all[j as int].name.name);
                return false;
            }
            i = i + 1;
        }
        j = j + 1;
    }
    true
}

/// Tells whether `pool_index` is the only best input that `best` gives for the
/// counter `id`.
pub open spec fn only_best(best: Seq<(usize, usize)>, id: usize, pool_index: usize) -> bool {
    forall|k: int| 0 <= k < best.len() && (#[trigger] best[k]).0 == id ==> best[k].1 == pool_index
}

/// Tells whether the counter `id` counts as covered under `rule`. Under all
/// inputs it does if any input hits it. Under one input it does if that input
/// hits it and, where only the least complex inputs count, no other input is a
/// best input for it.
pub open spec fn counts(rule: StatusRule, least_complex: bool, id: usize) -> bool {
    match rule {
        StatusRule::Global { hits } => hits.contains(id),
        StatusRule::Input { counters, best, pool_index } => counters.contains(id) && (least_complex
            ==> only_best(best, id, pool_index)),
    }
}

/// Tells whether one of `ids` counts as covered.
pub open spec fn any_counts(ids: Seq<usize>, rule: StatusRule, least_complex: bool) -> bool {
    exists|k: int| 0 <= k < ids.len() && counts(rule, least_complex, #[trigger] ids[k])
}

/// Tells whether all of `ids` count as covered.
pub open spec fn all_count(ids: Seq<usize>, rule: StatusRule, least_complex: bool) -> bool {
    forall|k: int| 0 <= k < ids.len() ==> counts(rule, least_complex, #[trigger] ids[k])
}

/// What a listing leaves out and what counts as covered for it.
pub struct ListingRule {
    pub exclude_uncovered: bool,
    pub exclude_covered: bool,
    pub rule: StatusRule,
    pub least_complex: bool,
}

/// Tells whether a function with the counters `ids` stays in the listing: it is
/// left out if functions without coverage are left out and none of its counters
/// counts, or if functions with full coverage are left out and all of them
/// count.
pub open spec fn stays(ids: Seq<usize>, listing: ListingRule) -> bool {
    !((listing.exclude_uncovered && !any_counts(ids, listing.rule, listing.least_complex)) || (
    listing.exclude_covered && all_count(ids, listing.rule, listing.least_complex)))
}

/// Tells whether the function with the name `name` is one of `covs` and stays
/// in the listing.
pub open spec fn name_stays(name: NameModel, covs: Seq<CoverageModel>, listing: ListingRule) -> bool {
    match position_of(covs, name.name) {
        Some(at) => stays(covs[at].counter_ids, listing),
        None => false,
    }
}

/// Those of `names` that stay in the listing, in their order.
pub open spec fn names_that_stay(
    names: Seq<NameModel>,
    covs: Seq<CoverageModel>,
    listing: ListingRule,
) -> Seq<NameModel>
    decreases names.len(),
{
    if names.len() == 0 {
        Seq::empty()
    } else if name_stays(names.last(), covs, listing) {
        names_that_stay(names.drop_last(), covs, listing).push(names.last())
    } else {
        names_that_stay(names.drop_last(), covs, listing)
    }
}

/// The groups of the listing: each of `groups` with those of its names that
/// stay, but no group of which no name stays.
pub open spec fn groups_that_stay(
    groups: Seq<(Seq<char>, Seq<NameModel>)>,
    covs: Seq<CoverageModel>,
    listing: ListingRule,
) -> Seq<(Seq<char>, Seq<NameModel>)>
    decreases groups.len(),
{
    if groups.len() == 0 {
        Seq::empty()
    } else if names_that_stay(groups.last().1, covs, listing).len() == 0 {
        groups_that_stay(groups.drop_last(), covs, listing)
    } else {
        groups_that_stay(groups.drop_last(), covs, listing).push(
            (groups.last().0, names_that_stay(groups.last().1, covs, listing)),
        )
    }
}

/// Tells whether every name of `groups` is the name of one of `covs`.
pub open spec fn all_known(groups: Seq<(Seq<char>, Seq<NameModel>)>, covs: Seq<CoverageModel>) -> bool {
    forall|g: int, n: int|
        0 <= g < groups.len() && 0 <= n < groups[g].1.len() ==> position_of(
            covs,
            (#[trigger] groups[g].1[n]).name,
        ) is Some
}

/// Tells whether `which` is one of `filters`.
fn asks_for(filters: &Vec<FunctionFilter>, which: FunctionFilter) -> (asked: bool)
    ensures
        asked == filters@.contains(which),
{
    let count = filters.len();
    let mut i: usize = 0;
    while i < count
        invariant
            i <= count == filters@.len(),
            forall|k: int| 0 <= k < i ==> filters@[k] != which,
        decreases count - i,
    {
        if filters[i] == which {
            return true;
        }
        i = i + 1;
    }
    false
}

/// Tells whether `pool_index` is the only best input that `best` gives for
/// the counter `id`.
fn is_only_best(best: &Vec<(usize, usize)>, id: usize, pool_index: usize) -> (only: bool)
    ensures
        only == only_best(best@, id, pool_index),
{
    let count = best.len();
    let mut i: usize = 0;
    while i < count
        invariant
            i <= count == best@.len(),
            forall|k: int| 0 <= k < i && (#[trigger] best@[k]).0 == id ==> best@[k].1 == pool_index,
        decreases count - i,
    {
        if best[i].0 == id && best[i].1 != pool_index {
            return false;
        }
        i = i + 1;
    }
    true
}

/// Tells whether the counter `id` counts as covered.
fn counter_counts(resolver: &CoverageStatusResolver, least_complex: bool, id: usize) -> (yes: bool)
    ensures
        yes == counts(resolver@, least_complex, id),
{
    match resolver {
        CoverageStatusResolver::Global { hits } => holds(hits, id),
        CoverageStatusResolver::Input { counters, best, pool_index } => holds(counters, id) && (
        !least_complex || is_only_best(best, id, *pool_index)),
    }
}

/// Tells whether a function with the counters `ids` stays in the listing.
fn function_stays(
    ids: &Vec<usize>,
    resolver: &CoverageStatusResolver,
    least_complex: bool,
    exclude_uncovered: bool,
    exclude_covered: bool,
) -> (yes: bool)
    ensures
        yes == stays(
            ids@,
            ListingRule { exclude_uncovered, exclude_covered, rule: resolver@, least_complex },
        ),
{
    let mut any_counter_hit = false;
    let mut all_counters_hit = true;
    let count = ids.len();
    let mut i: usize = 0;
    while i < count
        invariant
            i <= count == ids@.len(),
            any_counter_hit == any_counts(ids@.take(i as int), resolver@, least_complex),
            all_counters_hit == all_count(ids@.take(i as int), resolver@, least_complex),
        decreases count - i,
    {
        let ghost done = ids@.take(i as int);
        let ghost next = ids@.take(i + 1);
        let hit = counter_counts(resolver, least_complex, ids[i]);
        proof {
            assert(next[i as int] == ids@[i as int]);
            assert forall|k: int| 0 <= k < done.len() implies done[k] == next[k] by {}
            if hit {
                assert(any_counts(next, resolver@, least_complex));
            } else {
                assert(!all_count(next, resolver@, least_complex));
            }
            if any_counts(done, resolver@, least_complex) {
                let k = choose|k: int|
                    0 <= k < done.len() && counts(resolver@, least_complex, #[trigger] done[k]);
                assert(next[k] == done[k]);
            }
            if any_counts(next, resolver@, least_complex) && !hit {
                let k = choose|k: int|
                    0 <= k < next.len() && counts(resolver@, least_complex, #[trigger] next[k]);
                assert(done[k] == next[k]);
            }
            if all_count(done, resolver@, least_complex) && hit {
                assert forall|k: int| 0 <= k < next.len() implies counts(
                    resolver@,
                    least_complex,
                    #[trigger] next[k],
                ) by {
                    if k < done.len() {
                        assert(done[k] == next[k]);
                    }
                }
            }
            if all_count(next, resolver@, least_complex) {
                assert forall|k: int| 0 <= k < done.len() implies counts(
                    resolver@,
                    least_complex,
                    #[trigger] done[k],
                ) by {
                    assert(done[k] == next[k]);
                }
            }
        }
        if hit {
            any_counter_hit = true;
        } else {
            all_counters_hit = false;
        }
        i = i + 1;
    }
    assert(ids@.take(count as int) =~= ids@);
    !((exclude_uncovered && !any_counter_hit) || (exclude_covered && all_counters_hit))
}

/// A copy of `groups`.
fn copy_groups(groups: &Vec<(String, Vec<FunctionName>)>) -> (copy: Vec<
    (String, Vec<FunctionName>),
>)
    ensures
        groups_view(copy@) == groups_view(groups@),
{
    let mut copy: Vec<(String, Vec<FunctionName>)> = Vec::new();
    let count = groups.len();
    let mut g: usize = 0;
    while g < count
        invariant
            g <= count == groups@.len(),
            groups_view(copy@) == groups_view(groups@).take(g as int),
        decreases count - g,
    {
        let ghost before = groups_view(copy@);
        let mut names: Vec<FunctionName> = Vec::new();
        let name_count = groups[g].1.len();
        let mut n: usize = 0;
        while n < name_count
            invariant
                g < count == groups@.len(),
                n <= name_count == groups@[g as int].1@.len(),
                views(names@) == views(groups@[g as int].1@).take(n as int),
            decreases name_count - n,
        {
            let ghost so_far = views(names@);
            names.push(groups[g].1[n].duplicate());
            assert(views(names@) =~= so_far.push(groups@[g as int].1@[n as int]@));
            assert(views(names@) =~= views(groups@[g as int].1@).take(n + 1));
            n = n + 1;
        }
        assert(views(groups@[g as int].1@).take(name_count as int) =~= views(groups@[g as int].1@));
        copy.push((groups[g].0.clone(), names));
        assert(groups_view(copy@) =~= before.push(groups_view(groups@)[g as int]));
        assert(groups_view(copy@) =~= groups_view(groups@).take(g + 1));
        g = g + 1;
    }
    assert(groups_view(groups@).take(count as int) =~= groups_view(groups@));
    copy
}

/// The listing that is asked for, as a mathematical value, or `None` where
/// the filter names an input of which `stats` know no counters.
pub open spec fn listing_for(
    stats: SerializedUniqCov,
    input_filter: InputFilter,
    function_filter: Seq<FunctionFilter>,
    coverage_kind_filter: CoverageKindFilter,
) -> Option<ListingRule> {
    match rule_for(stats, input_filter) {
        Some(rule) => Some(
            ListingRule {
                exclude_uncovered: function_filter.contains(FunctionFilter::Exclude0PercentCoverage),
                exclude_covered: function_filter.contains(
                    FunctionFilter::Exclude100PercentCoverage,
                ),
                rule,
                least_complex: coverage_kind_filter == CoverageKindFilter::LeastComplex,
            },
        ),
        None => None,
    }
}

/// Tells whether the listing leaves nothing out, whatever counts as covered.
pub open spec fn lists_all(function_filter: Seq<FunctionFilter>) -> bool {
    !function_filter.contains(FunctionFilter::Exclude0PercentCoverage) && !function_filter.contains(
        FunctionFilter::Exclude100PercentCoverage,
    )
}

/// The functions by file that stay in the listing that the filters ask for.
/// `functions_per_file` holds the names of all functions by file and
/// `coverages` the view of each function. Where nothing is left out, the list
/// is `functions_per_file`. Else there is no list where the input is not
/// known or a name has no view.
pub fn functions(
    functions_per_file: &Vec<(String, Vec<FunctionName>)>,
    coverages: &Vec<FunctionCoverage>,
    stats: &SerializedUniqCov,
    input_filter: InputFilter,
    function_filter: &Vec<FunctionFilter>,
    coverage_kind_filter: CoverageKindFilter,
) -> (listed: Result<Vec<(String, Vec<FunctionName>)>, NotFound>)
    requires
        !lists_all(function_filter@) && input_filter is Input ==> coverage_kind_filter
            != CoverageKindFilter::Unique,
    ensures
        lists_all(function_filter@) ==> listed is Ok && groups_view(listed.unwrap()@)
            == groups_view(functions_per_file@),
        !lists_all(function_filter@) ==> match listing_for(
            *stats,
            input_filter,
            function_filter@,
            coverage_kind_filter,
        ) {
            Some(listing) => if all_known(groups_view(functions_per_file@), views(coverages@)) {
                listed is Ok && groups_view(listed.unwrap()@) == groups_that_stay(
                    groups_view(functions_per_file@),
                    views(coverages@),
                    listing,
                )
            } else {
                listed is Err
            },
            None => listed is Err,
        },
{
    let exclude_covered = asks_for(function_filter, FunctionFilter::Exclude100PercentCoverage);
    let exclude_uncovered = asks_for(function_filter, FunctionFilter::Exclude0PercentCoverage);
    if !(exclude_uncovered || exclude_covered) {
        return Ok(copy_groups(functions_per_file));
    }
    let resolver = match CoverageStatusResolver::new(stats, input_filter) {
        Ok(resolver) => resolver,
        Err(_) => {
            return Err(NotFound);
        },
    };
    let least_complex = match coverage_kind_filter {
        CoverageKindFilter::LeastComplex => true,
        _ => false,
    };
    let ghost listing = ListingRule {
        exclude_uncovered,
        exclude_covered,
        rule: resolver@,
        least_complex,
    };
    let ghost all = groups_view(functions_per_file@);
    let ghost covs = views(coverages@);
    let mut listed: Vec<(String, Vec<FunctionName>)> = Vec::new();
    let count = functions_per_file.len();
    let mut g: usize = 0;
    assert(groups_view(listed@) =~= groups_that_stay(all.take(0), covs, listing));
    while g < count
        invariant
            g <= count == functions_per_file@.len(),
            all == groups_view(functions_per_file@),
            covs == views(coverages@),
            listing == (ListingRule {
                exclude_uncovered,
                exclude_covered,
                rule: resolver@,
                least_complex,
            }),
            !lists_all(function_filter@),
            listing_for(*stats, input_filter, function_filter@, coverage_kind_filter) == Some(
                listing,
            ),
            all_known(all.take(g as int), covs),
            groups_view(listed@) == groups_that_stay(all.take(g as int), covs, listing),
        decreases count - g,
    {
        let ghost names = all[g as int].1;
        assert(names == views(functions_per_file@[g as int].1@));
        let mut kept: Vec<FunctionName> = Vec::new();
        let name_count = functions_per_file[g].1.len();
        let mut n: usize = 0;
        assert(views(kept@) =~= names_that_stay(names.take(0), covs, listing));
        while n < name_count
            invariant
                g < count == functions_per_file@.len(),
                n <= name_count == functions_per_file@[g as int].1@.len(),
                all == groups_view(functions_per_file@),
                covs == views(coverages@),
                names == all[g as int].1,
                names == views(functions_per_file@[g as int].1@),
                listing == (ListingRule {
                    exclude_uncovered,
                    exclude_covered,
                    rule: resolver@,
                    least_complex,
                }),
                !lists_all(function_filter@),
                listing_for(*stats, input_filter, function_filter@, coverage_kind_filter) == Some(
                    listing,
                ),
                forall|k: int| 0 <= k < n ==> position_of(covs, (#[trigger] names[k]).name) is Some,
                views(kept@) == names_that_stay(names.take(n as int), covs, listing),
            decreases name_count - n,
        {
            let name = &functions_per_file[g].1[n];
            proof {
                assert(names[n as int] == name@);
                assert(names.take(n + 1).drop_last() =~= names.take(n as int));
                assert(names.take(n + 1).last() == name@);
            }
            match find_position(coverages, name.name.as_str()) {
                None => {
                    assert(!all_known(all, covs));
                    return Err(NotFound);
                },
                Some(at) => {
                    assert(covs[at as int] == coverages@[at as int]@);
                    if function_stays(
                        &coverages[at].counter_ids,
                        &resolver,
                        least_complex,
                        exclude_uncovered,
                        exclude_covered,
                    ) {
                        let ghost so_far = views(kept@);
                        kept.push(name.duplicate());
                        assert(views(kept@) =~= so_far.push(name@));
                    }
                },
            }
            n = n + 1;
        }
        proof {
            assert(names.take(name_count as int) =~= names);
            assert(all.take(g + 1).drop_last() =~= all.take(g as int));
            assert(all.take(g + 1).last() == all[g as int]);
            assert forall|a: int, b: int|
                0 <= a < all.take(g + 1).len() && 0 <= b < all.take(g + 1)[a].1.len() implies position_of(
                covs,
                (#[trigger] all.take(g + 1)[a].1[b]).name,
            ) is Some by {
                if a < g {
                    assert(all.take(g as int)[a].1[b] == all.take(g + 1)[a].1[b]);
                } else {
                    assert(all.take(g + 1)[a].1[b] == names[b]);
                }
            }
        }
        if kept.len() > 0 {
            let ghost before = groups_view(listed@);
            listed.push((functions_per_file[g].0.clone(), kept));
            assert(groups_view(listed@) =~= before.push((all[g as int].0, views(kept@))));
        } else {
            assert(views(kept@).len() == 0);
        }
        g = g + 1;
    }
    assert(all.take(count as int) =~= all);
    Ok(listed)
}

} // verus!
