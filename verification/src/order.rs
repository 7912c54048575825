//! A stable sort: items are put in ascending order of their rank, and items of
//! the same rank stay in the order in which they came.

use vstd::multiset::*;
use vstd::prelude::*;
use vstd::seq_lib::*;

verus! {

/// A type whose values are ranked by a total preorder on their views.
pub trait Ranked: View + Sized {
    /// Tells whether the value has a rank.
    spec fn ranked(&self) -> bool;

    /// Tells whether `a` may stand before `b`: its rank is not higher.
    spec fn not_behind(a: Self::V, b: Self::V) -> bool;

    /// Of two values one may always stand before the other.
    proof fn lemma_ranking_total(a: Self::V, b: Self::V)
        ensures
            Self::not_behind(a, b) || Self::not_behind(b, a),
    ;

    /// The ranking is transitive.
    proof fn lemma_ranking_transitive(a: Self::V, b: Self::V, c: Self::V)
        requires
            Self::not_behind(a, b),
            Self::not_behind(b, c),
        ensures
            Self::not_behind(a, c),
    ;

    /// Tells whether `self` may stand before `other`.
    fn ranks_not_behind(&self, other: &Self) -> (before: bool)
        requires
            self.ranked(),
            other.ranked(),
        ensures
            before == Self::not_behind(self@, other@),
    ;
}

/// The views of the items of `items`.
pub open spec fn views<T: View>(items: Seq<T>) -> Seq<T::V> {
    items.map_values(|item: T| item@)
}

/// Tells whether `a` and `b` have the same rank.
pub open spec fn ties<T: Ranked>(a: T::V, b: T::V) -> bool {
    T::not_behind(a, b) && T::not_behind(b, a)
}

/// Tells whether no item of `items` stands before an item of lower rank.
pub open spec fn ascending<T: Ranked>(items: Seq<T::V>) -> bool {
    forall|i: int, j: int| 0 <= i < j < items.len() ==> T::not_behind(items[i], items[j])
}

/// `items` with `item` put in behind the last item that may stand before it.
pub open spec fn insert_stably<T: Ranked>(items: Seq<T::V>, item: T::V) -> Seq<T::V>
    decreases items.len(),
{
    if items.len() == 0 || T::not_behind(items.last(), item) {
        items.push(item)
    } else {
        insert_stably::<T>(items.drop_last(), item).push(items.last())
    }
}

/// `items` in ascending order of rank, items of equal rank in their old order.
pub open spec fn stable_sort<T: Ranked>(items: Seq<T::V>) -> Seq<T::V>
    decreases items.len(),
{
    if items.len() == 0 {
        items
    } else {
        insert_stably::<T>(stable_sort::<T>(items.drop_last()), items.last())
    }
}

/// Putting an item in adds it once and keeps every other item.
pub proof fn lemma_insert_keeps_items<T: Ranked>(items: Seq<T::V>, item: T::V)
    ensures
        insert_stably::<T>(items, item).to_multiset() == items.to_multiset().insert(item),
        insert_stably::<T>(items, item).len() == items.len() + 1,
    decreases items.len(),
{
    broadcast use group_to_multiset_ensures;

    if items.len() == 0 || T::not_behind(items.last(), item) {
    } else {
        let front = items.drop_last();
        lemma_insert_keeps_items::<T>(front, item);
        assert(items == front.push(items.last()));
        assert(insert_stably::<T>(items, item).to_multiset() =~= items.to_multiset().insert(
            item,
        ));
    }
}

/// The sorted sequence holds the same items as the given one, each as often.
pub proof fn lemma_sort_keeps_items<T: Ranked>(items: Seq<T::V>)
    ensures
        stable_sort::<T>(items).to_multiset() == items.to_multiset(),
        stable_sort::<T>(items).len() == items.len(),
    decreases items.len(),
{
    broadcast use group_to_multiset_ensures;

    if items.len() > 0 {
        let front = items.drop_last();
        lemma_sort_keeps_items::<T>(front);
        lemma_insert_keeps_items::<T>(stable_sort::<T>(front), items.last());
        assert(items == front.push(items.last()));
    }
}

/// Putting an item into an ascending sequence leaves it ascending.
pub proof fn lemma_insert_keeps_ascending<T: Ranked>(items: Seq<T::V>, item: T::V)
    requires
        ascending::<T>(items),
    ensures
        ascending::<T>(insert_stably::<T>(items, item)),
    decreases items.len(),
{
    let out = insert_stably::<T>(items, item);
    if items.len() == 0 {
    } else if T::not_behind(items.last(), item) {
        assert forall|i: int, j: int| 0 <= i < j < out.len() implies T::not_behind(
            out[i],
            out[j],
        ) by {
            if j == items.len() && i < items.len() - 1 {
                T::lemma_ranking_transitive(items[i], items.last(), item);
            }
        }
    } else {
        let front = items.drop_last();
        let inner = insert_stably::<T>(front, item);
        lemma_insert_keeps_ascending::<T>(front, item);
        lemma_insert_keeps_items::<T>(front, item);
        T::lemma_ranking_total(items.last(), item);
        assert forall|i: int, j: int| 0 <= i < j < out.len() implies T::not_behind(
            out[i],
            out[j],
        ) by {
            broadcast use group_to_multiset_ensures;

            if j == inner.len() {
                assert(inner.contains(inner[i]));
                assert(inner.to_multiset().count(inner[i]) > 0);
                if inner[i] != item {
                    assert(front.to_multiset().count(inner[i]) > 0);
                    assert(front.contains(inner[i]));
                    let k = choose|k: int| 0 <= k < front.len() && front[k] == inner[i];
                    assert(items[k] == inner[i]);
                }
            }
        }
    }
}

/// The sorted sequence is in ascending order of rank.
pub proof fn lemma_sort_ascending<T: Ranked>(items: Seq<T::V>)
    ensures
        ascending::<T>(stable_sort::<T>(items)),
    decreases items.len(),
{
    if items.len() > 0 {
        lemma_sort_ascending::<T>(items.drop_last());
        lemma_insert_keeps_ascending::<T>(stable_sort::<T>(items.drop_last()), items.last());
    }
}

/// Among the items that tie with `rank`, a new item comes last.
pub proof fn lemma_insert_is_stable<T: Ranked>(items: Seq<T::V>, item: T::V, rank: T::V)
    ensures
        insert_stably::<T>(items, item).filter(|other: T::V| ties::<T>(other, rank))
            == items.filter(|other: T::V| ties::<T>(other, rank)) + (if ties::<T>(item, rank) {
            seq![item]
        } else {
            Seq::empty()
        }),
    decreases items.len(),
{
    let tie = |other: T::V| ties::<T>(other, rank);
    let out = insert_stably::<T>(items, item);
    let added = if ties::<T>(item, rank) {
        seq![item]
    } else {
        Seq::<T::V>::empty()
    };
    if items.len() == 0 || T::not_behind(items.last(), item) {
        Seq::filter_distributes_over_add(items, seq![item], tie);
        assert(out == items + seq![item]);
        reveal(Seq::filter);
        assert(seq![item].drop_last().filter(tie) =~= Seq::<T::V>::empty());
        assert(seq![item].filter(tie) =~= added);
    } else {
        let front = items.drop_last();
        let last = items.last();
        let inner = insert_stably::<T>(front, item);
        lemma_insert_is_stable::<T>(front, item, rank);
        assert(items == front + seq![last]);
        assert(out == inner + seq![last]);
        Seq::filter_distributes_over_add(front, seq![last], tie);
        Seq::filter_distributes_over_add(inner, seq![last], tie);
        reveal(Seq::filter);
        assert(seq![last].drop_last().filter(tie) =~= Seq::<T::V>::empty());
        if tie(last) && tie(item) {
            T::lemma_ranking_transitive(last, rank, item);
        }
        assert(out.filter(tie) =~= items.filter(tie) + added);
    }
}

/// Sorting keeps the order of the items that tie with `rank`: they are found
/// in the sorted sequence in the order in which they stood in the given one.
pub proof fn lemma_sort_is_stable<T: Ranked>(items: Seq<T::V>, rank: T::V)
    ensures
        stable_sort::<T>(items).filter(|other: T::V| ties::<T>(other, rank)) == items.filter(
            |other: T::V| ties::<T>(other, rank),
        ),
    decreases items.len(),
{
    let tie = |other: T::V| ties::<T>(other, rank);
    if items.len() > 0 {
        let front = items.drop_last();
        let last = items.last();
        lemma_sort_is_stable::<T>(front, rank);
        lemma_insert_is_stable::<T>(stable_sort::<T>(front), last, rank);
        assert(items == front + seq![last]);
        Seq::filter_distributes_over_add(front, seq![last], tie);
        reveal(Seq::filter);
        assert(seq![last].drop_last().filter(tie) =~= Seq::<T::V>::empty());
        assert(stable_sort::<T>(items).filter(tie) =~= items.filter(tie));
    } else {
        reveal(Seq::filter);
    }
}

/// An item that may stand behind `items[at - 1]` and before none of the items
/// from `at` on is put in at position `at`.
proof fn lemma_insert_position<T: Ranked>(items: Seq<T::V>, item: T::V, at: int)
    requires
        0 <= at <= items.len(),
        at > 0 ==> T::not_behind(items[at - 1], item),
        forall|k: int| at <= k < items.len() ==> !T::not_behind(items[k], item),
    ensures
        insert_stably::<T>(items, item) == items.insert(at, item),
    decreases items.len(),
{
    if at == items.len() {
        assert(items.push(item) =~= items.insert(at, item));
    } else {
        lemma_insert_position::<T>(items.drop_last(), item, at);
        assert(items.drop_last().insert(at, item).push(items.last()) =~= items.insert(
            at,
            item,
        ));
    }
}

/// Sorts `items` by rank, keeping items of equal rank in their order.
pub fn sort_stably<T: Ranked>(items: Vec<T>) -> (sorted: Vec<T>)
    requires
        forall|i: int| 0 <= i < items@.len() ==> (#[trigger] items@[i]).ranked(),
    ensures
        views(sorted@) == stable_sort::<T>(views(items@)),
{
    let mut sorted: Vec<T> = Vec::new();
    for item in it: items
        invariant
            it.seq() == items@,
            forall|i: int| 0 <= i < items@.len() ==> (#[trigger] items@[i]).ranked(),
            forall|i: int| 0 <= i < sorted@.len() ==> (#[trigger] sorted@[i]).ranked(),
            views(sorted@) == stable_sort::<T>(views(items@.take(it.index() as int))),
    {
        let ghost before = views(sorted@);
        let ghost done = items@.take(it.index() as int);
        let mut at: usize = sorted.len();
        while at > 0 && !sorted[at - 1].ranks_not_behind(&item)
            invariant
                at <= sorted@.len(),
                before == views(sorted@),
                item.ranked(),
                forall|i: int| 0 <= i < sorted@.len() ==> (#[trigger] sorted@[i]).ranked(),
                forall|k: int| at <= k < sorted@.len() ==> !T::not_behind(before[k], item@),
            decreases at,
        {
            at = at - 1;
        }
        sorted.insert(at, item);
        proof {
            lemma_insert_position::<T>(before, item@, at as int);
            assert(views(sorted@) =~= before.insert(at as int, item@));
            let next = items@.take(it.index() + 1);
            assert(next.drop_last() =~= done);
            assert(views(next).drop_last() =~= views(done));
            assert(views(next).last() == item@);
        }
    }
    assert(items@.take(items@.len() as int) =~= items@);
    sorted
}

impl Ranked for usize {
    open spec fn ranked(&self) -> bool {
        true
    }

    open spec fn not_behind(a: usize, b: usize) -> bool {
        a <= b
    }

    proof fn lemma_ranking_total(a: usize, b: usize) {
    }

    proof fn lemma_ranking_transitive(a: usize, b: usize, c: usize) {
    }

    fn ranks_not_behind(&self, other: &usize) -> (before: bool) {
        *self <= *other
    }
}

} // verus!
