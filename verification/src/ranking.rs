//! Ranking: order a list by a strict "comes before" relation.

use vstd::prelude::*;
use vstd::seq_lib::*;

verus! {

/// Values that can be ranked against each other.
pub trait Ranked: Sized {
    /// Whether `self` ranks strictly before `other`.
    spec fn ranks_before(self, other: Self) -> bool;

    /// Whether `self` ranks strictly before `other`.
    fn precedes(&self, other: &Self) -> (result: bool)
        ensures
            result == self.ranks_before(*other),
    ;
}

/// Whether "not after" is a total preorder on the given values, so that a ranking exists.
pub open spec fn orderable<T: Ranked>(items: Seq<T>) -> bool {
    &&& forall|i: int, j: int|
        #![trigger items[i], items[j]]
        0 <= i < items.len() && 0 <= j < items.len() && items[i].ranks_before(items[j])
            ==> !items[j].ranks_before(items[i])
    &&& forall|i: int, j: int, k: int|
        #![trigger items[i], items[j], items[k]]
        0 <= i < items.len() && 0 <= j < items.len() && 0 <= k < items.len()
            && !items[j].ranks_before(items[i]) && !items[k].ranks_before(items[j])
            ==> !items[k].ranks_before(items[i])
}

/// Whether no later element ranks before an earlier one.
pub open spec fn is_ranked<T: Ranked>(items: Seq<T>) -> bool {
    forall|i: int, j: int|
        #![trigger items[i], items[j]]
        0 <= i < j < items.len() ==> !items[j].ranks_before(items[i])
}

/// The first `limit` elements, or all of them for a limit of zero.
pub open spec fn cut<T>(items: Seq<T>, limit: int) -> Seq<T> {
    if limit != 0 && items.len() > limit {
        items.take(limit)
    } else {
        items
    }
}

/// Whether the two lists hold the same elements, each equally often.
pub open spec fn same_elements<T>(a: Seq<T>, b: Seq<T>) -> bool {
    a.to_multiset() == b.to_multiset()
}

/// Lists with the same elements have the same length and members.
pub proof fn lemma_same_elements<T>(a: Seq<T>, b: Seq<T>)
    requires
        same_elements(a, b),
    ensures
        a.len() == b.len(),
        forall|x: T| a.contains(x) <==> b.contains(x),
{
    broadcast use group_to_multiset_ensures;

    a.to_multiset_ensures();
    b.to_multiset_ensures();
    assert forall|x: T| a.contains(x) <==> b.contains(x) by {
        assert(a.contains(x) <==> a.to_multiset().count(x) > 0);
        assert(b.contains(x) <==> b.to_multiset().count(x) > 0);
    }
}

/// A filtered list holds exactly the members that meet the predicate.
pub proof fn lemma_filter_members<T>(items: Seq<T>, keep: spec_fn(T) -> bool)
    ensures
        forall|x: T| #[trigger] items.filter(keep).contains(x) <==> items.contains(x) && keep(x),
    decreases items.len(),
{
    reveal(Seq::filter);
    if items.len() > 0 {
        let rest = items.drop_last();
        let last = items.last();
        lemma_filter_members(rest, keep);
        assert forall|x: T| #[trigger] items.filter(keep).contains(x) <==> items.contains(x)
            && keep(x) by {
            let kept = items.filter(keep);
            let before = rest.filter(keep);
            assert(rest.filter(keep).contains(x) <==> rest.contains(x) && keep(x));
            if kept.contains(x) {
                let i = choose|i: int| 0 <= i < kept.len() && kept[i] == x;
                if i < before.len() {
                    assert(before[i] == x);
                    assert(before.contains(x));
                    let j = choose|j: int| 0 <= j < rest.len() && rest[j] == x;
                    assert(items[j] == x);
                } else {
                    assert(items[items.len() - 1] == x);
                }
            }
            if items.contains(x) && keep(x) {
                let i = choose|i: int| 0 <= i < items.len() && items[i] == x;
                if i < rest.len() {
                    assert(rest[i] == x);
                    assert(before.contains(x));
                    let j = choose|j: int| 0 <= j < before.len() && before[j] == x;
                    assert(kept[j] == x);
                } else {
                    assert(kept[kept.len() - 1] == x);
                }
            }
        }
    }
}

/// Whether values may be ranked depends on which they are, not on their order.
pub proof fn lemma_orderable_subset<T: Ranked>(all: Seq<T>, some: Seq<T>)
    requires
        orderable(all),
        forall|x: T| #[trigger] some.contains(x) ==> all.contains(x),
    ensures
        orderable(some),
{
    assert forall|i: int, j: int|
        #![trigger some[i], some[j]]
        0 <= i < some.len() && 0 <= j < some.len() && some[i].ranks_before(
            some[j],
        ) implies !some[j].ranks_before(some[i]) by {
        assert(some.contains(some[i]) && some.contains(some[j]));
        let a = choose|a: int| 0 <= a < all.len() && all[a] == some[i];
        let b = choose|b: int| 0 <= b < all.len() && all[b] == some[j];
        assert(all[a].ranks_before(all[b]));
    }
    assert forall|i: int, j: int, k: int|
        #![trigger some[i], some[j], some[k]]
        0 <= i < some.len() && 0 <= j < some.len() && 0 <= k < some.len()
            && !some[j].ranks_before(some[i]) && !some[k].ranks_before(
            some[j],
        ) implies !some[k].ranks_before(some[i]) by {
        assert(some.contains(some[i]) && some.contains(some[j]) && some.contains(some[k]));
        let a = choose|a: int| 0 <= a < all.len() && all[a] == some[i];
        let b = choose|b: int| 0 <= b < all.len() && all[b] == some[j];
        let c = choose|c: int| 0 <= c < all.len() && all[c] == some[k];
        assert(!all[b].ranks_before(all[a]) && !all[c].ranks_before(all[b]));
    }
}

/// Where distinct elements never tie, two rankings of the same elements are the same list.
pub proof fn lemma_ranking_unique<T: Ranked>(a: Seq<T>, b: Seq<T>)
    requires
        same_elements(a, b),
        is_ranked(a),
        is_ranked(b),
        orderable(a),
        never_tie(a),
    ensures
        a == b,
    decreases a.len(),
{
    broadcast use group_to_multiset_ensures;

    lemma_same_elements(a, b);
    if a.len() == 0 {
        assert(a =~= b);
    } else {
        let x = a.last();
        let y = b.last();
        assert(b.contains(y));
        assert(a.contains(x));
        let i = choose|i: int| 0 <= i < a.len() && a[i] == y;
        let j = choose|j: int| 0 <= j < b.len() && b[j] == x;
        if x != y {
            assert(!a[a.len() - 1].ranks_before(a[i]));
            assert(!b[b.len() - 1].ranks_before(b[j]));
            assert(a[i].ranks_before(a[a.len() - 1]) || a[a.len() - 1].ranks_before(a[i]));
            assert(false);
        }
        let s = a.drop_last();
        let t = b.drop_last();
        assert(a =~= s.push(x));
        assert(b =~= t.push(x));
        assert(s.to_multiset() =~= a.to_multiset().remove(x)) by {
            assert(s.push(x).to_multiset() =~= s.to_multiset().insert(x));
            assert(s.to_multiset().insert(x).remove(x) =~= s.to_multiset());
        }
        assert(t.to_multiset() =~= b.to_multiset().remove(x)) by {
            assert(t.push(x).to_multiset() =~= t.to_multiset().insert(x));
            assert(t.to_multiset().insert(x).remove(x) =~= t.to_multiset());
        }
        assert forall|z: T| #[trigger] s.contains(z) implies a.contains(z) by {
            let k = choose|k: int| 0 <= k < s.len() && s[k] == z;
            assert(a[k] == z);
        }
        lemma_orderable_subset(a, s);
        lemma_ranking_unique(s, t);
    }
}

/// Whether of two different elements one always ranks before the other.
pub open spec fn never_tie<T: Ranked>(items: Seq<T>) -> bool {
    forall|i: int, j: int|
        #![trigger items[i], items[j]]
        0 <= i < items.len() && 0 <= j < items.len() && items[i] != items[j]
            ==> items[i].ranks_before(items[j]) || items[j].ranks_before(items[i])
}

/// A ranked list with `x` put behind every element that `x` does not rank before.
pub open spec fn with_inserted<T: Ranked>(ranked: Seq<T>, x: T) -> Seq<T>
    decreases ranked.len(),
{
    if ranked.len() > 0 && x.ranks_before(ranked.last()) {
        with_inserted(ranked.drop_last(), x).push(ranked.last())
    } else {
        ranked.push(x)
    }
}

/// The ranking of a list.
pub open spec fn ranking_of<T: Ranked>(items: Seq<T>) -> Seq<T>
    decreases items.len(),
{
    if items.len() == 0 {
        Seq::empty()
    } else {
        with_inserted(ranking_of(items.drop_last()), items.last())
    }
}

proof fn lemma_with_inserted<T: Ranked>(ranked: Seq<T>, x: T)
    ensures
        same_elements(with_inserted(ranked, x), ranked.push(x)),
        orderable(ranked.push(x)) && is_ranked(ranked) ==> is_ranked(with_inserted(ranked, x)),
    decreases ranked.len(),
{
    broadcast use group_to_multiset_ensures;

    let all = ranked.push(x);
    if ranked.len() > 0 && x.ranks_before(ranked.last()) {
        let y = ranked.last();
        let rest = ranked.drop_last();
        let inner = with_inserted(rest, x);
        lemma_with_inserted(rest, x);
        assert(ranked =~= rest.push(y));
        assert(with_inserted(ranked, x).to_multiset() =~= inner.to_multiset().insert(y));
        assert(inner.to_multiset() =~= rest.to_multiset().insert(x));
        assert(all.to_multiset() =~= rest.to_multiset().insert(y).insert(x));
        assert(with_inserted(ranked, x).to_multiset() =~= all.to_multiset());
        if orderable(all) && is_ranked(ranked) {
            assert forall|z: T| #[trigger] rest.push(x).contains(z) implies all.contains(z) by {
                let i = choose|i: int| 0 <= i < rest.push(x).len() && rest.push(x)[i] == z;
                if i < rest.len() {
                    assert(all[i] == z);
                } else {
                    assert(all[ranked.len() as int] == z);
                }
            }
            lemma_orderable_subset(all, rest.push(x));
            lemma_same_elements(inner, rest.push(x));
            let result = with_inserted(ranked, x);
            assert forall|i: int, j: int|
                #![trigger result[i], result[j]]
                0 <= i < j < result.len() implies !result[j].ranks_before(result[i]) by {
                if j < inner.len() {
                    assert(!inner[j].ranks_before(inner[i]));
                } else {
                    assert(inner.contains(inner[i]));
                    assert(rest.push(x).contains(inner[i]));
                    let k = choose|k: int| 0 <= k < rest.push(x).len() && rest.push(x)[k]
                        == inner[i];
                    if k < rest.len() {
                        assert(!ranked[ranked.len() - 1].ranks_before(ranked[k]));
                    } else {
                        assert(all[ranked.len() as int] == x && all[ranked.len() - 1] == y);
                    }
                }
            }
        }
    } else {
        if orderable(all) && is_ranked(ranked) {
            let n = ranked.len() as int;
            assert forall|i: int, j: int|
                #![trigger all[i], all[j]]
                0 <= i < j < all.len() implies !all[j].ranks_before(all[i]) by {
                if j < n {
                    assert(!ranked[j].ranks_before(ranked[i]));
                } else {
                    assert(!all[n].ranks_before(all[n - 1]));
                    if i < n - 1 {
                        assert(!ranked[n - 1].ranks_before(ranked[i]));
                        assert(all[n - 1] == ranked[n - 1] && all[i] == ranked[i]);
                        assert(!all[n - 1].ranks_before(all[i]));
                    }
                }
            }
        }
    }
}

/// A list's ranking holds its elements, and is ranked where a ranking exists.
pub proof fn lemma_ranking_of<T: Ranked>(items: Seq<T>)
    ensures
        same_elements(ranking_of(items), items),
        orderable(items) ==> is_ranked(ranking_of(items)),
    decreases items.len(),
{
    broadcast use group_to_multiset_ensures;

    if items.len() == 0 {
        assert(items =~= Seq::<T>::empty());
    } else {
        let rest = items.drop_last();
        let x = items.last();
        lemma_ranking_of(rest);
        lemma_with_inserted(ranking_of(rest), x);
        assert(items =~= rest.push(x));
        assert(ranking_of(rest).push(x).to_multiset() =~= rest.to_multiset().insert(x));
        assert(same_elements(ranking_of(items), items));
        if orderable(items) {
            assert(same_elements(ranking_of(rest).push(x), items));
            lemma_same_elements(ranking_of(rest).push(x), items);
            lemma_orderable_subset(items, ranking_of(rest).push(x));
            assert forall|z: T| #[trigger] rest.contains(z) implies items.contains(z) by {
                let i = choose|i: int| 0 <= i < rest.len() && rest[i] == z;
                assert(items[i] == z);
            }
            lemma_orderable_subset(items, rest);
        }
    }
}

fn reversed<T>(items: Vec<T>) -> (result: Vec<T>)
    ensures
        result@ == items@.reverse(),
{
    let mut rest = items;
    let mut result: Vec<T> = Vec::new();
    while rest.len() > 0
        invariant
            rest@.len() <= items@.len(),
            rest@ == items@.take(rest@.len() as int),
            result@ == items@.reverse().take(items@.len() - rest@.len()),
        decreases rest@.len(),
    {
        let ghost left = rest@.len();
        match rest.pop() {
            Some(item) => {
                result.push(item);
            },
            None => {},
        }
        assert(result@ =~= items@.reverse().take(items@.len() - left + 1));
    }
    assert(result@ =~= items@.reverse());
    result
}

/// Merge two ranked lists into one ranked list of all their elements.
fn merge_ranked<T: Ranked>(first: Vec<T>, second: Vec<T>) -> (merged: Vec<T>)
    ensures
        same_elements(merged@, first@ + second@),
        orderable(first@ + second@) && is_ranked(first@) && is_ranked(second@) ==> is_ranked(
            merged@,
        ),
{
    let ghost all = first@ + second@;
    let ghost sound = orderable(all) && is_ranked(first@) && is_ranked(second@);
    let mut left = first;
    let mut right = second;
    let mut out: Vec<T> = Vec::new();
    proof {
        lemma_multiset_commutative(first@, second@);
        assert(out@.to_multiset() =~= vstd::multiset::Multiset::empty()) by {
            out@.to_multiset_ensures();
        }
        assert(all.to_multiset() =~= left@.to_multiset().add(right@.to_multiset()).add(
            out@.to_multiset(),
        ));
    }
    while left.len() > 0 || right.len() > 0
        invariant
            all == first@ + second@,
            sound == (orderable(all) && is_ranked(first@) && is_ranked(second@)),
            left@.len() <= first@.len(),
            right@.len() <= second@.len(),
            left@ == first@.take(left@.len() as int),
            right@ == second@.take(right@.len() as int),
            all.to_multiset() == left@.to_multiset().add(right@.to_multiset()).add(
                out@.to_multiset(),
            ),
            sound ==> forall|i: int, j: int|
                #![trigger out@[i], out@[j]]
                0 <= i < j < out@.len() ==> !out@[i].ranks_before(out@[j]),
            sound ==> forall|i: int, j: int|
                #![trigger out@[i], left@[j]]
                0 <= i < out@.len() && 0 <= j < left@.len() ==> !out@[i].ranks_before(left@[j]),
            sound ==> forall|i: int, j: int|
                #![trigger out@[i], right@[j]]
                0 <= i < out@.len() && 0 <= j < right@.len() ==> !out@[i].ranks_before(right@[j]),
        decreases left@.len() + right@.len(),
    {
        broadcast use group_to_multiset_ensures;

        let take_right = right.len() > 0 && (left.len() == 0 || !right[right.len() - 1].precedes(
            &left[left.len() - 1],
        ));
        let ghost old_left = left@;
        let ghost old_right = right@;
        let ghost old_out = out@;
        let ghost n = first@.len() as int;
        proof {
            assert forall|j: int| 0 <= j < old_left.len() implies #[trigger] old_left[j] == all[j] by {}
            assert forall|j: int| 0 <= j < old_right.len() implies #[trigger] old_right[j] == all[n
                + j] by {}
        }
        if take_right {
            match right.pop() {
                Some(item) => {
                    out.push(item);
                },
                None => {},
            }
            proof {
                let y = old_right.last();
                assert(old_right =~= right@.push(y));
                assert(old_right.to_multiset() =~= right@.to_multiset().insert(y));
                assert(out@.to_multiset() =~= old_out.to_multiset().insert(y));
                assert(right@ =~= second@.take(right@.len() as int));
                if sound {
                    assert forall|j: int| 0 <= j < left@.len() implies !y.ranks_before(
                        #[trigger] left@[j],
                    ) by {
                        let last = old_left.len() - 1;
                        assert(all[j] == left@[j] && all[last] == old_left[last]);
                        if j < last {
                            assert(first@[last] == old_left[last] && first@[j] == old_left[j]);
                            assert(!all[last].ranks_before(all[j]));
                        }
                        assert(!all[n + old_right.len() - 1].ranks_before(all[last]));
                        assert(all[n + old_right.len() - 1] == y);
                    }
                    assert forall|j: int| 0 <= j < right@.len() implies !y.ranks_before(
                        #[trigger] right@[j],
                    ) by {
                        assert(second@[j] == right@[j]);
                        assert(second@[old_right.len() - 1] == y);
                    }
                }
            }
        } else {
            match left.pop() {
                Some(item) => {
                    out.push(item);
                },
                None => {},
            }
            proof {
                let x = old_left.last();
                assert(old_left =~= left@.push(x));
                assert(old_left.to_multiset() =~= left@.to_multiset().insert(x));
                assert(out@.to_multiset() =~= old_out.to_multiset().insert(x));
                assert(left@ =~= first@.take(left@.len() as int));
                if sound {
                    assert forall|j: int| 0 <= j < left@.len() implies !x.ranks_before(
                        #[trigger] left@[j],
                    ) by {
                        assert(first@[j] == left@[j]);
                        assert(first@[old_left.len() - 1] == x);
                    }
                    assert forall|j: int| 0 <= j < right@.len() implies !x.ranks_before(
                        #[trigger] right@[j],
                    ) by {
                        let last = old_right.len() - 1;
                        let at = old_left.len() - 1;
                        assert(all[at] == x);
                        assert(all[n + last] == old_right[last] && all[n + j] == old_right[j]);
                        assert(all[n + last].ranks_before(all[at]));
                        assert(!all[at].ranks_before(all[n + last]));
                        if j < last {
                            assert(second@[last] == old_right[last] && second@[j] == old_right[j]);
                            assert(!all[n + last].ranks_before(all[n + j]));
                        }
                    }
                }
            }
        }
        assert(all.to_multiset() =~= left@.to_multiset().add(right@.to_multiset()).add(
            out@.to_multiset(),
        ));
    }
    let ghost collected = out@;
    proof {
        left@.to_multiset_ensures();
        right@.to_multiset_ensures();
        assert(left@.to_multiset() =~= vstd::multiset::Multiset::empty());
        assert(right@.to_multiset() =~= vstd::multiset::Multiset::empty());
        assert(all.to_multiset() =~= collected.to_multiset());
        collected.lemma_reverse_to_multiset();
    }
    let merged = reversed(out);
    merged
}

/// Rank `items`: the same elements, none of them after one that it ranks before. The relation
/// must be a total preorder on the given values for the order to be promised; the elements are
/// kept either way.
pub fn rank<T: Ranked>(items: Vec<T>) -> (ranked: Vec<T>)
    ensures
        same_elements(ranked@, items@),
        orderable(items@) ==> is_ranked(ranked@),
    decreases items@.len(),
{
    if items.len() <= 1 {
        return items;
    }
    let ghost all = items@;
    let mut first = items;
    let half: usize = first.len() / 2;
    let second = first.split_off(half);
    let ghost a = first@;
    let ghost b = second@;
    assert(a + b =~= all);
    let left = rank(first);
    let right = rank(second);
    proof {
        lemma_multiset_commutative(a, b);
        lemma_multiset_commutative(left@, right@);
        lemma_same_elements(a, left@);
        lemma_same_elements(b, right@);
        assert(same_elements(left@ + right@, all));
        lemma_same_elements(left@ + right@, all);
        if orderable(all) {
            assert forall|x: T| #[trigger] a.contains(x) implies all.contains(x) by {
                let k = choose|k: int| 0 <= k < a.len() && a[k] == x;
                assert(all[k] == x);
            }
            assert forall|x: T| #[trigger] b.contains(x) implies all.contains(x) by {
                let k = choose|k: int| 0 <= k < b.len() && b[k] == x;
                assert(all[a.len() + k] == x);
            }
            lemma_orderable_subset(all, a);
            lemma_orderable_subset(all, b);
            lemma_orderable_subset(all, left@ + right@);
        }
    }
    merge_ranked(left, right)
}

/// Lists of the same elements are rearrangements of each other: as long, with the same members,
/// and still so when the same element is added to both.
pub proof fn law_same_elements_are_rearranged<T>(a: Seq<T>, b: Seq<T>, x: T)
    requires
        same_elements(a, b),
    ensures
        a.len() == b.len(),
        a.contains(x) <==> b.contains(x),
        same_elements(a.push(x), b.push(x)),
        same_elements(a + seq![x], seq![x] + b),
{
    broadcast use vstd::seq_lib::group_to_multiset_ensures;

    lemma_same_elements(a, b);
    assert(a.push(x).to_multiset() =~= b.push(x).to_multiset());
    vstd::seq_lib::lemma_multiset_commutative(a, seq![x]);
    vstd::seq_lib::lemma_multiset_commutative(seq![x], b);
    assert((a + seq![x]).to_multiset() =~= (seq![x] + b).to_multiset());
}

/// A cut keeps the start of a list, as long as the limit, and all of it without one.
pub proof fn law_a_cut_keeps_the_start<T>(items: Seq<T>, limit: int, i: int)
    requires
        limit >= 0,
    ensures
        limit == 0 || items.len() <= limit ==> cut(items, limit) == items,
        0 < limit < items.len() ==> cut(items, limit).len() == limit,
        0 <= i < cut(items, limit).len() ==> cut(items, limit)[i] == items[i],
{
}

/// A ranking holds the given items, each once, and none stands before one that ranks before it.
pub proof fn law_a_ranking_is_in_order<T: Ranked>(items: Seq<T>, i: int, j: int)
    requires
        orderable(items),
        0 <= i < j < ranking_of(items).len(),
    ensures
        same_elements(ranking_of(items), items),
        !ranking_of(items)[j].ranks_before(ranking_of(items)[i]),
{
    lemma_ranking_of(items);
}

} // verus!
