//! Reciprocal Rank Fusion of two rankings.
//!
//! Keyword and vector scores live on different, incomparable scales, so the two rankings are
//! fused by rank and not by score: a document earns `1 / (k + rank)` from each ranking that
//! returned it, with ranks counted from one.

use vstd::hash_map::StringHashMap;
use vstd::prelude::*;

use crate::double::{
    from_natural, is_sum_operand, lemma_natural_bits, lemma_reciprocal_bits, lemma_sum_bits,
    natural_bits, plus, reciprocal, reciprocal_bits, sum_bits, Double, ONE_BITS,
};
use crate::fanout::{
    comparable, holds_aircraft, law_page_is_the_ranking_cut, one_per_aircraft, top,
};
use crate::ranking::{cut, ranking_of};
use crate::wire::SearchHit;

verus! {

/// The damping constant of the fusion: the bit pattern of sixty.
pub const RRF_K_BITS: u64 = 0x404e_0000_0000_0000;

/// What the place `i` (counted from zero) of a ranking earns: one over the damping constant plus
/// the rank, in double precision.
pub open spec fn contribution(i: nat) -> u64 {
    let position = sum_bits(natural_bits(i) as u64, ONE_BITS) as u64;
    reciprocal_bits(sum_bits(RRF_K_BITS, position) as u64) as u64
}

fn earned(i: usize) -> (d: Double)
    ensures
        d.bits == contribution(i as nat),
        is_sum_operand(d.bits),
        d.bits > 0,
{
    let position = plus(from_natural(i as u64), Double { bits: ONE_BITS });
    reciprocal(plus(Double { bits: RRF_K_BITS }, position))
}

/// `hit` with another score.
pub open spec fn scored(hit: SearchHit, bits: u64) -> SearchHit {
    SearchHit { score: Double { bits }, ..hit }
}

/// Fold the hit at place `i` of a ranking into the fused entries: a hit without an aircraft is
/// skipped, a new aircraft is entered, and a known one earns the contribution (and takes over
/// the hit itself where this ranking is preferred).
pub open spec fn fold_hit(entries: Seq<SearchHit>, hit: SearchHit, i: nat, prefer: bool) -> Seq<
    SearchHit,
> {
    let id = hit.aircraft();
    if id.len() == 0 {
        entries
    } else if exists|at: int| holds_aircraft(entries, id, at) {
        let at = choose|at: int| holds_aircraft(entries, id, at);
        let total = sum_bits(entries[at].score.bits, contribution(i)) as u64;
        entries.update(
            at,
            scored(
                if prefer {
                    hit
                } else {
                    entries[at]
                },
                total,
            ),
        )
    } else {
        entries.push(scored(hit, contribution(i)))
    }
}

/// Fold a whole ranking into the fused entries.
pub open spec fn fold_list(entries: Seq<SearchHit>, list: Seq<SearchHit>, prefer: bool) -> Seq<
    SearchHit,
>
    decreases list.len(),
{
    if list.len() == 0 {
        entries
    } else {
        fold_hit(
            fold_list(entries, list.drop_last(), prefer),
            list.last(),
            (list.len() - 1) as nat,
            prefer,
        )
    }
}

/// The fused entries of a keyword ranking and a vector ranking, keyword hits preferred.
pub open spec fn fused(keyword: Seq<SearchHit>, vector: Seq<SearchHit>) -> Seq<SearchHit> {
    fold_list(fold_list(Seq::empty(), keyword, true), vector, false)
}

/// What holds of fused entries at any time: one per aircraft, each with an aircraft and with a
/// positive score.
pub open spec fn fusing(entries: Seq<SearchHit>) -> bool {
    &&& one_per_aircraft(entries)
    &&& forall|i: int|
        0 <= i < entries.len() ==> (#[trigger] entries[i]).aircraft().len() > 0 && is_sum_operand(
            entries[i].score.bits,
        ) && entries[i].score.bits > 0
}

proof fn lemma_fold_at(entries: Seq<SearchHit>, hit: SearchHit, i: nat, prefer: bool, at: int)
    requires
        one_per_aircraft(entries),
        hit.aircraft().len() > 0,
        holds_aircraft(entries, hit.aircraft(), at),
    ensures
        fold_hit(entries, hit, i, prefer) == entries.update(
            at,
            scored(
                if prefer {
                    hit
                } else {
                    entries[at]
                },
                sum_bits(entries[at].score.bits, contribution(i)) as u64,
            ),
        ),
{
    let chosen = choose|at: int| holds_aircraft(entries, hit.aircraft(), at);
    assert(holds_aircraft(entries, hit.aircraft(), chosen));
    assert(entries[chosen].aircraft() == entries[at].aircraft());
}

struct Fusion {
    entries: Vec<SearchHit>,
    slots: StringHashMap<usize>,
}

impl Fusion {
    spec fn well_formed(self) -> bool {
        &&& fusing(self.entries@)
        &&& forall|id: Seq<char>| #[trigger]
            self.slots@.contains_key(id) ==> holds_aircraft(
                self.entries@,
                id,
                self.slots@[id] as int,
            )
        &&& forall|i: int|
            0 <= i < self.entries@.len() ==> self.slots@.contains_key(
                (#[trigger] self.entries@[i]).aircraft(),
            )
    }

    fn fold(&mut self, list: Vec<SearchHit>, prefer: bool)
        requires
            old(self).well_formed(),
        ensures
            final(self).well_formed(),
            final(self).entries@ == fold_list(old(self).entries@, list@, prefer),
    {
        let ghost start = self.entries@;
        let size: usize = list.len();
        let mut i: usize = 0;
        assert(list@.take(0) =~= Seq::<SearchHit>::empty());
        for hit in rest: list
            invariant
                self.well_formed(),
                rest.seq() == list@,
                i == rest.index(),
                list@.len() == size,
                self.entries@ == fold_list(start, list@.take(rest.index()), prefer),
        {
            let ghost before = self.entries@;
            proof {
                let seen = list@.take(rest.index() + 1);
                assert(seen.drop_last() =~= list@.take(rest.index()));
                assert(seen.last() == hit);
            }
            let key = hit.icao24();
            if !key.as_str().is_empty() {
                let gain = earned(i);
                let slot: Option<usize> = match self.slots.get(key.as_str()) {
                    Some(at) => Some(*at),
                    None => None,
                };
                match slot {
                    Some(at) => {
                        proof {
                            lemma_fold_at(before, hit, i as nat, prefer, at as int);
                        }
                        let score = plus(self.entries[at].score, gain);
                        let entry = if prefer {
                            SearchHit {
                                document: hit.document,
                                score,
                                provenance: hit.provenance,
                            }
                        } else {
                            let kept = self.entries[at].clone();
                            SearchHit {
                                document: kept.document,
                                score,
                                provenance: kept.provenance,
                            }
                        };
                        self.entries.set(at, entry);
                    },
                    None => {
                        proof {
                            assert forall|at: int| !holds_aircraft(before, hit.aircraft(), at) by {
                                if holds_aircraft(before, hit.aircraft(), at) {
                                    assert(self.slots@.contains_key(before[at].aircraft()));
                                }
                            }
                            assert forall|at: int| 0 <= at < before.len() implies (
                            #[trigger] before[at]).aircraft() != hit.aircraft() by {
                                assert(!holds_aircraft(before, hit.aircraft(), at));
                            }
                        }
                        let at: usize = self.entries.len();
                        self.slots.insert(key, at);
                        self.entries.push(
                            SearchHit {
                                document: hit.document,
                                score: gain,
                                provenance: hit.provenance,
                            },
                        );
                    },
                }
            }
            i = i + 1;
        }
        assert(list@.take(list@.len() as int) =~= list@);
    }
}

/// The page that two rankings fuse to: the fusion ranked by score, cut to `limit` (zero = no
/// limit).
pub open spec fn fused_page(
    keyword: Seq<SearchHit>,
    vector: Seq<SearchHit>,
    limit: int,
) -> Seq<SearchHit> {
    cut(ranking_of(fused(keyword, vector)), limit)
}

/// Fuse two ranked hit lists, returning the top `limit` (zero = all) by fused score, ties broken
/// by `icao24`. A document in both rankings accumulates both contributions and keeps the keyword
/// hit; the `score` field becomes the fused score.
pub fn rrf_fuse(keyword: Vec<SearchHit>, vector: Vec<SearchHit>, limit: usize) -> (page: Vec<
    SearchHit,
>)
    ensures
        page@ == fused_page(keyword@, vector@, limit as int),
{
    let mut fusion = Fusion { entries: Vec::new(), slots: StringHashMap::new() };
    fusion.fold(keyword, true);
    fusion.fold(vector, false);
    let ghost entries = fusion.entries@;
    let page = top(fusion.entries, limit);
    proof {
        assert(comparable(entries)) by {
            assert forall|i: int| 0 <= i < entries.len() implies !(
            #[trigger] entries[i]).score.spec_is_nan() by {
                assert(is_sum_operand(entries[i].score.bits));
            }
        }
        law_page_is_the_ranking_cut(page@, entries, limit as int);
    }
    page
}

/// Every place of a ranking earns a positive amount.
pub proof fn lemma_contribution(i: nat)
    requires
        i <= u64::MAX,
    ensures
        is_sum_operand(contribution(i)),
        contribution(i) > 0,
{
    lemma_natural_bits(i);
    let n = natural_bits(i) as u64;
    lemma_sum_bits(n, ONE_BITS);
    let position = sum_bits(n, ONE_BITS) as u64;
    lemma_sum_bits(RRF_K_BITS, position);
    lemma_reciprocal_bits(sum_bits(RRF_K_BITS, position) as u64);
}

/// Whether the entries hold a hit on `id` with a score of at least `bits`.
pub open spec fn credited(entries: Seq<SearchHit>, id: Seq<char>, bits: u64) -> bool {
    exists|at: int| #[trigger]
        holds_aircraft(entries, id, at) && entries[at].score.bits >= bits
}

proof fn lemma_fold_hit(entries: Seq<SearchHit>, hit: SearchHit, i: nat, prefer: bool)
    requires
        fusing(entries),
        i <= u64::MAX,
    ensures
        fusing(fold_hit(entries, hit, i, prefer)),
        hit.aircraft().len() > 0 ==> credited(
            fold_hit(entries, hit, i, prefer),
            hit.aircraft(),
            contribution(i),
        ),
        forall|id: Seq<char>, bits: u64| #[trigger]
            credited(entries, id, bits) ==> credited(fold_hit(entries, hit, i, prefer), id, bits),
        forall|id: Seq<char>, at: int| #[trigger]
            holds_aircraft(fold_hit(entries, hit, i, prefer), id, at) ==> id == hit.aircraft()
                || holds_aircraft(entries, id, at),
{
    let id = hit.aircraft();
    let next = fold_hit(entries, hit, i, prefer);
    lemma_contribution(i);
    if id.len() > 0 {
        if exists|at: int| holds_aircraft(entries, id, at) {
            let at = choose|at: int| holds_aircraft(entries, id, at);
            lemma_fold_at(entries, hit, i, prefer, at);
            lemma_sum_bits(entries[at].score.bits, contribution(i));
            assert(next[at].aircraft() == id);
            assert(holds_aircraft(next, id, at));
            assert forall|x: int, y: int|
                #![trigger next[x], next[y]]
                0 <= x < next.len() && 0 <= y < next.len() && next[x].aircraft()
                    == next[y].aircraft() implies x == y by {
                assert(entries[x].aircraft() == next[x].aircraft());
                assert(entries[y].aircraft() == next[y].aircraft());
            }
            assert forall|other: Seq<char>, bits: u64| #[trigger]
                credited(entries, other, bits) implies credited(next, other, bits) by {
                let slot = choose|slot: int| #[trigger]
                    holds_aircraft(entries, other, slot) && entries[slot].score.bits >= bits;
                assert(holds_aircraft(next, other, slot));
            }
        } else {
            assert forall|x: int| 0 <= x < entries.len() implies (#[trigger] entries[x]).aircraft()
                != id by {
                assert(!holds_aircraft(entries, id, x));
            }
            assert(holds_aircraft(next, id, entries.len() as int));
            assert forall|other: Seq<char>, bits: u64| #[trigger]
                credited(entries, other, bits) implies credited(next, other, bits) by {
                let slot = choose|slot: int| #[trigger]
                    holds_aircraft(entries, other, slot) && entries[slot].score.bits >= bits;
                assert(holds_aircraft(next, other, slot));
            }
        }
    }
}

proof fn lemma_fold_list(entries: Seq<SearchHit>, list: Seq<SearchHit>, prefer: bool)
    requires
        fusing(entries),
        list.len() <= u64::MAX,
    ensures
        fusing(fold_list(entries, list, prefer)),
        forall|i: int|
            0 <= i < list.len() && (#[trigger] list[i]).aircraft().len() > 0 ==> credited(
                fold_list(entries, list, prefer),
                list[i].aircraft(),
                contribution(i as nat),
            ),
        forall|id: Seq<char>, bits: u64| #[trigger]
            credited(entries, id, bits) ==> credited(fold_list(entries, list, prefer), id, bits),
        forall|id: Seq<char>, at: int| #[trigger]
            holds_aircraft(fold_list(entries, list, prefer), id, at) ==> holds_aircraft(
                entries,
                id,
                at,
            ) || exists|i: int| 0 <= i < list.len() && (#[trigger] list[i]).aircraft() == id,
    decreases list.len(),
{
    if list.len() > 0 {
        let before = list.drop_last();
        let middle = fold_list(entries, before, prefer);
        let after = fold_list(entries, list, prefer);
        let last = (list.len() - 1) as nat;
        lemma_fold_list(entries, before, prefer);
        lemma_fold_hit(middle, list.last(), last, prefer);
        assert forall|i: int|
            0 <= i < list.len() && (#[trigger] list[i]).aircraft().len() > 0 implies credited(
            after,
            list[i].aircraft(),
            contribution(i as nat),
        ) by {
            if i < before.len() {
                assert(before[i] == list[i]);
                assert(credited(middle, before[i].aircraft(), contribution(i as nat)));
            }
        }
        assert forall|id: Seq<char>, at: int| #[trigger]
            holds_aircraft(after, id, at) implies holds_aircraft(entries, id, at) || exists|i: int|
            0 <= i < list.len() && (#[trigger] list[i]).aircraft() == id by {
            if id == list.last().aircraft() {
                assert(list[last as int].aircraft() == id);
            } else {
                assert(holds_aircraft(middle, id, at));
                if !holds_aircraft(entries, id, at) {
                    let i = choose|i: int|
                        0 <= i < before.len() && (#[trigger] before[i]).aircraft() == id;
                    assert(list[i].aircraft() == id);
                }
            }
        }
    }
}

/// The fusion holds every aircraft of either ranking once, and nothing else; its fused score is
/// at least what each of its places earned, so agreement of the rankings never costs a document.
pub proof fn law_fusion_is_the_union(keyword: Seq<SearchHit>, vector: Seq<SearchHit>)
    requires
        keyword.len() <= u64::MAX,
        vector.len() <= u64::MAX,
    ensures
        one_per_aircraft(fused(keyword, vector)),
        forall|i: int|
            0 <= i < keyword.len() && (#[trigger] keyword[i]).aircraft().len() > 0 ==> credited(
                fused(keyword, vector),
                keyword[i].aircraft(),
                contribution(i as nat),
            ),
        forall|i: int|
            0 <= i < vector.len() && (#[trigger] vector[i]).aircraft().len() > 0 ==> credited(
                fused(keyword, vector),
                vector[i].aircraft(),
                contribution(i as nat),
            ),
        forall|id: Seq<char>, at: int| #[trigger]
            holds_aircraft(fused(keyword, vector), id, at) ==> id.len() > 0 && ((exists|i: int|
                0 <= i < keyword.len() && (#[trigger] keyword[i]).aircraft() == id) || (exists|
                i: int,
            |
                0 <= i < vector.len() && (#[trigger] vector[i]).aircraft() == id)),
{
    let none = Seq::<SearchHit>::empty();
    assert(fusing(none));
    let first = fold_list(none, keyword, true);
    lemma_fold_list(none, keyword, true);
    lemma_fold_list(first, vector, false);
    let all = fused(keyword, vector);
    assert forall|id: Seq<char>, at: int| #[trigger] holds_aircraft(all, id, at) implies id.len()
        > 0 && ((exists|i: int| 0 <= i < keyword.len() && (#[trigger] keyword[i]).aircraft() == id)
        || (exists|i: int| 0 <= i < vector.len() && (#[trigger] vector[i]).aircraft() == id)) by {
        assert(all[at].aircraft().len() > 0);
        if holds_aircraft(first, id, at) {
            assert(!holds_aircraft(none, id, at));
        }
    }
}

/// Without duplicates inside a ranking, a document in both rankings scores exactly the sum of
/// its two places, and a document in one ranking exactly what its place earned.
pub proof fn law_fused_score(
    keyword: Seq<SearchHit>,
    vector: Seq<SearchHit>,
    id: Seq<char>,
    at: int,
)
    requires
        keyword.len() <= u64::MAX,
        vector.len() <= u64::MAX,
        no_aircraft_twice(keyword),
        no_aircraft_twice(vector),
        holds_aircraft(fused(keyword, vector), id, at),
    ensures
        fused(keyword, vector)[at].score.bits == match (
            place_of(keyword, id),
            place_of(vector, id),
        ) {
            (Some(i), Some(j)) => sum_bits(contribution(i), contribution(j)) as u64,
            (Some(i), None) => contribution(i),
            (None, Some(j)) => contribution(j),
            (None, None) => 0,
        },
{
    let none = Seq::<SearchHit>::empty();
    assert(fusing(none));
    let first = fold_list(none, keyword, true);
    lemma_fold_list(none, keyword, true);
    law_fusion_is_the_union(keyword, vector);
    lemma_score_after(none, keyword, true, id);
    lemma_score_after(first, vector, false, id);
    assert(forall|x: int| !holds_aircraft(none, id, x));
    assert(fused(keyword, vector)[at].aircraft() == id);
    if place_of(vector, id) is None {
        assert(holds_aircraft(first, id, at) || place_of(vector, id) is Some) by {
            lemma_fold_list(first, vector, false);
            if !holds_aircraft(first, id, at) {
                let i = choose|i: int|
                    0 <= i < vector.len() && (#[trigger] vector[i]).aircraft() == id;
                assert(holds_aircraft(vector, id, i));
            }
        }
    }
}

/// Whether a ranking names no aircraft twice. Hits without an aircraft may recur.
pub open spec fn no_aircraft_twice(list: Seq<SearchHit>) -> bool {
    forall|i: int, j: int|
        #![trigger list[i], list[j]]
        0 <= i < list.len() && 0 <= j < list.len() && list[i].aircraft().len() > 0
            && list[i].aircraft() == list[j].aircraft() ==> i == j
}

/// Where an aircraft stands in a ranking.
pub open spec fn place_of(list: Seq<SearchHit>, id: Seq<char>) -> Option<nat> {
    if exists|at: int| holds_aircraft(list, id, at) {
        Some((choose|at: int| holds_aircraft(list, id, at)) as nat)
    } else {
        None
    }
}

/// The score that the entries hold for an aircraft; zero where they hold none.
spec fn score_of(entries: Seq<SearchHit>, id: Seq<char>) -> u64 {
    match place_of(entries, id) {
        Some(at) => entries[at as int].score.bits,
        None => 0,
    }
}

proof fn lemma_place_unique(list: Seq<SearchHit>, id: Seq<char>, at: int)
    requires
        no_aircraft_twice(list),
        id.len() > 0,
        holds_aircraft(list, id, at),
    ensures
        place_of(list, id) == Some(at as nat),
{
    let chosen = choose|at: int| holds_aircraft(list, id, at);
    assert(holds_aircraft(list, id, chosen));
    assert(list[chosen].aircraft() == list[at].aircraft());
}

proof fn lemma_score_after(
    entries: Seq<SearchHit>,
    list: Seq<SearchHit>,
    prefer: bool,
    id: Seq<char>,
)
    requires
        fusing(entries),
        list.len() <= u64::MAX,
        no_aircraft_twice(list),
        id.len() > 0,
    ensures
        score_of(fold_list(entries, list, prefer), id) == match place_of(list, id) {
            Some(i) => sum_bits(score_of(entries, id), contribution(i)) as u64,
            None => score_of(entries, id),
        },
    decreases list.len(),
{
    if list.len() == 0 {
        assert(forall|x: int| !holds_aircraft(list, id, x));
    } else {
        let before = list.drop_last();
        let middle = fold_list(entries, before, prefer);
        let after = fold_list(entries, list, prefer);
        let last = (list.len() - 1) as nat;
        let hit = list.last();
        assert(no_aircraft_twice(before)) by {
            assert forall|i: int, j: int|
                #![trigger before[i], before[j]]
                0 <= i < before.len() && 0 <= j < before.len() && before[i].aircraft().len() > 0
                    && before[i].aircraft() == before[j].aircraft() implies i == j by {
                assert(list[i].aircraft() == list[j].aircraft());
            }
        }
        lemma_score_after(entries, before, prefer, id);
        lemma_fold_list(entries, before, prefer);
        lemma_fold_hit(middle, hit, last, prefer);
        lemma_contribution(last);
        if hit.aircraft() == id {
            assert(holds_aircraft(list, id, last as int));
            lemma_place_unique(list, id, last as int);
            assert forall|x: int| !holds_aircraft(before, id, x) by {
                if holds_aircraft(before, id, x) {
                    assert(list[x].aircraft() == list[last as int].aircraft());
                }
            }
            if exists|at: int| holds_aircraft(middle, id, at) {
                let at = choose|at: int| holds_aircraft(middle, id, at);
                lemma_fold_at(middle, hit, last, prefer, at);
                lemma_place_unique(middle, id, at);
                assert(holds_aircraft(after, id, at));
                lemma_place_unique(after, id, at);
            } else {
                assert(holds_aircraft(after, id, middle.len() as int));
                lemma_place_unique(after, id, middle.len() as int);
            }
        } else {
            if exists|at: int| holds_aircraft(before, id, at) {
                let at = choose|at: int| holds_aircraft(before, id, at);
                lemma_place_unique(before, id, at);
                assert(holds_aircraft(list, id, at));
                lemma_place_unique(list, id, at);
            } else {
                assert forall|x: int| !holds_aircraft(list, id, x) by {
                    if holds_aircraft(list, id, x) {
                        assert(holds_aircraft(before, id, x));
                    }
                }
            }
            if exists|at: int| holds_aircraft(middle, id, at) {
                let at = choose|at: int| holds_aircraft(middle, id, at);
                lemma_place_unique(middle, id, at);
                if hit.aircraft().len() > 0 && exists|slot: int|
                    holds_aircraft(middle, hit.aircraft(), slot) {
                    let slot = choose|slot: int| holds_aircraft(middle, hit.aircraft(), slot);
                    lemma_fold_at(middle, hit, last, prefer, slot);
                }
                assert(after[at] == middle[at]);
                assert(holds_aircraft(after, id, at));
                lemma_place_unique(after, id, at);
            } else {
                assert forall|x: int| !holds_aircraft(after, id, x) by {
                    if holds_aircraft(after, id, x) {
                        assert(holds_aircraft(middle, id, x));
                    }
                }
            }
        }
    }
}

/// The place at the top earns one over sixty-one, the next one over sixty-two, and so on: each
/// place the double nearest to one over its number and sixty.
pub proof fn law_a_place_earns_its_reciprocal(i: nat)
    requires
        i < 0x1f_ffff_ffff_ff00,
    ensures
        contribution(i) == crate::double::nearest(1, i + 61, 0) as u64,
{
    vstd::arithmetic::power2::lemma2_to64();
    vstd::arithmetic::power2::lemma2_to64_rest();
    lemma_one_and_sixty();
    crate::double::law_sums_of_naturals_are_exact(i, 1);
    crate::double::law_sums_of_naturals_are_exact(60, i + 1);
    crate::double::law_reciprocals_of_naturals_are_nearest(i + 61);
}

proof fn lemma_one_and_sixty()
    ensures
        natural_bits(1) == ONE_BITS,
        natural_bits(60) == RRF_K_BITS,
{
    vstd::arithmetic::power2::lemma2_to64();
    vstd::arithmetic::power2::lemma2_to64_rest();
    crate::double::lemma_natural_at(1, 0);
    crate::double::lemma_natural_at(60, 5);
}

proof fn lemma_documents(
    entries: Seq<SearchHit>,
    list: Seq<SearchHit>,
    prefer: bool,
    at: int,
)
    requires
        fusing(entries),
        list.len() <= u64::MAX,
        0 <= at < fold_list(entries, list, prefer).len(),
    ensures
        fold_list(entries, list, prefer).len() >= entries.len(),
        ({
            let one = fold_list(entries, list, prefer)[at];
            let kept = at < entries.len() && one.document == entries[at].document && one.provenance
                == entries[at].provenance;
            let taken = exists|j: int|
                0 <= j < list.len() && one.document == (#[trigger] list[j]).document
                    && one.provenance == list[j].provenance;
            &&& kept || taken
            &&& at < entries.len() && !prefer ==> kept
            &&& at < entries.len() ==> one.aircraft() == entries[at].aircraft()
        }),
    decreases list.len(),
{
    let after = fold_list(entries, list, prefer);
    if list.len() > 0 {
        let before = list.drop_last();
        let middle = fold_list(entries, before, prefer);
        let hit = list.last();
        let last = list.len() - 1;
        let id = hit.aircraft();
        lemma_fold_list(entries, before, prefer);
        assert(list[last] == hit);
        if id.len() > 0 && exists|slot: int| holds_aircraft(middle, id, slot) {
            let slot = choose|slot: int| holds_aircraft(middle, id, slot);
            lemma_fold_at(middle, hit, last as nat, prefer, slot);
            lemma_documents(entries, before, prefer, at);
            if at == slot && prefer {
                assert(after[at].document == list[last].document);
                if at < entries.len() {
                    assert(after[at].aircraft() == middle[at].aircraft());
                }
            } else {
                assert(after[at].document == middle[at].document);
                assert(after[at].provenance == middle[at].provenance);
                lemma_earlier_hit(before, list, after[at]);
            }
        } else if at < middle.len() {
            lemma_documents(entries, before, prefer, at);
            assert(after[at] == middle[at]);
            lemma_earlier_hit(before, list, after[at]);
        } else {
            assert(after[at].document == list[last].document);
            if middle.len() > 0 {
                lemma_documents(entries, before, prefer, 0);
            } else if entries.len() > 0 {
                lemma_fold_grows(entries, before, prefer);
            }
        }
    }
}

proof fn lemma_fold_grows(entries: Seq<SearchHit>, list: Seq<SearchHit>, prefer: bool)
    requires
        fusing(entries),
        list.len() <= u64::MAX,
    ensures
        fold_list(entries, list, prefer).len() >= entries.len(),
    decreases list.len(),
{
    if list.len() > 0 {
        lemma_fold_grows(entries, list.drop_last(), prefer);
    }
}

proof fn lemma_earlier_hit(before: Seq<SearchHit>, list: Seq<SearchHit>, one: SearchHit)
    requires
        list.len() > 0,
        before == list.drop_last(),
    ensures
        (exists|j: int|
            0 <= j < before.len() && one.document == (#[trigger] before[j]).document
                && one.provenance == before[j].provenance) ==> exists|j: int|
            0 <= j < list.len() && one.document == (#[trigger] list[j]).document && one.provenance
                == list[j].provenance,
{
    if exists|j: int|
        0 <= j < before.len() && one.document == (#[trigger] before[j]).document && one.provenance
            == before[j].provenance {
        let j = choose|j: int|
            0 <= j < before.len() && one.document == (#[trigger] before[j]).document
                && one.provenance == before[j].provenance;
        assert(list[j] == before[j]);
    }
}

/// A fused hit shows what a ranking gave of its aircraft: the document and the provenance of a
/// keyword hit where the keyword ranking names it, and of a vector hit otherwise.
pub proof fn law_fused_hits_show_given_documents(
    keyword: Seq<SearchHit>,
    vector: Seq<SearchHit>,
    at: int,
)
    requires
        keyword.len() <= u64::MAX,
        vector.len() <= u64::MAX,
        0 <= at < fused(keyword, vector).len(),
    ensures
        ({
            let one = fused(keyword, vector)[at];
            let named = |list: Seq<SearchHit>|
                exists|j: int|
                    0 <= j < list.len() && (#[trigger] list[j]).document is Some && one.document
                        is Some && list[j].document->0.icao24@ == one.document->0.icao24@;
            let shown = |list: Seq<SearchHit>|
                exists|j: int|
                    0 <= j < list.len() && one.document == (#[trigger] list[j]).document
                        && one.provenance == list[j].provenance;
            &&& named(keyword) ==> shown(keyword)
            &&& !named(keyword) ==> shown(vector)
        }),
{
    let none = Seq::<SearchHit>::empty();
    assert(fusing(none));
    let first = fold_list(none, keyword, true);
    let all = fused(keyword, vector);
    let one = all[at];
    lemma_fold_list(none, keyword, true);
    lemma_fold_list(first, vector, false);
    lemma_documents(first, vector, false, at);
    if at < first.len() {
        lemma_documents(none, keyword, true, at);
        let j = choose|j: int|
            0 <= j < keyword.len() && first[at].document == (#[trigger] keyword[j]).document
                && first[at].provenance == keyword[j].provenance;
        assert(one.document == keyword[j].document);
        assert(first[at].aircraft().len() > 0);
        assert(keyword[j].document is Some);
    } else {
        assert(one.aircraft().len() > 0);
        assert forall|j: int|
            0 <= j < keyword.len() && (#[trigger] keyword[j]).document is Some && one.document
                is Some implies keyword[j].document->0.icao24@ != one.document->0.icao24@ by {
            if keyword[j].document->0.icao24@ == one.document->0.icao24@ {
                assert(keyword[j].aircraft() == one.aircraft());
                assert(credited(first, keyword[j].aircraft(), contribution(j as nat)));
                let slot = choose|slot: int| #[trigger]
                    holds_aircraft(first, keyword[j].aircraft(), slot)
                        && first[slot].score.bits >= contribution(j as nat);
                lemma_documents(first, vector, false, slot);
                assert(all[slot].aircraft() == all[at].aircraft());
            }
        }
    }
}

/// A fused page lists the better scores first and alike ones by aircraft, and a limit cuts off
/// its end.
pub proof fn law_the_fused_page_lists_the_best_first(
    keyword: Seq<SearchHit>,
    vector: Seq<SearchHit>,
    limit: int,
    i: int,
    j: int,
)
    requires
        keyword.len() <= u64::MAX,
        vector.len() <= u64::MAX,
        limit >= 0,
    ensures
        ({
            let page = fused_page(keyword, vector, limit);
            let all = fused(keyword, vector);
            &&& page.len() == if limit == 0 || all.len() < limit {
                all.len() as int
            } else {
                limit
            }
            &&& 0 <= i < j < page.len() ==> page[i].score.bits >= page[j].score.bits
            &&& 0 <= i < page.len() ==> all.contains(page[i])
            &&& forall|x: SearchHit|
                #![trigger all.contains(x)]
                0 <= i < page.len() && all.contains(x) && !page.contains(x)
                    ==> page[i].score.bits >= x.score.bits
        }),
{
    let all = fused(keyword, vector);
    let page = fused_page(keyword, vector, limit);
    lemma_fused_scores(keyword, vector, limit);
    crate::fanout::law_the_best_hits_come_first(page, all, limit, i, j);
    if 0 <= i < j < page.len() {
        crate::fanout::law_the_best_hits_come_first(page, all, limit, j, j);
        lemma_scores_compare(page[i], page[j]);
    }
    assert forall|x: SearchHit|
        #![trigger all.contains(x)]
        0 <= i < page.len() && all.contains(x) && !page.contains(x) implies page[i].score.bits
        >= x.score.bits by {
        lemma_scores_compare(page[i], x);
    }
}

proof fn lemma_scores_compare(a: SearchHit, b: SearchHit)
    requires
        a.score.bits <= 0x7ff0_0000_0000_0000,
        b.score.bits <= 0x7ff0_0000_0000_0000,
        !a.score.spec_less(b.score),
    ensures
        a.score.bits >= b.score.bits,
{
}

proof fn lemma_fused_scores(keyword: Seq<SearchHit>, vector: Seq<SearchHit>, limit: int)
    requires
        keyword.len() <= u64::MAX,
        vector.len() <= u64::MAX,
    ensures
        comparable(fused(keyword, vector)),
        forall|x: SearchHit| #[trigger]
            fused(keyword, vector).contains(x) ==> x.score.bits <= 0x7ff0_0000_0000_0000,
        crate::fanout::is_page(
            fused_page(keyword, vector, limit),
            fused(keyword, vector),
            limit,
        ),
{
    let none = Seq::<SearchHit>::empty();
    assert(fusing(none));
    let first = fold_list(none, keyword, true);
    let all = fused(keyword, vector);
    lemma_fold_list(none, keyword, true);
    lemma_fold_list(first, vector, false);
    assert(fusing(all));
    assert forall|i: int| 0 <= i < all.len() implies !(
    #[trigger] all[i]).score.spec_is_nan() by {
        assert(is_sum_operand(all[i].score.bits));
    }
    assert forall|x: SearchHit| #[trigger] all.contains(x) implies x.score.bits
        <= 0x7ff0_0000_0000_0000 by {
        let k = choose|k: int| 0 <= k < all.len() && all[k] == x;
        assert(is_sum_operand(all[k].score.bits));
    }
    crate::ranking::lemma_ranking_of(all);
    crate::fanout::lemma_comparable_orderable(all);
    assert(crate::fanout::arranges(ranking_of(all), all));
}

} // verus!
