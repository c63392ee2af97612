//! Scatter-gather merging: fold per-shard answers into one globally ranked answer.

use vstd::hash_map::StringHashMap;
use vstd::prelude::*;

use crate::ranking::{
    cut, is_ranked, never_tie, orderable, rank, ranking_of, same_elements, Ranked,
};
use crate::settings::{configured, number_or};
use crate::text::{comes_before, owned, text_before};
use crate::wire::{clone_hits, OmittedShard, QueryManifest, SearchHit, SearchResponse, SearchUpdate};

verus! {

/// Global ranking of hits: score descending, ties (and scores that cannot be compared) broken
/// by `icao24`.
impl Ranked for SearchHit {
    open spec fn ranks_before(self, other: Self) -> bool {
        other.score.spec_less(self.score) || (!self.score.spec_less(other.score) && text_before(
            self.aircraft(),
            other.aircraft(),
        ))
    }

    fn precedes(&self, other: &Self) -> (result: bool) {
        if other.score.less(self.score) {
            return true;
        }
        if self.score.less(other.score) {
            return false;
        }
        comes_before(self.icao24().as_str(), other.icao24().as_str())
    }
}

/// Whether every score can be compared.
pub open spec fn comparable(hits: Seq<SearchHit>) -> bool {
    forall|i: int| 0 <= i < hits.len() ==> !(#[trigger] hits[i]).score.spec_is_nan()
}

/// Hits whose scores can be compared can be ranked.
pub proof fn lemma_comparable_orderable(hits: Seq<SearchHit>)
    requires
        comparable(hits),
    ensures
        orderable(hits),
{
    assert forall|i: int, j: int|
        #![trigger hits[i], hits[j]]
        0 <= i < hits.len() && 0 <= j < hits.len() && hits[i].ranks_before(
            hits[j],
        ) implies !hits[j].ranks_before(hits[i]) by {
        let a = hits[i].aircraft();
        let b = hits[j].aircraft();
        if text_before(a, b) && text_before(b, a) {
            crate::text::lemma_text_before_transitive(a, b, a);
            crate::text::lemma_text_before_irreflexive(a);
        }
    }
    assert forall|i: int, j: int, k: int|
        #![trigger hits[i], hits[j], hits[k]]
        0 <= i < hits.len() && 0 <= j < hits.len() && 0 <= k < hits.len()
            && !hits[j].ranks_before(hits[i]) && !hits[k].ranks_before(
            hits[j],
        ) implies !hits[k].ranks_before(hits[i]) by {
        let a = hits[i].aircraft();
        let b = hits[j].aircraft();
        let c = hits[k].aircraft();
        crate::text::lemma_text_before_total(a, b);
        crate::text::lemma_text_before_total(b, c);
        crate::text::lemma_text_before_irreflexive(a);
        if text_before(a, b) && text_before(b, c) {
            crate::text::lemma_text_before_transitive(a, b, c);
        }
        if text_before(a, c) && text_before(c, a) {
            crate::text::lemma_text_before_transitive(a, c, a);
        }
    }
}

/// Whether `a` replaces `b` for the same aircraft: the later observation, or at equal times the
/// higher score.
pub open spec fn supersedes(a: SearchHit, b: SearchHit) -> bool {
    a.observed() > b.observed() || (a.observed() == b.observed() && b.score.spec_less(a.score))
}

fn superseding(a: &SearchHit, b: &SearchHit) -> (result: bool)
    ensures
        result == supersedes(*a, *b),
{
    let ta: i64 = a.observed_at();
    let tb: i64 = b.observed_at();
    ta > tb || (ta == tb && b.score.less(a.score))
}

/// Where the hit on an aircraft stands in a list, if there is one.
pub open spec fn holds_aircraft(hits: Seq<SearchHit>, id: Seq<char>, at: int) -> bool {
    0 <= at < hits.len() && hits[at].aircraft() == id
}

/// Fold one hit into the list of the best hits so far: it takes the place of the hit on the same
/// aircraft if it supersedes it, and joins the list if there is none.
pub open spec fn absorb(kept: Seq<SearchHit>, hit: SearchHit) -> Seq<SearchHit> {
    if exists|at: int| holds_aircraft(kept, hit.aircraft(), at) {
        let at = choose|at: int| holds_aircraft(kept, hit.aircraft(), at);
        if supersedes(hit, kept[at]) {
            kept.update(at, hit)
        } else {
            kept
        }
    } else {
        kept.push(hit)
    }
}

/// The best hit on each aircraft, in the order in which the aircraft first appear.
pub open spec fn freshest(hits: Seq<SearchHit>) -> Seq<SearchHit>
    decreases hits.len(),
{
    if hits.len() == 0 {
        Seq::empty()
    } else {
        absorb(freshest(hits.drop_last()), hits.last())
    }
}

/// Whether no aircraft appears twice.
pub open spec fn one_per_aircraft(hits: Seq<SearchHit>) -> bool {
    forall|i: int, j: int|
        #![trigger hits[i], hits[j]]
        0 <= i < hits.len() && 0 <= j < hits.len() && hits[i].aircraft() == hits[j].aircraft()
            ==> i == j
}

/// Deduplication leaves one hit per aircraft.
pub proof fn law_one_hit_per_aircraft(hits: Seq<SearchHit>)
    ensures
        one_per_aircraft(freshest(hits)),
    decreases hits.len(),
{
    if hits.len() > 0 {
        law_one_hit_per_aircraft(hits.drop_last());
        let kept = freshest(hits.drop_last());
        let hit = hits.last();
        if !exists|at: int| holds_aircraft(kept, hit.aircraft(), at) {
            assert forall|i: int| 0 <= i < kept.len() implies (#[trigger] kept[i]).aircraft()
                != hit.aircraft() by {
                assert(!holds_aircraft(kept, hit.aircraft(), i));
            }
        }
    }
}

proof fn lemma_absorb_at(kept: Seq<SearchHit>, hit: SearchHit, at: int)
    requires
        one_per_aircraft(kept),
        holds_aircraft(kept, hit.aircraft(), at),
    ensures
        absorb(kept, hit) == if supersedes(hit, kept[at]) {
            kept.update(at, hit)
        } else {
            kept
        },
{
    let chosen = choose|at: int| holds_aircraft(kept, hit.aircraft(), at);
    assert(holds_aircraft(kept, hit.aircraft(), chosen));
    assert(kept[chosen].aircraft() == kept[at].aircraft());
}

/// Collapse duplicate aircraft, keeping the freshest observation of each.
pub fn dedup_by_aircraft(hits: Vec<SearchHit>) -> (kept: Vec<SearchHit>)
    ensures
        kept@ == freshest(hits@),
{
    let mut kept: Vec<SearchHit> = Vec::new();
    let mut slots: StringHashMap<usize> = StringHashMap::new();
    assert(hits@.take(0) =~= Seq::<SearchHit>::empty());
    for hit in rest: hits
        invariant
            rest.seq() == hits@,
            kept@ == freshest(hits@.take(rest.index())),
            forall|id: Seq<char>| #[trigger]
                slots@.contains_key(id) ==> holds_aircraft(kept@, id, slots@[id] as int),
            forall|i: int|
                0 <= i < kept@.len() ==> slots@.contains_key((#[trigger] kept@[i]).aircraft()),
    {
        let ghost before = kept@;
        proof {
            let seen = hits@.take(rest.index() + 1);
            assert(seen.drop_last() =~= hits@.take(rest.index()));
            assert(seen.last() == hit);
            law_one_hit_per_aircraft(hits@.take(rest.index()));
        }
        let key = hit.icao24();
        let slot: Option<usize> = match slots.get(key.as_str()) {
            Some(at) => Some(*at),
            None => None,
        };
        match slot {
            Some(at) => {
                proof {
                    lemma_absorb_at(before, hit, at as int);
                }
                if superseding(&hit, &kept[at]) {
                    kept.set(at, hit);
                }
            },
            None => {
                proof {
                    assert forall|at: int| !holds_aircraft(before, hit.aircraft(), at) by {
                        if holds_aircraft(before, hit.aircraft(), at) {
                            assert(slots@.contains_key(before[at].aircraft()));
                        }
                    }
                }
                let at: usize = kept.len();
                slots.insert(key, at);
                kept.push(hit);
            },
        }
    }
    assert(hits@.take(hits@.len() as int) =~= hits@);
    kept
}

/// Whether `page` is the top `limit` of `hits`: a cut of some arrangement of exactly these hits,
/// which is ranked whenever every score can be compared.
pub open spec fn is_page(page: Seq<SearchHit>, hits: Seq<SearchHit>, limit: int) -> bool {
    exists|full: Seq<SearchHit>| #[trigger] arranges(full, hits) && page == cut(full, limit)
}

/// Whether `full` is an arrangement of `hits`, ranked whenever every score can be compared.
pub open spec fn arranges(full: Seq<SearchHit>, hits: Seq<SearchHit>) -> bool {
    same_elements(full, hits) && (comparable(hits) ==> is_ranked(full))
}

pub(crate) fn top(hits: Vec<SearchHit>, limit: usize) -> (page: Vec<SearchHit>)
    ensures
        is_page(page@, hits@, limit as int),
{
    proof {
        if comparable(hits@) {
            lemma_comparable_orderable(hits@);
        }
    }
    let mut page = rank(hits);
    let ghost full = page@;
    assert(arranges(full, hits@));
    if limit != 0 && page.len() > limit {
        page.truncate(limit);
        assert(page@ =~= cut(full, limit as int));
    }
    page
}

/// The hits of all responses, one response after the other.
pub open spec fn all_hits(responses: Seq<SearchResponse>) -> Seq<SearchHit>
    decreases responses.len(),
{
    if responses.len() == 0 {
        Seq::empty()
    } else {
        all_hits(responses.drop_last()) + responses.last().hits@
    }
}

/// The matches that the responses report, summed.
pub open spec fn total_of(responses: Seq<SearchResponse>) -> nat
    decreases responses.len(),
{
    if responses.len() == 0 {
        0
    } else {
        total_of(responses.drop_last()) + responses.last().total_matched as nat
    }
}

proof fn lemma_total_grows(responses: Seq<SearchResponse>, k: int)
    requires
        0 <= k <= responses.len(),
    ensures
        total_of(responses.take(k)) <= total_of(responses),
    decreases responses.len() - k,
{
    if k < responses.len() {
        lemma_total_grows(responses, k + 1);
        assert(responses.take(k + 1).drop_last() =~= responses.take(k));
    } else {
        assert(responses.take(k) =~= responses);
    }
}

fn gather(responses: Vec<SearchResponse>) -> (result: (Vec<SearchHit>, u64))
    requires
        total_of(responses@) <= u64::MAX,
    ensures
        result.0@ == all_hits(responses@),
        result.1 == total_of(responses@),
{
    let mut hits: Vec<SearchHit> = Vec::new();
    let mut total_matched: u64 = 0;
    assert(responses@.take(0) =~= Seq::<SearchResponse>::empty());
    for resp in rest: responses
        invariant
            rest.seq() == responses@,
            total_of(responses@) <= u64::MAX,
            hits@ == all_hits(responses@.take(rest.index())),
            total_matched == total_of(responses@.take(rest.index())),
    {
        proof {
            let seen = responses@.take(rest.index() + 1);
            assert(seen.drop_last() =~= responses@.take(rest.index()));
            assert(seen.last() == resp);
            lemma_total_grows(responses@, rest.index() + 1);
        }
        total_matched = total_matched + resp.total_matched;
        let mut more = resp.hits;
        hits.append(&mut more);
    }
    assert(responses@.take(responses@.len() as int) =~= responses@);
    (hits, total_matched)
}

/// Merge per-shard responses into one response, ranked by score.
///
/// Duplicate aircraft collapse to their freshest observation; the rest is ranked and cut to
/// `limit` (zero = no limit). `total_matched` sums the per-shard totals, before any limit.
/// Coverage tells how many shards were asked and how many answered.
pub fn merge_search_responses(
    responses: Vec<SearchResponse>,
    limit: usize,
    shards_queried: u32,
) -> (merged: SearchResponse)
    requires
        total_of(responses@) <= u64::MAX,
    ensures
        is_page(merged.hits@, freshest(all_hits(responses@)), limit as int),
        merged.total_matched == total_of(responses@),
        merged.shard_id@ == "coordinator"@,
        merged.shards_queried == shards_queried,
        merged.shards_answered == responses@.len() as u32,
        merged.manifest is None,
{
    let shards_answered: u32 = responses.len() as u32;
    let (hits, total_matched) = gather(responses);
    let hits = top(dedup_by_aircraft(hits), limit);
    SearchResponse {
        hits,
        total_matched,
        shard_id: owned("coordinator"),
        shards_queried,
        shards_answered,
        manifest: None,
    }
}

/// What came back from a fan-out: the answers, and the shards that gave none.
pub struct Fanout {
    pub responses: Vec<SearchResponse>,
    pub omitted: Vec<OmittedShard>,
}

/// A shard that did not answer, named with the reason.
pub fn omitted_shard(address: String, reason: &str) -> (omitted: OmittedShard)
    ensures
        omitted.address == address,
        omitted.reason@ == reason@,
{
    OmittedShard { address, reason: owned(reason) }
}

/// What became of one call under a deadline.
#[derive(Debug, PartialEq)]
pub enum Attempt<T> {
    /// The peer answered in time.
    Answered(T),
    /// The peer could not be reached, or failed.
    Failed,
    /// The deadline passed.
    TimedOut,
}

/// The per-shard deadline in milliseconds, as configured; two seconds unless a number is given.
pub fn shard_timeout(setting: Option<&str>) -> (ms: u64)
    ensures
        ms == configured(setting, u64::MAX, 2000),
{
    number_or(setting, u64::MAX, 2000)
}

/// Why a peer is omitted; `None` for one that answered.
pub open spec fn omission_reason<T>(attempt: Attempt<T>) -> Option<Seq<char>> {
    match attempt {
        Attempt::Answered(_) => None,
        Attempt::Failed => Some("unreachable"@),
        Attempt::TimedOut => Some("timeout"@),
    }
}

/// The outcome of one call: the answer, or the peer named as omitted with the reason. A peer that
/// is slow is bounded like one that is dead.
pub fn query_leader<T>(address: String, attempt: Attempt<T>) -> (outcome: Result<T, OmittedShard>)
    ensures
        match outcome {
            Ok(answer) => attempt == Attempt::Answered(answer),
            Err(omitted) => omitted.address == address && omission_reason(attempt) == Some(
                omitted.reason@,
            ),
        },
{
    match attempt {
        Attempt::Answered(answer) => Ok(answer),
        Attempt::Failed => Err(omitted_shard(address, "unreachable")),
        Attempt::TimedOut => Err(omitted_shard(address, "timeout")),
    }
}

/// The answers among the attempts, in order.
pub open spec fn answers_of<T>(attempts: Seq<(String, Attempt<T>)>) -> Seq<T>
    decreases attempts.len(),
{
    if attempts.len() == 0 {
        Seq::empty()
    } else {
        let before = answers_of(attempts.drop_last());
        match attempts.last().1 {
            Attempt::Answered(answer) => before.push(answer),
            _ => before,
        }
    }
}

/// The peers that gave no answer with the reason, in order.
pub open spec fn omissions_of<T>(attempts: Seq<(String, Attempt<T>)>) -> Seq<(Seq<char>, Seq<char>)>
    decreases attempts.len(),
{
    if attempts.len() == 0 {
        Seq::empty()
    } else {
        let before = omissions_of(attempts.drop_last());
        match omission_reason(attempts.last().1) {
            Some(reason) => before.push((attempts.last().0@, reason)),
            None => before,
        }
    }
}

/// What a list of omitted peers says.
pub open spec fn named(omitted: Seq<OmittedShard>) -> Seq<(Seq<char>, Seq<char>)> {
    Seq::new(omitted.len(), |i: int| (omitted[i].address@, omitted[i].reason@))
}

/// Sort the attempts of a fan-out into answers and omissions.
pub(crate) fn settle<T>(attempts: Vec<(String, Attempt<T>)>) -> (settled: (
    Vec<T>,
    Vec<OmittedShard>,
))
    ensures
        settled.0@ == answers_of(attempts@),
        named(settled.1@) == omissions_of(attempts@),
{
    let mut answers: Vec<T> = Vec::new();
    let mut omitted: Vec<OmittedShard> = Vec::new();
    let ghost all = attempts@;
    assert(named(omitted@) =~= Seq::<(Seq<char>, Seq<char>)>::empty());
    for attempt in rest: attempts
        invariant
            rest.seq() == all,
            answers@ == answers_of(all.take(rest.index())),
            named(omitted@) == omissions_of(all.take(rest.index())),
    {
        proof {
            let seen = all.take(rest.index() + 1);
            assert(seen.drop_last() =~= all.take(rest.index()));
            assert(seen.last() == attempt);
        }
        let (address, call) = attempt;
        match query_leader(address, call) {
            Ok(answer) => {
                answers.push(answer);
            },
            Err(missing) => {
                let ghost before = omitted@;
                omitted.push(missing);
                assert(named(omitted@) =~= named(before).push((missing.address@, missing.reason@)));
            },
        }
    }
    assert(all.take(all.len() as int) =~= all);
    (answers, omitted)
}

/// Collect a fan-out: the answers that came, and every peer that gave none, named with the reason.
/// A missing peer makes the result partial, not a failure.
pub fn scatter_gather(attempts: Vec<(String, Attempt<SearchResponse>)>) -> (fanout: Fanout)
    ensures
        fanout.responses@ == answers_of(attempts@),
        named(fanout.omitted@) == omissions_of(attempts@),
{
    let (responses, omitted) = settle(attempts);
    Fanout { responses, omitted }
}

/// Collect the fan-out of a vector query, with the same availability: the answers that came, and
/// every peer that gave none.
pub fn scatter_gather_vector(attempts: Vec<(String, Attempt<SearchResponse>)>) -> (fanout: Fanout)
    ensures
        fanout.responses@ == answers_of(attempts@),
        named(fanout.omitted@) == omissions_of(attempts@),
{
    scatter_gather(attempts)
}

/// Every peer that was asked is accounted for: it answered, or it is named as omitted.
pub proof fn law_every_peer_is_accounted_for<T>(attempts: Seq<(String, Attempt<T>)>)
    ensures
        answers_of(attempts).len() + omissions_of(attempts).len() == attempts.len(),
    decreases attempts.len(),
{
    if attempts.len() > 0 {
        law_every_peer_is_accounted_for(attempts.drop_last());
    }
}

/// A slow peer is treated as a dead one, but for the reason that is reported: which answers are
/// merged does not depend on how the others failed.
pub proof fn law_slow_is_bounded_like_dead<T>(
    attempts: Seq<(String, Attempt<T>)>,
    others: Seq<(String, Attempt<T>)>,
)
    requires
        attempts.len() == others.len(),
        forall|i: int|
            0 <= i < attempts.len() ==> #[trigger] attempts[i].0 == others[i].0 && (attempts[i].1
                == others[i].1 || (omission_reason(attempts[i].1) is Some && omission_reason(
                others[i].1,
            ) is Some)),
    ensures
        answers_of(attempts) == answers_of(others),
        omissions_of(attempts).len() == omissions_of(others).len(),
    decreases attempts.len(),
{
    if attempts.len() > 0 {
        let a = attempts.drop_last();
        let b = others.drop_last();
        assert forall|i: int| 0 <= i < a.len() implies #[trigger] a[i].0 == b[i].0 && (a[i].1
            == b[i].1 || (omission_reason(a[i].1) is Some && omission_reason(b[i].1) is Some)) by {
            assert(a[i] == attempts[i]);
        }
        law_slow_is_bounded_like_dead(a, b);
        assert(attempts[attempts.len() - 1].0 == others[attempts.len() - 1].0);
    }
}

/// Whether `at` is the latest observation time among the hits with a document, or zero where
/// there is none.
pub open spec fn is_freshest_time(hits: Seq<SearchHit>, at: int) -> bool {
    if forall|i: int| 0 <= i < hits.len() ==> (#[trigger] hits[i]).document is None {
        at == 0
    } else {
        &&& exists|i: int|
            0 <= i < hits.len() && (#[trigger] hits[i]).document is Some && hits[i].observed() == at
        &&& forall|i: int|
            0 <= i < hits.len() && (#[trigger] hits[i]).document is Some ==> hits[i].observed()
                <= at
    }
}

/// Whether `at` is the earliest observation time among the hits with a document, or zero where
/// there is none.
pub open spec fn is_stalest_time(hits: Seq<SearchHit>, at: int) -> bool {
    if forall|i: int| 0 <= i < hits.len() ==> (#[trigger] hits[i]).document is None {
        at == 0
    } else {
        &&& exists|i: int|
            0 <= i < hits.len() && (#[trigger] hits[i]).document is Some && hits[i].observed() == at
        &&& forall|i: int|
            0 <= i < hits.len() && (#[trigger] hits[i]).document is Some ==> at
                <= hits[i].observed()
    }
}

fn freshness_envelope(hits: &Vec<SearchHit>) -> (envelope: (i64, i64))
    ensures
        is_freshest_time(hits@, envelope.0 as int),
        is_stalest_time(hits@, envelope.1 as int),
{
    let mut newest: i64 = 0;
    let mut oldest: i64 = 0;
    let mut found = false;
    let mut i: usize = 0;
    let ghost mut at_newest: int = 0;
    let ghost mut at_oldest: int = 0;
    while i < hits.len()
        invariant
            i <= hits@.len(),
            !found ==> newest == 0 && oldest == 0,
            !found ==> forall|j: int| 0 <= j < i ==> (#[trigger] hits@[j]).document is None,
            found ==> 0 <= at_newest < i && hits@[at_newest].document is Some
                && hits@[at_newest].observed() == newest,
            found ==> 0 <= at_oldest < i && hits@[at_oldest].document is Some
                && hits@[at_oldest].observed() == oldest,
            found ==> forall|j: int|
                0 <= j < i && (#[trigger] hits@[j]).document is Some ==> oldest
                    <= hits@[j].observed() <= newest,
        decreases hits@.len() - i,
    {
        match &hits[i].document {
            Some(doc) => {
                let t: i64 = doc.observed_at;
                if !found || t > newest {
                    newest = t;
                    proof {
                        at_newest = i as int;
                    }
                }
                if !found || t < oldest {
                    oldest = t;
                    proof {
                        at_oldest = i as int;
                    }
                }
                found = true;
            },
            None => {},
        }
        i = i + 1;
    }
    (newest, oldest)
}

/// The manifest of a merged answer.
pub fn build_manifest(
    hits: &Vec<SearchHit>,
    shards_queried: u32,
    shards_answered: u32,
    omitted: Vec<OmittedShard>,
    deduped: u32,
    placement_version: u64,
    elapsed_ms: u64,
) -> (manifest: QueryManifest)
    ensures
        manifest.shards_queried == shards_queried,
        manifest.shards_answered == shards_answered,
        manifest.omitted == omitted,
        manifest.deduped == deduped,
        manifest.placement_version == placement_version,
        manifest.elapsed_ms == elapsed_ms,
        is_freshest_time(hits@, manifest.freshest_observed_at as int),
        is_stalest_time(hits@, manifest.stalest_observed_at as int),
{
    let (freshest_observed_at, stalest_observed_at) = freshness_envelope(hits);
    QueryManifest {
        shards_queried,
        shards_answered,
        omitted,
        deduped,
        freshest_observed_at,
        stalest_observed_at,
        elapsed_ms,
        placement_version,
    }
}

/// Whether a manifest accounts for a merge of `responses` to `page`: who was asked and answered,
/// how many duplicates were dropped, under which placement, in what time, and how fresh the page
/// is.
pub open spec fn accounts_for(
    m: QueryManifest,
    page: Seq<SearchHit>,
    responses: Seq<SearchResponse>,
    shards_queried: u32,
    placement_version: u64,
    elapsed_ms: u64,
) -> bool {
    &&& m.shards_queried == shards_queried
    &&& m.shards_answered == responses.len() as u32
    &&& m.deduped == (all_hits(responses).len() - freshest(all_hits(responses)).len()) as u32
    &&& m.placement_version == placement_version
    &&& m.elapsed_ms == elapsed_ms
    &&& is_freshest_time(page, m.freshest_observed_at as int)
    &&& is_stalest_time(page, m.stalest_observed_at as int)
}

/// Merge a fan-out as [`merge_search_responses`] does, and attach the manifest: which shards were
/// omitted and why, how many duplicates were dropped, and the freshness of what is returned.
pub fn merge_fanout(
    fanout: Fanout,
    limit: usize,
    shards_queried: u32,
    placement_version: u64,
    elapsed_ms: u64,
) -> (merged: SearchResponse)
    requires
        total_of(fanout.responses@) <= u64::MAX,
    ensures
        is_page(merged.hits@, freshest(all_hits(fanout.responses@)), limit as int),
        merged.total_matched == total_of(fanout.responses@),
        merged.shard_id@ == "coordinator"@,
        merged.shards_queried == shards_queried,
        merged.shards_answered == fanout.responses@.len() as u32,
        merged.manifest matches Some(m) && m.omitted == fanout.omitted && accounts_for(
            m,
            merged.hits@,
            fanout.responses@,
            shards_queried,
            placement_version,
            elapsed_ms,
        ),
{
    let shards_answered: u32 = fanout.responses.len() as u32;
    let (hits, total_matched) = gather(fanout.responses);
    let gathered: usize = hits.len();
    proof {
        lemma_freshest_shrinks(hits@);
    }
    let kept = dedup_by_aircraft(hits);
    let deduped: u32 = (gathered - kept.len()) as u32;
    let hits = top(kept, limit);
    let manifest = build_manifest(
        &hits,
        shards_queried,
        shards_answered,
        fanout.omitted,
        deduped,
        placement_version,
        elapsed_ms,
    );
    SearchResponse {
        hits,
        total_matched,
        shard_id: owned("coordinator"),
        shards_queried,
        shards_answered,
        manifest: Some(manifest),
    }
}

proof fn lemma_freshest_shrinks(hits: Seq<SearchHit>)
    ensures
        freshest(hits).len() <= hits.len(),
    decreases hits.len(),
{
    if hits.len() > 0 {
        lemma_freshest_shrinks(hits.drop_last());
    }
}

/// Deduplication may stop for a rest and go on from what it has kept.
proof fn lemma_freshest_resumes(seen: Seq<SearchHit>, more: Seq<SearchHit>)
    ensures
        freshest(freshest(seen) + more) == freshest(seen + more),
    decreases more.len(),
{
    let kept = freshest(seen);
    if more.len() == 0 {
        assert(kept + more =~= kept);
        assert(seen + more =~= seen);
        law_one_hit_per_aircraft(seen);
        law_disjoint_hits_are_kept(kept);
    } else {
        lemma_freshest_resumes(seen, more.drop_last());
        assert((kept + more).drop_last() =~= kept + more.drop_last());
        assert((seen + more).drop_last() =~= seen + more.drop_last());
    }
}

/// Incrementally merges shard responses as they stream in. Every aircraft's best hit so far is
/// kept, and an update shows the top of them: a hit that is outranked now may come back once a
/// fresher observation lowers the one above it.
pub struct ProgressiveMerge {
    limit: usize,
    hits: Vec<SearchHit>,
    added: Ghost<Seq<SearchHit>>,
    total_matched: u64,
    shards_answered: u32,
    shards_queried: u32,
}

impl ProgressiveMerge {
    #[verifier::type_invariant]
    spec fn keeps_the_freshest(self) -> bool {
        self.hits@ == freshest(self.added@)
    }

    /// The largest number of hits shown; zero shows all.
    pub closed spec fn limit(self) -> nat {
        self.limit as nat
    }

    /// All hits that were added, in order.
    pub closed spec fn added(self) -> Seq<SearchHit> {
        self.added@
    }

    /// The matches reported so far.
    pub closed spec fn total_matched(self) -> nat {
        self.total_matched as nat
    }

    /// How many shards have answered.
    pub closed spec fn shards_answered(self) -> nat {
        self.shards_answered as nat
    }

    /// How many shards were asked.
    pub closed spec fn shards_queried(self) -> u32 {
        self.shards_queried
    }

    /// What the client is shown: the top of all hits so far, and the coverage.
    pub open spec fn shows(self, update: SearchUpdate, complete: bool) -> bool {
        &&& is_page(update.hits@, freshest(self.added()), self.limit() as int)
        &&& update.total_matched == self.total_matched()
        &&& update.shards_answered == self.shards_answered()
        &&& update.shards_queried == self.shards_queried()
        &&& update.complete == complete
    }

    /// What a merge is after one more response.
    pub open spec fn has_added(self, before: ProgressiveMerge, resp: SearchResponse) -> bool {
        &&& self.added() == before.added() + resp.hits@
        &&& self.total_matched() == before.total_matched() + resp.total_matched
        &&& self.shards_answered() == before.shards_answered() + 1
        &&& self.shards_queried() == before.shards_queried()
        &&& self.limit() == before.limit()
    }

    /// A merge that no shard has answered yet.
    pub fn new(shards_queried: u32, limit: usize) -> (merge: Self)
        ensures
            merge.limit() == limit,
            merge.added() == Seq::<SearchHit>::empty(),
            merge.total_matched() == 0,
            merge.shards_answered() == 0,
            merge.shards_queried() == shards_queried,
    {
        let hits: Vec<SearchHit> = Vec::new();
        assert(hits@ =~= freshest(Seq::<SearchHit>::empty()));
        ProgressiveMerge {
            limit,
            hits,
            added: Ghost(Seq::empty()),
            total_matched: 0,
            shards_answered: 0,
            shards_queried,
        }
    }

    /// Fold one shard's response into the running result.
    pub fn add(&mut self, resp: SearchResponse)
        requires
            old(self).total_matched() + resp.total_matched <= u64::MAX,
            old(self).shards_answered() < u32::MAX,
        ensures
            final(self).has_added(*old(self), resp),
    {
        let mut was = Self::new(0, 0);
        std::mem::swap(self, &mut was);
        proof {
            use_type_invariant(&was);
            lemma_freshest_resumes(was.added@, resp.hits@);
        }
        let limit: usize = was.limit;
        let total_matched: u64 = was.total_matched + resp.total_matched;
        let shards_answered: u32 = was.shards_answered + 1;
        let shards_queried: u32 = was.shards_queried;
        let ghost before = was.added@;
        let mut hits = was.hits;
        let mut more = resp.hits;
        hits.append(&mut more);
        let hits = dedup_by_aircraft(hits);
        *self = ProgressiveMerge {
            limit,
            hits,
            added: Ghost(before + resp.hits@),
            total_matched,
            shards_answered,
            shards_queried,
        };
    }

    /// Take in what became of one shard's call: an answer is folded in and gives the client an
    /// update; a shard without an answer changes nothing.
    pub fn on_attempt(&mut self, attempt: Attempt<SearchResponse>) -> (update: Option<SearchUpdate>)
        requires
            attempt matches Attempt::Answered(resp) ==> old(self).total_matched()
                + resp.total_matched <= u64::MAX && old(self).shards_answered() < u32::MAX,
        ensures
            match (attempt, update) {
                (Attempt::Answered(resp), Some(u)) => final(self).has_added(*old(self), resp)
                    && final(self).shows(u, false),
                (Attempt::Answered(_), None) => false,
                (_, answered) => answered is None && *final(self) == *old(self),
            },
    {
        match attempt {
            Attempt::Answered(resp) => {
                self.add(resp);
                Some(self.snapshot(false))
            },
            _ => None,
        }
    }

    /// The running totals, so that a caller can tell whether another response fits.
    pub fn totals(&self) -> (totals: (u64, u32))
        ensures
            totals.0 == self.total_matched(),
            totals.1 == self.shards_answered(),
    {
        (self.total_matched, self.shards_answered)
    }

    /// The current progressive result. `complete` marks the final update.
    pub fn snapshot(&self, complete: bool) -> (update: SearchUpdate)
        ensures
            self.shows(update, complete),
    {
        proof {
            use_type_invariant(self);
        }
        SearchUpdate {
            hits: top(clone_hits(&self.hits), self.limit),
            total_matched: self.total_matched,
            shards_answered: self.shards_answered,
            shards_queried: self.shards_queried,
            complete,
        }
    }
}

/// Every hit that deduplication keeps is one of the given hits.
pub proof fn law_survivors_are_given_hits(hits: Seq<SearchHit>)
    ensures
        forall|x: SearchHit| #[trigger] freshest(hits).contains(x) ==> hits.contains(x),
    decreases hits.len(),
{
    if hits.len() > 0 {
        let before = hits.drop_last();
        law_survivors_are_given_hits(before);
        assert forall|x: SearchHit| #[trigger] freshest(hits).contains(x) implies hits.contains(
            x,
        ) by {
            if x == hits.last() {
                assert(hits[hits.len() - 1] == x);
            } else {
                let i = choose|i: int| 0 <= i < freshest(hits).len() && freshest(hits)[i] == x;
                assert(freshest(before)[i] == x);
                assert(freshest(before).contains(x));
                let j = choose|j: int| 0 <= j < before.len() && before[j] == x;
                assert(hits[j] == x);
            }
        }
    }
}

/// Whether a list holds a hit on the same aircraft that `hit` does not supersede.
pub open spec fn represents(kept: Seq<SearchHit>, hit: SearchHit) -> bool {
    exists|at: int| #[trigger]
        holds_aircraft(kept, hit.aircraft(), at) && !supersedes(hit, kept[at])
}

/// Deduplication loses no aircraft, and what it keeps of an aircraft is superseded by none of
/// the given hits on it.
pub proof fn law_survivor_is_freshest(hits: Seq<SearchHit>)
    requires
        comparable(hits),
    ensures
        forall|i: int|
            0 <= i < hits.len() ==> represents(freshest(hits), #[trigger] hits[i]),
    decreases hits.len(),
{
    if hits.len() > 0 {
        let before = hits.drop_last();
        let hit = hits.last();
        let kept = freshest(before);
        let now = freshest(hits);
        assert(comparable(before)) by {
            assert forall|i: int| 0 <= i < before.len() implies !(
            #[trigger] before[i]).score.spec_is_nan() by {
                assert(before[i] == hits[i]);
            }
        }
        law_survivor_is_freshest(before);
        law_one_hit_per_aircraft(before);
        law_survivors_are_given_hits(before);
        assert forall|i: int| 0 <= i < hits.len() implies represents(now, #[trigger] hits[i]) by {
            if exists|at: int| holds_aircraft(kept, hit.aircraft(), at) {
                let slot = choose|at: int| holds_aircraft(kept, hit.aircraft(), at);
                lemma_absorb_at(kept, hit, slot);
                assert(before.contains(kept[slot])) by {
                    assert(kept.contains(kept[slot]));
                }
                if i < before.len() {
                    assert(hits[i] == before[i]);
                    assert(represents(kept, before[i]));
                    let at = choose|at: int| #[trigger]
                        holds_aircraft(kept, before[i].aircraft(), at) && !supersedes(
                            before[i],
                            kept[at],
                        );
                    assert(holds_aircraft(now, hits[i].aircraft(), at));
                    if at == slot && supersedes(hit, kept[slot]) {
                        assert(now[at] == hit);
                        assert(!supersedes(hits[i], now[at]));
                    } else {
                        assert(now[at] == kept[at]);
                    }
                } else {
                    assert(holds_aircraft(now, hit.aircraft(), slot));
                }
            } else {
                assert(now == kept.push(hit));
                if i < before.len() {
                    assert(hits[i] == before[i]);
                    assert(represents(kept, before[i]));
                    let at = choose|at: int| #[trigger]
                        holds_aircraft(kept, before[i].aircraft(), at) && !supersedes(
                            before[i],
                            kept[at],
                        );
                    assert(holds_aircraft(now, hits[i].aircraft(), at));
                } else {
                    assert(holds_aircraft(now, hit.aircraft(), kept.len() as int));
                }
            }
        }
    }
}

/// Whether a hit is one of the given hits, and none of them on the same aircraft supersedes it.
pub open spec fn unbeaten(hits: Seq<SearchHit>, hit: SearchHit) -> bool {
    &&& hits.contains(hit)
    &&& forall|y: SearchHit| #[trigger]
        hits.contains(y) && y.aircraft() == hit.aircraft() ==> !supersedes(y, hit)
}

/// Whether every aircraft has a single best hit.
pub open spec fn decisive(hits: Seq<SearchHit>) -> bool {
    forall|a: SearchHit, b: SearchHit| #[trigger]
        unbeaten(hits, a) && #[trigger] unbeaten(hits, b) && a.aircraft() == b.aircraft() ==> a == b
}

/// Where every aircraft has a single best hit, the survivors are exactly the best hits.
proof fn lemma_survivors(hits: Seq<SearchHit>)
    requires
        comparable(hits),
        decisive(hits),
    ensures
        forall|x: SearchHit| #[trigger] freshest(hits).contains(x) <==> unbeaten(hits, x),
{
    let kept = freshest(hits);
    law_survivors_are_given_hits(hits);
    law_survivor_is_freshest(hits);
    law_one_hit_per_aircraft(hits);
    assert forall|x: SearchHit| #[trigger] kept.contains(x) implies unbeaten(hits, x) by {
        let at = choose|at: int| 0 <= at < kept.len() && kept[at] == x;
        assert forall|y: SearchHit| #[trigger]
            hits.contains(y) && y.aircraft() == x.aircraft() implies !supersedes(y, x) by {
            let i = choose|i: int| 0 <= i < hits.len() && hits[i] == y;
            assert(represents(kept, hits[i]));
            let slot = choose|slot: int| #[trigger]
                holds_aircraft(kept, hits[i].aircraft(), slot) && !supersedes(hits[i], kept[slot]);
            assert(kept[slot].aircraft() == kept[at].aircraft());
        }
    }
    assert forall|x: SearchHit| unbeaten(hits, x) implies #[trigger] kept.contains(x) by {
        let i = choose|i: int| 0 <= i < hits.len() && hits[i] == x;
        assert(represents(kept, hits[i]));
        let slot = choose|slot: int| #[trigger]
            holds_aircraft(kept, hits[i].aircraft(), slot) && !supersedes(hits[i], kept[slot]);
        assert(kept.contains(kept[slot]));
        assert(unbeaten(hits, kept[slot]));
    }
}

proof fn lemma_no_repeats(hits: Seq<SearchHit>)
    requires
        one_per_aircraft(hits),
    ensures
        hits.no_duplicates(),
{
    assert forall|i: int, j: int|
        0 <= i < hits.len() && 0 <= j < hits.len() && i != j implies hits[i] != hits[j] by {
        if hits[i] == hits[j] {
            assert(hits[i].aircraft() == hits[j].aircraft());
        }
    }
}

proof fn lemma_same_members_same_elements(a: Seq<SearchHit>, b: Seq<SearchHit>)
    requires
        a.no_duplicates(),
        b.no_duplicates(),
        forall|x: SearchHit| #[trigger] a.contains(x) <==> b.contains(x),
    ensures
        same_elements(a, b),
{
    broadcast use vstd::seq_lib::group_to_multiset_ensures;

    a.lemma_multiset_has_no_duplicates();
    b.lemma_multiset_has_no_duplicates();
    assert(a.to_multiset() =~= b.to_multiset()) by {
        assert forall|x: SearchHit| a.to_multiset().count(x) == b.to_multiset().count(x) by {
            assert(a.contains(x) <==> b.contains(x));
            assert(a.contains(x) <==> a.to_multiset().count(x) > 0);
            assert(b.contains(x) <==> b.to_multiset().count(x) > 0);
        }
    }
}

proof fn lemma_comparable_members(all: Seq<SearchHit>, some: Seq<SearchHit>)
    requires
        comparable(all),
        forall|x: SearchHit| #[trigger] some.contains(x) ==> all.contains(x),
    ensures
        comparable(some),
{
    assert forall|i: int| 0 <= i < some.len() implies !(
    #[trigger] some[i]).score.spec_is_nan() by {
        assert(some.contains(some[i]));
        let j = choose|j: int| 0 <= j < all.len() && all[j] == some[i];
        assert(!all[j].score.spec_is_nan());
    }
}

/// A page is determined by the hits behind it, whatever their order: two pages of the same
/// hits, one per aircraft with comparable scores, are the same list.
pub proof fn law_page_is_determined(
    page: Seq<SearchHit>,
    other: Seq<SearchHit>,
    hits: Seq<SearchHit>,
    shuffled: Seq<SearchHit>,
    limit: int,
)
    requires
        same_elements(hits, shuffled),
        one_per_aircraft(hits),
        comparable(hits),
        is_page(page, hits, limit),
        is_page(other, shuffled, limit),
    ensures
        page == other,
{
    let full = choose|full: Seq<SearchHit>| #[trigger]
        arranges(full, hits) && page == cut(full, limit);
    let full2 = choose|full: Seq<SearchHit>| #[trigger]
        arranges(full, shuffled) && other == cut(full, limit);
    crate::ranking::lemma_same_elements(hits, shuffled);
    crate::ranking::lemma_same_elements(full, hits);
    lemma_comparable_members(hits, shuffled);
    lemma_comparable_members(hits, full);
    lemma_comparable_orderable(full);
    lemma_distinct_aircraft_never_tie(hits, full);
    crate::ranking::lemma_ranking_unique(full, full2);
}

/// Where every score can be compared and no aircraft appears twice, a page is a cut of the
/// ranking.
pub proof fn law_page_is_the_ranking_cut(
    page: Seq<SearchHit>,
    hits: Seq<SearchHit>,
    limit: int,
)
    requires
        one_per_aircraft(hits),
        comparable(hits),
        is_page(page, hits, limit),
    ensures
        page == cut(ranking_of(hits), limit),
{
    let whole = ranking_of(hits);
    crate::ranking::lemma_ranking_of(hits);
    lemma_comparable_orderable(hits);
    assert(arranges(whole, hits));
    let other = cut(whole, limit);
    assert(is_page(other, hits, limit));
    law_page_is_determined(page, other, hits, hits, limit);
}

proof fn lemma_distinct_aircraft_never_tie(hits: Seq<SearchHit>, some: Seq<SearchHit>)
    requires
        one_per_aircraft(hits),
        comparable(hits),
        forall|x: SearchHit| #[trigger] some.contains(x) ==> hits.contains(x),
    ensures
        never_tie(some),
{
    assert forall|i: int, j: int|
        #![trigger some[i], some[j]]
        0 <= i < some.len() && 0 <= j < some.len() && some[i] != some[j] implies some[i].ranks_before(
        some[j],
    ) || some[j].ranks_before(some[i]) by {
        assert(some.contains(some[i]) && some.contains(some[j]));
        let a = choose|a: int| 0 <= a < hits.len() && hits[a] == some[i];
        let b = choose|b: int| 0 <= b < hits.len() && hits[b] == some[j];
        assert(hits[a].aircraft() != hits[b].aircraft());
        crate::text::lemma_text_before_total(some[i].aircraft(), some[j].aircraft());
    }
}

/// What a merge has been given after each of the responses, as [`ProgressiveMerge::add`] takes them
/// in one at a time.
pub open spec fn folds(states: Seq<Seq<SearchHit>>, responses: Seq<SearchResponse>) -> bool {
    &&& states.len() == responses.len() + 1
    &&& states[0] == Seq::<SearchHit>::empty()
    &&& forall|i: int|
        0 <= i < responses.len() ==> #[trigger] states[i + 1] == states[i] + responses[i].hits@
}

proof fn lemma_folds_gather_all(states: Seq<Seq<SearchHit>>, responses: Seq<SearchResponse>)
    requires
        folds(states, responses),
    ensures
        states.last() == all_hits(responses),
    decreases responses.len(),
{
    if responses.len() > 0 {
        let before = responses.drop_last();
        let earlier = states.drop_last();
        assert(folds(earlier, before)) by {
            assert forall|i: int| 0 <= i < before.len() implies #[trigger] earlier[i + 1]
                == earlier[i] + before[i].hits@ by {
                assert(states[i + 1] == earlier[i + 1]);
            }
        }
        lemma_folds_gather_all(earlier, before);
        let last = responses.len() - 1;
        assert(states[last + 1] == states[last] + responses[last].hits@);
        assert(earlier.last() == states[last]);
    }
}

/// A progressive merge shows at every moment what a batch merge of the same responses gives,
/// wherever every score can be compared.
pub proof fn law_progressive_equals_batch(
    states: Seq<Seq<SearchHit>>,
    responses: Seq<SearchResponse>,
    shown: Seq<SearchHit>,
    batch: Seq<SearchHit>,
    limit: int,
)
    requires
        folds(states, responses),
        comparable(all_hits(responses)),
        is_page(shown, freshest(states.last()), limit),
        is_page(batch, freshest(all_hits(responses)), limit),
    ensures
        shown == batch,
{
    let all = all_hits(responses);
    lemma_folds_gather_all(states, responses);
    law_one_hit_per_aircraft(all);
    law_survivors_are_given_hits(all);
    lemma_comparable_members(all, freshest(all));
    law_page_is_determined(shown, batch, freshest(all), freshest(all), limit);
}

/// The order in which the shards' hits arrive does not matter: where scores can be compared and
/// every aircraft has a single best hit, every merge of the same hits gives the same page.
pub proof fn law_merge_ignores_arrival_order(
    page: Seq<SearchHit>,
    other: Seq<SearchHit>,
    hits: Seq<SearchHit>,
    shuffled: Seq<SearchHit>,
    limit: int,
)
    requires
        same_elements(hits, shuffled),
        comparable(hits),
        decisive(hits),
        is_page(page, freshest(hits), limit),
        is_page(other, freshest(shuffled), limit),
    ensures
        page == other,
{
    crate::ranking::lemma_same_elements(hits, shuffled);
    lemma_comparable_members(hits, shuffled);
    assert forall|x: SearchHit| #[trigger] unbeaten(shuffled, x) implies unbeaten(hits, x) by {
        assert forall|y: SearchHit| #[trigger]
            hits.contains(y) && y.aircraft() == x.aircraft() implies !supersedes(y, x) by {
            assert(shuffled.contains(y));
        }
    }
    assert forall|x: SearchHit| #[trigger] unbeaten(hits, x) implies unbeaten(shuffled, x) by {
        assert forall|y: SearchHit| #[trigger]
            shuffled.contains(y) && y.aircraft() == x.aircraft() implies !supersedes(y, x) by {
            assert(hits.contains(y));
        }
    }
    lemma_survivors(hits);
    lemma_survivors(shuffled);
    law_one_hit_per_aircraft(hits);
    law_one_hit_per_aircraft(shuffled);
    lemma_no_repeats(freshest(hits));
    lemma_no_repeats(freshest(shuffled));
    assert forall|x: SearchHit| #[trigger] freshest(hits).contains(x) <==> freshest(
        shuffled,
    ).contains(x) by {}
    lemma_same_members_same_elements(freshest(hits), freshest(shuffled));
    law_survivors_are_given_hits(hits);
    lemma_comparable_members(hits, freshest(hits));
    law_page_is_determined(page, other, freshest(hits), freshest(shuffled), limit);
}

/// A merged answer never lists more than `limit` hits (zero = no limit).
pub proof fn law_limit_bounds_the_page(page: Seq<SearchHit>, hits: Seq<SearchHit>, limit: int)
    requires
        is_page(page, hits, limit),
        limit >= 0,
    ensures
        limit != 0 ==> page.len() <= limit,
        page.len() <= hits.len(),
        limit == 0 || hits.len() <= limit ==> same_elements(page, hits),
{
    let full = choose|full: Seq<SearchHit>| #[trigger]
        arranges(full, hits) && page == cut(full, limit);
    crate::ranking::lemma_same_elements(full, hits);
}

/// Disjoint shards have nothing to collapse: hits that already name each aircraft once are kept
/// as they are.
pub proof fn law_disjoint_hits_are_kept(hits: Seq<SearchHit>)
    requires
        one_per_aircraft(hits),
    ensures
        freshest(hits) == hits,
    decreases hits.len(),
{
    if hits.len() > 0 {
        let before = hits.drop_last();
        assert(one_per_aircraft(before)) by {
            assert forall|i: int, j: int|
                #![trigger before[i], before[j]]
                0 <= i < before.len() && 0 <= j < before.len() && before[i].aircraft()
                    == before[j].aircraft() implies i == j by {
                assert(hits[i].aircraft() == hits[j].aircraft());
            }
        }
        law_disjoint_hits_are_kept(before);
        assert forall|at: int| !holds_aircraft(before, hits.last().aircraft(), at) by {
            if holds_aircraft(before, hits.last().aircraft(), at) {
                assert(hits[at].aircraft() == hits[hits.len() - 1].aircraft());
            }
        }
        assert(hits =~= before.push(hits.last()));
    } else {
        assert(hits =~= freshest(hits));
    }
}

/// What deduplication keeps of an aircraft was observed no earlier than any given hit on it, and
/// of the hits observed at that same time none scores higher.
pub proof fn law_the_latest_observation_is_kept(hits: Seq<SearchHit>, k: int, i: int)
    requires
        0 <= k < freshest(hits).len(),
        0 <= i < hits.len(),
        freshest(hits)[k].document is Some,
        hits[i].document is Some,
        freshest(hits)[k].document->0.icao24@ == hits[i].document->0.icao24@,
    ensures
        freshest(hits)[k].document->0.observed_at >= hits[i].document->0.observed_at,
        freshest(hits)[k].document->0.observed_at == hits[i].document->0.observed_at
            ==> !freshest(hits)[k].score.spec_less(hits[i].score),
{
    lemma_no_hit_beats_the_survivor(hits, k, i);
}

/// Hits without a document, and documents that name no aircraft, count as one aircraft without a
/// name, seen at time zero where there is no document: of them too the latest is kept, and of those
/// the highest score.
pub proof fn law_the_latest_of_the_unnamed_is_kept(hits: Seq<SearchHit>, k: int, i: int)
    requires
        0 <= k < freshest(hits).len(),
        0 <= i < hits.len(),
        freshest(hits)[k].document matches Some(d) ==> d.icao24@.len() == 0,
        hits[i].document matches Some(d) ==> d.icao24@.len() == 0,
    ensures
        ({
            let seen = |h: SearchHit|
                match h.document {
                    Some(d) => d.observed_at as int,
                    None => 0int,
                };
            &&& seen(freshest(hits)[k]) >= seen(hits[i])
            &&& seen(freshest(hits)[k]) == seen(hits[i]) ==> !freshest(hits)[k].score.spec_less(
                hits[i].score,
            )
        }),
{
    assert(freshest(hits)[k].aircraft() =~= hits[i].aircraft());
    lemma_no_hit_beats_the_survivor(hits, k, i);
}

proof fn lemma_no_hit_beats_the_survivor(hits: Seq<SearchHit>, k: int, i: int)
    requires
        0 <= k < freshest(hits).len(),
        0 <= i < hits.len(),
        freshest(hits)[k].aircraft() == hits[i].aircraft(),
    ensures
        !supersedes(hits[i], freshest(hits)[k]),
    decreases hits.len(),
{
    let before = hits.drop_last();
    let hit = hits.last();
    let kept = freshest(before);
    let now = freshest(hits);
    law_one_hit_per_aircraft(before);
    law_one_hit_per_aircraft(hits);
    if exists|at: int| holds_aircraft(kept, hit.aircraft(), at) {
        let slot = choose|at: int| holds_aircraft(kept, hit.aircraft(), at);
        lemma_absorb_at(kept, hit, slot);
        if i < before.len() {
            assert(before[i] == hits[i]);
            assert(kept[k].aircraft() == now[k].aircraft());
            lemma_no_hit_beats_the_survivor(before, k, i);
        } else {
            assert(now[slot].aircraft() == now[k].aircraft());
        }
    } else {
        assert(now == kept.push(hit));
        if i < before.len() {
            assert(before[i] == hits[i]);
            if k < kept.len() {
                lemma_no_hit_beats_the_survivor(before, k, i);
            } else {
                lemma_every_aircraft_survives(before, i);
                let at = choose|at: int| holds_aircraft(kept, before[i].aircraft(), at);
                assert(holds_aircraft(kept, hit.aircraft(), at));
            }
        } else if k < kept.len() {
            assert(holds_aircraft(kept, hit.aircraft(), k));
        }
    }
}

proof fn lemma_every_aircraft_survives(hits: Seq<SearchHit>, i: int)
    requires
        0 <= i < hits.len(),
    ensures
        exists|at: int| holds_aircraft(freshest(hits), hits[i].aircraft(), at),
    decreases hits.len(),
{
    let before = hits.drop_last();
    let hit = hits.last();
    let kept = freshest(before);
    let now = freshest(hits);
    if i < before.len() {
        assert(before[i] == hits[i]);
        lemma_every_aircraft_survives(before, i);
        let at = choose|at: int| holds_aircraft(kept, before[i].aircraft(), at);
        assert(holds_aircraft(now, hits[i].aircraft(), at));
    } else if exists|at: int| holds_aircraft(kept, hit.aircraft(), at) {
        let at = choose|at: int| holds_aircraft(kept, hit.aircraft(), at);
        assert(holds_aircraft(now, hit.aircraft(), at));
    } else {
        assert(holds_aircraft(now, hit.aircraft(), kept.len() as int));
    }
}

/// Deduplication loses no aircraft: of every aircraft among the given hits one hit is kept, and
/// no other kept hit names it.
pub proof fn law_every_aircraft_is_kept_once(hits: Seq<SearchHit>, i: int)
    requires
        0 <= i < hits.len(),
        hits[i].document is Some,
        hits[i].document->0.icao24@.len() > 0,
    ensures
        exists|k: int|
            0 <= k < freshest(hits).len() && (#[trigger] freshest(hits)[k]).document is Some
                && freshest(hits)[k].document->0.icao24@ == hits[i].document->0.icao24@,
        forall|j: int, k: int|
            #![trigger freshest(hits)[j], freshest(hits)[k]]
            0 <= j < k < freshest(hits).len() && freshest(hits)[j].document is Some && freshest(
                hits,
            )[k].document is Some ==> freshest(hits)[j].document->0.icao24@ != freshest(
                hits,
            )[k].document->0.icao24@,
{
    lemma_every_aircraft_survives(hits, i);
    law_one_hit_per_aircraft(hits);
    let now = freshest(hits);
    let at = choose|at: int| holds_aircraft(now, hits[i].aircraft(), at);
    assert(now[at].document is Some);
    assert forall|j: int, k: int|
        #![trigger now[j], now[k]]
        0 <= j < k < now.len() && now[j].document is Some && now[k].document
            is Some implies now[j].document->0.icao24@ != now[k].document->0.icao24@ by {
        if now[j].document->0.icao24@ == now[k].document->0.icao24@ {
            assert(now[j].aircraft() == now[k].aircraft());
        }
    }
}

/// A page lists the better hits first: no hit scores higher than one listed before it, of two
/// hits that score alike the one whose `icao24` comes first is listed first, and no hit left
/// off the page scores higher than one on it.
pub proof fn law_the_best_hits_come_first(
    page: Seq<SearchHit>,
    hits: Seq<SearchHit>,
    limit: int,
    i: int,
    j: int,
)
    requires
        is_page(page, hits, limit),
        comparable(hits),
        limit >= 0,
    ensures
        0 <= i < j < page.len() ==> !page[i].score.spec_less(page[j].score),
        0 <= i < j < page.len() && page[i].document is Some && page[j].document is Some
            && !page[j].score.spec_less(page[i].score) ==> !text_before(
            page[j].document->0.icao24@,
            page[i].document->0.icao24@,
        ),
        forall|x: SearchHit|
            #![trigger hits.contains(x)]
            0 <= i < page.len() && hits.contains(x) && !page.contains(x)
                ==> !page[i].score.spec_less(x.score),
        0 <= i < page.len() ==> hits.contains(page[i]),
        page.len() == if limit == 0 || hits.len() < limit {
            hits.len() as int
        } else {
            limit
        },
{
    let full = choose|full: Seq<SearchHit>| #[trigger]
        arranges(full, hits) && page == cut(full, limit);
    crate::ranking::lemma_same_elements(full, hits);
    if 0 <= i < page.len() {
        assert(page[i] == full[i]);
        assert(full.contains(full[i]));
        if i < j < page.len() {
            assert(page[j] == full[j]);
            assert(!full[j].ranks_before(full[i]));
        }
        assert forall|x: SearchHit|
            #![trigger hits.contains(x)]
            hits.contains(x) && !page.contains(x) implies !page[i].score.spec_less(x.score) by {
            assert(full.contains(x));
            let at = choose|at: int| 0 <= at < full.len() && full[at] == x;
            if at < page.len() {
                assert(page[at] == x);
            }
            assert(!full[at].ranks_before(full[i]));
        }
    }
}

/// The hits of one response are gathered as they stand, and those of more responses one response
/// after the other.
pub proof fn law_hits_are_gathered_in_order(
    one: SearchResponse,
    first: Seq<SearchResponse>,
    second: Seq<SearchResponse>,
)
    ensures
        all_hits(seq![one]) == one.hits@,
        all_hits(first + second) == all_hits(first) + all_hits(second),
    decreases second.len(),
{
    assert(seq![one].drop_last() =~= Seq::<SearchResponse>::empty());
    assert(all_hits(seq![one].drop_last()) =~= Seq::<SearchHit>::empty());
    assert(all_hits(seq![one]) =~= one.hits@);
    if second.len() == 0 {
        assert(first + second =~= first);
        assert(all_hits(first) + all_hits(second) =~= all_hits(first));
    } else {
        law_hits_are_gathered_in_order(one, first, second.drop_last());
        assert((first + second).drop_last() =~= first + second.drop_last());
        assert(all_hits(first + second) =~= all_hits(first) + all_hits(second));
    }
}

/// A merged total is the sum of the shards' own totals.
pub proof fn law_totals_add_up(
    one: SearchResponse,
    first: Seq<SearchResponse>,
    second: Seq<SearchResponse>,
)
    ensures
        total_of(Seq::<SearchResponse>::empty()) == 0,
        total_of(seq![one]) == one.total_matched,
        total_of(first + second) == total_of(first) + total_of(second),
    decreases second.len(),
{
    assert(seq![one].drop_last() =~= Seq::<SearchResponse>::empty());
    if second.len() == 0 {
        assert(first + second =~= first);
    } else {
        law_totals_add_up(one, first, second.drop_last());
        assert((first + second).drop_last() =~= first + second.drop_last());
    }
}

/// Peers are settled one by one: an answer is handed on as it came, a peer that failed is
/// omitted as unreachable and one that missed the deadline as timed out, each under its address
/// and in the order of the attempts.
pub proof fn law_peers_are_settled_one_by_one<T>(
    address: String,
    answer: T,
    first: Seq<(String, Attempt<T>)>,
    second: Seq<(String, Attempt<T>)>,
)
    ensures
        answers_of(seq![(address, Attempt::Answered(answer))]) == seq![answer],
        omissions_of(seq![(address, Attempt::Answered(answer))]).len() == 0,
        answers_of(seq![(address, Attempt::<T>::Failed)]).len() == 0,
        omissions_of(seq![(address, Attempt::<T>::Failed)]) == seq![(address@, "unreachable"@)],
        answers_of(seq![(address, Attempt::<T>::TimedOut)]).len() == 0,
        omissions_of(seq![(address, Attempt::<T>::TimedOut)]) == seq![(address@, "timeout"@)],
        answers_of(first + second) == answers_of(first) + answers_of(second),
        omissions_of(first + second) == omissions_of(first) + omissions_of(second),
    decreases second.len(),
{
    let none = Seq::<(String, Attempt<T>)>::empty();
    assert(answers_of(none) =~= Seq::empty() && omissions_of(none) =~= Seq::empty());
    assert(seq![(address, Attempt::Answered(answer))].drop_last() =~= none);
    assert(seq![(address, Attempt::<T>::Failed)].drop_last() =~= none);
    assert(seq![(address, Attempt::<T>::TimedOut)].drop_last() =~= none);
    assert(answers_of(seq![(address, Attempt::Answered(answer))]) =~= seq![answer]);
    assert(omissions_of(seq![(address, Attempt::<T>::Failed)]) =~= seq![
        (address@, "unreachable"@),
    ]);
    assert(omissions_of(seq![(address, Attempt::<T>::TimedOut)]) =~= seq![
        (address@, "timeout"@),
    ]);
    if second.len() == 0 {
        assert(first + second =~= first);
        assert(answers_of(first) + answers_of(second) =~= answers_of(first));
        assert(omissions_of(first) + omissions_of(second) =~= omissions_of(first));
    } else {
        law_peers_are_settled_one_by_one(address, answer, first, second.drop_last());
        assert((first + second).drop_last() =~= first + second.drop_last());
        assert(answers_of(first + second) =~= answers_of(first) + answers_of(second));
        assert(omissions_of(first + second) =~= omissions_of(first) + omissions_of(second));
    }
}

/// The times of a manifest bound the observations on the page: nothing listed was seen before the
/// stalest time or after the freshest, each of the two is the time of a listed hit, and both are
/// zero where the page lists no document.
pub proof fn law_manifest_times_bound_the_page(
    hits: Seq<SearchHit>,
    freshest_at: int,
    stalest_at: int,
    i: int,
)
    requires
        is_freshest_time(hits, freshest_at),
        is_stalest_time(hits, stalest_at),
    ensures
        0 <= i < hits.len() && hits[i].document is Some ==> stalest_at
            <= hits[i].document->0.observed_at <= freshest_at,
        (freshest_at == 0 && stalest_at == 0) || exists|a: int, b: int|
            #![trigger hits[a], hits[b]]
            0 <= a < hits.len() && 0 <= b < hits.len() && hits[a].document is Some
                && hits[b].document is Some && hits[a].document->0.observed_at == freshest_at
                && hits[b].document->0.observed_at == stalest_at,
        (forall|k: int| 0 <= k < hits.len() ==> (#[trigger] hits[k]).document is None)
            ==> freshest_at == 0 && stalest_at == 0,
{
    if !(forall|k: int| 0 <= k < hits.len() ==> (#[trigger] hits[k]).document is None) {
        let a = choose|a: int|
            0 <= a < hits.len() && (#[trigger] hits[a]).document is Some && hits[a].observed()
                == freshest_at;
        let b = choose|b: int|
            0 <= b < hits.len() && (#[trigger] hits[b]).document is Some && hits[b].observed()
                == stalest_at;
        assert(hits[a].document->0.observed_at == freshest_at);
        assert(hits[b].document->0.observed_at == stalest_at);
    }
}

/// A progressive merge that took in the responses one at a time has counted each of them once,
/// summed their totals and gathered their hits.
pub proof fn law_progress_counts_every_answer(
    states: Seq<ProgressiveMerge>,
    responses: Seq<SearchResponse>,
)
    requires
        states.len() == responses.len() + 1,
        states[0].added() == Seq::<SearchHit>::empty(),
        states[0].total_matched() == 0,
        states[0].shards_answered() == 0,
        forall|i: int|
            0 <= i < responses.len() ==> (#[trigger] states[i + 1]).has_added(
                states[i],
                responses[i],
            ),
    ensures
        states.last().added() == all_hits(responses),
        states.last().total_matched() == total_of(responses),
        states.last().shards_answered() == responses.len(),
        states.last().shards_queried() == states[0].shards_queried(),
        states.last().limit() == states[0].limit(),
    decreases responses.len(),
{
    if responses.len() > 0 {
        let before = responses.drop_last();
        let earlier = states.drop_last();
        assert forall|i: int| 0 <= i < before.len() implies (#[trigger] earlier[i + 1]).has_added(
            earlier[i],
            before[i],
        ) by {
            assert(states[i + 1] == earlier[i + 1]);
        }
        law_progress_counts_every_answer(earlier, before);
        let last = responses.len() - 1;
        assert(states[last + 1].has_added(states[last], responses[last]));
        assert(earlier.last() == states[last]);
    }
}

/// A manifest accounts for the merge: the shards that answered, every gathered hit either kept or
/// counted as a duplicate, and times between which every listed observation lies.
pub proof fn law_the_manifest_accounts_for_every_hit(
    m: QueryManifest,
    page: Seq<SearchHit>,
    responses: Seq<SearchResponse>,
    shards_queried: u32,
    placement_version: u64,
    elapsed_ms: u64,
    i: int,
)
    requires
        accounts_for(m, page, responses, shards_queried, placement_version, elapsed_ms),
        responses.len() <= u32::MAX,
        all_hits(responses).len() <= u32::MAX,
    ensures
        m.shards_queried == shards_queried,
        m.shards_answered == responses.len(),
        m.deduped + freshest(all_hits(responses)).len() == all_hits(responses).len(),
        m.placement_version == placement_version,
        m.elapsed_ms == elapsed_ms,
        0 <= i < page.len() && page[i].document is Some ==> m.stalest_observed_at
            <= page[i].document->0.observed_at <= m.freshest_observed_at,
{
    lemma_freshest_shrinks(all_hits(responses));
    law_manifest_times_bound_the_page(
        page,
        m.freshest_observed_at as int,
        m.stalest_observed_at as int,
        i,
    );
}

/// What a progressive merge shows along the way is the merge of the responses so far: their
/// number, their total, and the page that a batch of them would give.
pub proof fn law_updates_tell_the_progress(
    states: Seq<ProgressiveMerge>,
    responses: Seq<SearchResponse>,
    update: SearchUpdate,
    complete: bool,
)
    requires
        states.len() == responses.len() + 1,
        states[0].added() == Seq::<SearchHit>::empty(),
        states[0].total_matched() == 0,
        states[0].shards_answered() == 0,
        forall|i: int|
            0 <= i < responses.len() ==> (#[trigger] states[i + 1]).has_added(
                states[i],
                responses[i],
            ),
        states.last().shows(update, complete),
    ensures
        update.shards_answered == responses.len(),
        update.shards_queried == states[0].shards_queried(),
        update.total_matched == total_of(responses),
        is_page(update.hits@, freshest(all_hits(responses)), states[0].limit() as int),
        update.complete == complete,
{
    law_progress_counts_every_answer(states, responses);
}

/// Of hits on an aircraft that are as fresh and score alike, the one that was given first is kept.
pub proof fn law_the_first_of_equals_is_kept(hits: Seq<SearchHit>, k: int, i: int)
    requires
        comparable(hits),
        0 <= k < freshest(hits).len(),
        0 <= i < hits.len(),
        freshest(hits)[k].document is Some,
        hits[i].document is Some,
        freshest(hits)[k].document->0.icao24@ == hits[i].document->0.icao24@,
        freshest(hits)[k].document->0.observed_at == hits[i].document->0.observed_at,
        !hits[i].score.spec_less(freshest(hits)[k].score),
    ensures
        exists|m: int| 0 <= m <= i && #[trigger] hits[m] == freshest(hits)[k],
{
    lemma_first_of_equals(hits, k, i);
}

proof fn lemma_first_of_equals(hits: Seq<SearchHit>, k: int, i: int)
    requires
        comparable(hits),
        0 <= k < freshest(hits).len(),
        0 <= i < hits.len(),
        freshest(hits)[k].aircraft() == hits[i].aircraft(),
        freshest(hits)[k].observed() == hits[i].observed(),
        !hits[i].score.spec_less(freshest(hits)[k].score),
    ensures
        exists|m: int| 0 <= m <= i && #[trigger] hits[m] == freshest(hits)[k],
    decreases hits.len(),
{
    let before = hits.drop_last();
    let hit = hits.last();
    let kept = freshest(before);
    let now = freshest(hits);
    law_one_hit_per_aircraft(before);
    law_one_hit_per_aircraft(hits);
    law_survivors_are_given_hits(hits);
    assert(now.contains(now[k]));
    if i == hits.len() - 1 {
        let m = choose|m: int| 0 <= m < hits.len() && hits[m] == now[k];
        assert(hits[m] == now[k]);
    } else {
        assert(before[i] == hits[i]);
        assert(comparable(before)) by {
            assert forall|j: int| 0 <= j < before.len() implies !(
            #[trigger] before[j]).score.spec_is_nan() by {
                assert(before[j] == hits[j]);
            }
        }
        lemma_every_aircraft_survives(before, i);
        let at = choose|at: int| holds_aircraft(kept, before[i].aircraft(), at);
        if exists|slot: int| holds_aircraft(kept, hit.aircraft(), slot) {
            let slot = choose|slot: int| holds_aircraft(kept, hit.aircraft(), slot);
            lemma_absorb_at(kept, hit, slot);
        }
        assert(holds_aircraft(now, hits[i].aircraft(), at));
        assert(now[at].aircraft() == now[k].aircraft());
        assert(at == k);
        lemma_no_hit_beats_the_survivor(before, k, i);
        if now[k] != kept[k] {
            assert(now[k] == hit && supersedes(hit, kept[k]));
            law_survivors_are_given_hits(before);
            assert(kept.contains(kept[k]));
            let m = choose|m: int| 0 <= m < before.len() && before[m] == kept[k];
            assert(!hits[m].score.spec_is_nan() && !hits[i].score.spec_is_nan());
        }
        assert(now[k] == kept[k]);
        lemma_first_of_equals(before, k, i);
        let m = choose|m: int| 0 <= m <= i && #[trigger] before[m] == kept[k];
        assert(hits[m] == now[k]);
    }
}

/// The kept hits stand in the order in which their aircraft were first given.
pub proof fn law_survivors_stand_in_order_of_arrival(hits: Seq<SearchHit>, a: int, b: int)
    requires
        0 <= a < b < freshest(hits).len(),
    ensures
        exists|i: int|
            0 <= i < hits.len() && (#[trigger] hits[i]).aircraft() == freshest(hits)[a].aircraft()
                && forall|j: int|
                0 <= j < hits.len() && (#[trigger] hits[j]).aircraft() == freshest(
                    hits,
                )[b].aircraft() ==> i < j,
    decreases hits.len(),
{
    let before = hits.drop_last();
    let hit = hits.last();
    let last = hits.len() - 1;
    let kept = freshest(before);
    let now = freshest(hits);
    law_one_hit_per_aircraft(before);
    if exists|slot: int| holds_aircraft(kept, hit.aircraft(), slot) {
        let slot = choose|slot: int| holds_aircraft(kept, hit.aircraft(), slot);
        lemma_absorb_at(kept, hit, slot);
    }
    if b < kept.len() {
        law_survivors_stand_in_order_of_arrival(before, a, b);
        let i = choose|i: int|
            0 <= i < before.len() && (#[trigger] before[i]).aircraft() == kept[a].aircraft()
                && forall|j: int|
                0 <= j < before.len() && (#[trigger] before[j]).aircraft() == kept[b].aircraft()
                    ==> i < j;
        assert(now[a].aircraft() == kept[a].aircraft());
        assert(now[b].aircraft() == kept[b].aircraft());
        assert(hits[i] == before[i]);
        assert forall|j: int|
            0 <= j < hits.len() && (#[trigger] hits[j]).aircraft()
                == now[b].aircraft() implies i < j by {
            if j < before.len() {
                assert(before[j] == hits[j]);
            }
        }
    } else {
        assert(now == kept.push(hit));
        law_survivors_are_given_hits(before);
        assert(kept.contains(kept[a]));
        let i = choose|i: int| 0 <= i < before.len() && before[i] == kept[a];
        assert(hits[i] == before[i]);
        assert forall|j: int|
            0 <= j < hits.len() && (#[trigger] hits[j]).aircraft()
                == now[b].aircraft() implies i < j by {
            if j < before.len() {
                assert(before[j] == hits[j]);
                lemma_every_aircraft_survives(before, j);
                let at = choose|at: int| holds_aircraft(kept, before[j].aircraft(), at);
                assert(holds_aircraft(kept, hit.aircraft(), at));
            }
        }
    }
}

/// An omitted shard is told by its own address and reason.
pub proof fn law_omitted_shards_are_told_apart(omitted: Seq<OmittedShard>, i: int)
    ensures
        named(omitted).len() == omitted.len(),
        0 <= i < omitted.len() ==> named(omitted)[i] == (omitted[i].address@, omitted[i].reason@),
{
}

/// What a merged page shows of an aircraft is the latest that any shard answered of it, and of
/// answers of the same time none scores higher; and it is what one of the shards answered.
pub proof fn law_a_merged_page_shows_the_latest(
    page: Seq<SearchHit>,
    responses: Seq<SearchResponse>,
    limit: int,
    i: int,
    r: int,
    h: int,
)
    requires
        is_page(page, freshest(all_hits(responses)), limit),
        limit >= 0,
        0 <= i < page.len(),
        page[i].document is Some,
        0 <= r < responses.len(),
        0 <= h < responses[r].hits@.len(),
        responses[r].hits@[h].document is Some,
        responses[r].hits@[h].document->0.icao24@ == page[i].document->0.icao24@,
    ensures
        page[i].document->0.observed_at >= responses[r].hits@[h].document->0.observed_at,
        page[i].document->0.observed_at == responses[r].hits@[h].document->0.observed_at
            ==> !page[i].score.spec_less(responses[r].hits@[h].score),
        exists|q: int, g: int|
            #![trigger responses[q].hits@[g]]
            0 <= q < responses.len() && 0 <= g < responses[q].hits@.len()
                && responses[q].hits@[g] == page[i],
{
    let all = all_hits(responses);
    let kept = freshest(all);
    let full = choose|full: Seq<SearchHit>| #[trigger]
        arranges(full, kept) && page == cut(full, limit);
    crate::ranking::lemma_same_elements(full, kept);
    assert(page[i] == full[i]);
    assert(full.contains(full[i]));
    let k = choose|k: int| 0 <= k < kept.len() && kept[k] == page[i];
    let at = lemma_gathered(responses, r, h);
    law_the_latest_observation_is_kept(all, k, at);
    law_survivors_are_given_hits(all);
    assert(kept.contains(kept[k]));
    let m = choose|m: int| 0 <= m < all.len() && all[m] == page[i];
    let (q, g) = lemma_gathered_from(responses, m);
    assert(responses[q].hits@[g] == page[i]);
}

proof fn lemma_gathered(responses: Seq<SearchResponse>, r: int, h: int) -> (at: int)
    requires
        0 <= r < responses.len(),
        0 <= h < responses[r].hits@.len(),
    ensures
        0 <= at < all_hits(responses).len(),
        all_hits(responses)[at] == responses[r].hits@[h],
    decreases responses.len(),
{
    let before = responses.drop_last();
    if r < before.len() {
        assert(before[r] == responses[r]);
        lemma_gathered(before, r, h)
    } else {
        all_hits(before).len() + h
    }
}

proof fn lemma_gathered_from(responses: Seq<SearchResponse>, at: int) -> (place: (int, int))
    requires
        0 <= at < all_hits(responses).len(),
    ensures
        0 <= place.0 < responses.len(),
        0 <= place.1 < responses[place.0].hits@.len(),
        responses[place.0].hits@[place.1] == all_hits(responses)[at],
    decreases responses.len(),
{
    let before = responses.drop_last();
    if at < all_hits(before).len() {
        let place = lemma_gathered_from(before, at);
        assert(before[place.0] == responses[place.0]);
        place
    } else {
        (responses.len() - 1, at - all_hits(before).len())
    }
}

} // verus!
