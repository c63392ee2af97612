//! Aggregation merging: counts and buckets merge by summing, percentile sketches by union.
//!
//! Merging is closed over [`AggregatePartial`] (the same type in and out), which is the whole
//! design: distribution is invisible in the result.

use vstd::hash_map::StringHashMap;
use vstd::prelude::*;

use crate::double::Double;
use crate::fanout::{answers_of, named, omissions_of, settle, Attempt};
use crate::ranking::{
    is_ranked, lemma_same_elements, orderable, rank, same_elements, Ranked,
};
use crate::text::{comes_before, text_before};
use crate::wire::{AggKind, AggregatePartial, Digest, OmittedShard, Percentile};

verus! {

/// The counts of the partials, summed.
pub open spec fn count_total(partials: Seq<AggregatePartial>) -> nat
    decreases partials.len(),
{
    if partials.len() == 0 {
        0
    } else {
        count_total(partials.drop_last()) + partials.last().count as nat
    }
}

/// What a bucket list holds for a key, summed.
pub open spec fn bucket_sum(buckets: Seq<(String, u64)>, key: Seq<char>) -> nat
    decreases buckets.len(),
{
    if buckets.len() == 0 {
        0
    } else {
        bucket_sum(buckets.drop_last(), key) + if buckets.last().0@ == key {
            buckets.last().1 as nat
        } else {
            0
        }
    }
}

/// Whether a bucket list mentions a key.
pub open spec fn has_bucket(buckets: Seq<(String, u64)>, key: Seq<char>) -> bool {
    exists|i: int| 0 <= i < buckets.len() && (#[trigger] buckets[i]).0@ == key
}

/// What the partials hold for a key, summed.
pub open spec fn bucket_total(partials: Seq<AggregatePartial>, key: Seq<char>) -> nat
    decreases partials.len(),
{
    if partials.len() == 0 {
        0
    } else {
        bucket_total(partials.drop_last(), key) + bucket_sum(partials.last().buckets@, key)
    }
}

/// Whether any of the partials mentions a key.
pub open spec fn any_bucket(partials: Seq<AggregatePartial>, key: Seq<char>) -> bool {
    exists|i: int| 0 <= i < partials.len() && has_bucket((#[trigger] partials[i]).buckets@, key)
}

/// The sketches of the partials that carry one, in order.
pub open spec fn digests_of(partials: Seq<AggregatePartial>) -> Seq<Digest>
    decreases partials.len(),
{
    if partials.len() == 0 {
        Seq::empty()
    } else {
        match partials.last().digest {
            Some(digest) => digests_of(partials.drop_last()).push(digest),
            None => digests_of(partials.drop_last()),
        }
    }
}

/// Whether no key stands twice in a bucket list.
pub open spec fn distinct_keys(buckets: Seq<(String, u64)>) -> bool {
    forall|i: int, j: int|
        #![trigger buckets[i], buckets[j]]
        0 <= i < buckets.len() && 0 <= j < buckets.len() && buckets[i].0@ == buckets[j].0@ ==> i
            == j
}

/// Shard partials folded together: the summed count, one bucket per key with the summed value,
/// and the sketches still to be united.
pub struct Folded {
    pub count: u64,
    pub buckets: Vec<(String, u64)>,
    pub digests: Vec<Digest>,
}

proof fn lemma_sum_update(buckets: Seq<(String, u64)>, at: int, value: (String, u64), key: Seq<char>)
    requires
        0 <= at < buckets.len(),
        value.0@ == buckets[at].0@,
    ensures
        bucket_sum(buckets.update(at, value), key) == bucket_sum(buckets, key) + if value.0@
            == key {
            value.1 - buckets[at].1
        } else {
            0
        },
    decreases buckets.len(),
{
    let next = buckets.update(at, value);
    if at < buckets.len() - 1 {
        lemma_sum_update(buckets.drop_last(), at, value, key);
        assert(next.drop_last() =~= buckets.drop_last().update(at, value));
    } else {
        assert(next.drop_last() =~= buckets.drop_last());
    }
}

proof fn lemma_sum_push(buckets: Seq<(String, u64)>, value: (String, u64), key: Seq<char>)
    ensures
        bucket_sum(buckets.push(value), key) == bucket_sum(buckets, key) + if value.0@ == key {
            value.1 as nat
        } else {
            0
        },
{
    assert(buckets.push(value).drop_last() =~= buckets);
}

proof fn lemma_sum_grows(buckets: Seq<(String, u64)>, key: Seq<char>, k: int)
    requires
        0 <= k <= buckets.len(),
    ensures
        bucket_sum(buckets.take(k), key) <= bucket_sum(buckets, key),
    decreases buckets.len() - k,
{
    if k < buckets.len() {
        lemma_sum_grows(buckets, key, k + 1);
        assert(buckets.take(k + 1).drop_last() =~= buckets.take(k));
    } else {
        assert(buckets.take(k) =~= buckets);
    }
}

proof fn lemma_totals_grow(partials: Seq<AggregatePartial>, key: Seq<char>, k: int)
    requires
        0 <= k <= partials.len(),
    ensures
        bucket_total(partials.take(k), key) <= bucket_total(partials, key),
        count_total(partials.take(k)) <= count_total(partials),
    decreases partials.len() - k,
{
    if k < partials.len() {
        lemma_totals_grow(partials, key, k + 1);
        assert(partials.take(k + 1).drop_last() =~= partials.take(k));
    } else {
        assert(partials.take(k) =~= partials);
    }
}

/// With distinct keys, what a list holds for a key is the value standing there.
proof fn lemma_sum_at(buckets: Seq<(String, u64)>, at: int)
    requires
        distinct_keys(buckets),
        0 <= at < buckets.len(),
    ensures
        bucket_sum(buckets, buckets[at].0@) == buckets[at].1,
    decreases buckets.len(),
{
    let key = buckets[at].0@;
    let rest = buckets.drop_last();
    assert(distinct_keys(rest)) by {
        assert forall|i: int, j: int|
            #![trigger rest[i], rest[j]]
            0 <= i < rest.len() && 0 <= j < rest.len() && rest[i].0@ == rest[j].0@ implies i
            == j by {
            assert(buckets[i].0@ == buckets[j].0@);
        }
    }
    if at < buckets.len() - 1 {
        lemma_sum_at(rest, at);
        assert(buckets[buckets.len() - 1].0@ != key);
    } else {
        lemma_sum_absent(rest, key);
    }
}

proof fn lemma_sum_absent(buckets: Seq<(String, u64)>, key: Seq<char>)
    requires
        forall|i: int| 0 <= i < buckets.len() ==> (#[trigger] buckets[i]).0@ != key,
    ensures
        bucket_sum(buckets, key) == 0,
    decreases buckets.len(),
{
    if buckets.len() > 0 {
        let rest = buckets.drop_last();
        assert(buckets[buckets.len() - 1].0@ != key);
        assert forall|i: int| 0 <= i < rest.len() implies (#[trigger] rest[i]).0@ != key by {
            assert(buckets[i] == rest[i]);
        }
        lemma_sum_absent(rest, key);
    }
}

struct BucketTable {
    buckets: Vec<(String, u64)>,
    slots: StringHashMap<usize>,
}

impl BucketTable {
    spec fn well_formed(self) -> bool {
        &&& distinct_keys(self.buckets@)
        &&& forall|key: Seq<char>| #[trigger]
            self.slots@.contains_key(key) ==> self.slots@[key] < self.buckets@.len()
                && self.buckets@[self.slots@[key] as int].0@ == key
        &&& forall|i: int|
            0 <= i < self.buckets@.len() ==> self.slots@.contains_key(
                (#[trigger] self.buckets@[i]).0@,
            )
    }

    fn add(&mut self, name: &String, value: u64)
        requires
            old(self).well_formed(),
            bucket_sum(old(self).buckets@, name@) + value <= u64::MAX,
        ensures
            final(self).well_formed(),
            forall|key: Seq<char>| #[trigger]
                bucket_sum(final(self).buckets@, key) == bucket_sum(old(self).buckets@, key) + if key
                    == name@ {
                    value as nat
                } else {
                    0
                },
            forall|key: Seq<char>| #[trigger]
                has_bucket(final(self).buckets@, key) <==> has_bucket(old(self).buckets@, key) || key
                    == name@,
    {
        let ghost before = self.buckets@;
        let slot: Option<usize> = match self.slots.get(name.as_str()) {
            Some(at) => Some(*at),
            None => None,
        };
        match slot {
            Some(at) => {
                proof {
                    lemma_sum_at(before, at as int);
                }
                let total: u64 = self.buckets[at].1 + value;
                let key = self.buckets[at].0.clone();
                self.buckets.set(at, (key, total));
                proof {
                    let now = self.buckets@;
                    assert forall|k: Seq<char>| #[trigger] bucket_sum(now, k) == bucket_sum(
                        before,
                        k,
                    ) + if k == name@ {
                        value as nat
                    } else {
                        0
                    } by {
                        lemma_sum_update(before, at as int, (key, total), k);
                    }
                    assert forall|k: Seq<char>| #[trigger] has_bucket(now, k) <==> has_bucket(
                        before,
                        k,
                    ) || k == name@ by {
                        if has_bucket(now, k) {
                            let i = choose|i: int|
                                0 <= i < now.len() && (#[trigger] now[i]).0@ == k;
                            assert(before[i].0@ == k);
                        }
                        if has_bucket(before, k) {
                            let i = choose|i: int|
                                0 <= i < before.len() && (#[trigger] before[i]).0@ == k;
                            assert(now[i].0@ == k);
                        }
                        if k == name@ {
                            assert(now[at as int].0@ == k);
                        }
                    }
                }
            },
            None => {
                let at: usize = self.buckets.len();
                self.slots.insert(name.clone(), at);
                self.buckets.push((name.clone(), value));
                proof {
                    let now = self.buckets@;
                    let added = now[at as int];
                    assert(now =~= before.push(added));
                    assert forall|k: Seq<char>| #[trigger] bucket_sum(now, k) == bucket_sum(
                        before,
                        k,
                    ) + if k == name@ {
                        value as nat
                    } else {
                        0
                    } by {
                        lemma_sum_push(before, added, k);
                    }
                    assert forall|k: Seq<char>| #[trigger] has_bucket(now, k) <==> has_bucket(
                        before,
                        k,
                    ) || k == name@ by {
                        if has_bucket(now, k) {
                            let i = choose|i: int|
                                0 <= i < now.len() && (#[trigger] now[i]).0@ == k;
                            if i < before.len() {
                                assert(before[i].0@ == k);
                            }
                        }
                        if has_bucket(before, k) {
                            let i = choose|i: int|
                                0 <= i < before.len() && (#[trigger] before[i]).0@ == k;
                            assert(now[i].0@ == k);
                        }
                        if k == name@ {
                            assert(now[at as int].0@ == k);
                        }
                    }
                }
            },
        }
    }
}

/// The partials that were sent, in order; an answer without one contributes nothing.
pub open spec fn present(answers: Seq<Option<AggregatePartial>>) -> Seq<AggregatePartial>
    decreases answers.len(),
{
    if answers.len() == 0 {
        Seq::empty()
    } else {
        let before = present(answers.drop_last());
        match answers.last() {
            Some(partial) => before.push(partial),
            None => before,
        }
    }
}

/// Collect an aggregation fan-out: the partials that came, and every shard that gave no answer,
/// named with the reason.
pub fn scatter_aggregate(attempts: Vec<(String, Attempt<Option<AggregatePartial>>)>) -> (collected: (
    Vec<AggregatePartial>,
    Vec<OmittedShard>,
))
    ensures
        collected.0@ == present(answers_of(attempts@)),
        named(collected.1@) == omissions_of(attempts@),
{
    let (answers, omitted) = settle(attempts);
    let mut partials: Vec<AggregatePartial> = Vec::new();
    let ghost all = answers@;
    for answer in rest: answers
        invariant
            rest.seq() == all,
            partials@ == present(all.take(rest.index())),
    {
        proof {
            let seen = all.take(rest.index() + 1);
            assert(seen.drop_last() =~= all.take(rest.index()));
            assert(seen.last() == answer);
        }
        match answer {
            Some(partial) => {
                partials.push(partial);
            },
            None => {},
        }
    }
    assert(all.take(all.len() as int) =~= all);
    (partials, omitted)
}

/// Whether the sums of the partials fit their counters.
pub open spec fn sums_fit(partials: Seq<AggregatePartial>) -> bool {
    &&& count_total(partials) <= u64::MAX
    &&& forall|key: Seq<char>| #[trigger] bucket_total(partials, key) <= u64::MAX
}

/// Whether a bucket list is the merge of the partials' buckets: one bucket per key that any of
/// them mentions, holding the sum.
pub open spec fn merges_buckets(
    buckets: Seq<(String, u64)>,
    partials: Seq<AggregatePartial>,
) -> bool {
    &&& distinct_keys(buckets)
    &&& forall|key: Seq<char>| #[trigger] bucket_sum(buckets, key) == bucket_total(partials, key)
    &&& forall|key: Seq<char>| #[trigger] has_bucket(buckets, key) <==> any_bucket(partials, key)
}

/// Fold shard partials together: counts and buckets are summed, sketches are collected.
pub fn fold_partials(partials: Vec<AggregatePartial>) -> (folded: Folded)
    requires
        sums_fit(partials@),
    ensures
        folded.count == count_total(partials@),
        merges_buckets(folded.buckets@, partials@),
        folded.digests@ == digests_of(partials@),
{
    let mut count: u64 = 0;
    let mut table = BucketTable { buckets: Vec::new(), slots: StringHashMap::new() };
    let mut digests: Vec<Digest> = Vec::new();
    let ghost all = partials@;
    assert(all.take(0) =~= Seq::<AggregatePartial>::empty());
    for p in rest: partials
        invariant
            rest.seq() == all,
            all == partials@,
            sums_fit(all),
            table.well_formed(),
            count == count_total(all.take(rest.index())),
            digests@ == digests_of(all.take(rest.index())),
            forall|key: Seq<char>| #[trigger]
                bucket_sum(table.buckets@, key) == bucket_total(all.take(rest.index()), key),
            forall|key: Seq<char>| #[trigger]
                has_bucket(table.buckets@, key) <==> any_bucket(all.take(rest.index()), key),
    {
        let ghost n = rest.index();
        let ghost seen = all.take(n);
        let ghost next = all.take(n + 1);
        proof {
            assert(next.drop_last() =~= seen);
            assert(next.last() == p);
            lemma_totals_grow(all, Seq::empty(), n + 1);
        }
        count = count + p.count;
        let buckets = p.buckets;
        let mut j: usize = 0;
        assert(buckets@.take(0) =~= Seq::<(String, u64)>::empty());
        while j < buckets.len()
            invariant
                j <= buckets@.len(),
                table.well_formed(),
                sums_fit(all),
                0 <= n < all.len(),
                seen == all.take(n),
                next == all.take(n + 1),
                next.drop_last() == seen,
                next.last().buckets@ == buckets@,
                next.len() == n + 1,
                forall|key: Seq<char>| #[trigger]
                    bucket_sum(table.buckets@, key) == bucket_total(seen, key) + bucket_sum(
                        buckets@.take(j as int),
                        key,
                    ),
                forall|key: Seq<char>| #[trigger]
                    has_bucket(table.buckets@, key) <==> any_bucket(seen, key) || has_bucket(
                        buckets@.take(j as int),
                        key,
                    ),
            decreases buckets@.len() - j,
        {
            let ghost part = buckets@.take(j as int);
            let ghost more = buckets@.take(j + 1);
            let ghost bucket = buckets@[j as int];
            let ghost before = table.buckets@;
            proof {
                assert(more =~= part.push(bucket));
                lemma_sum_push(part, bucket, bucket.0@);
                lemma_sum_grows(buckets@, bucket.0@, j + 1);
                lemma_totals_grow(all, bucket.0@, n + 1);
                assert(bucket_total(next, bucket.0@) == bucket_total(seen, bucket.0@) + bucket_sum(
                    buckets@,
                    bucket.0@,
                ));
                assert(bucket_total(all, bucket.0@) <= u64::MAX);
                assert(bucket_sum(before, bucket.0@) == bucket_total(seen, bucket.0@) + bucket_sum(
                    part,
                    bucket.0@,
                ));
            }
            table.add(&buckets[j].0, buckets[j].1);
            proof {
                assert forall|key: Seq<char>| #[trigger] bucket_sum(table.buckets@, key)
                    == bucket_total(seen, key) + bucket_sum(more, key) by {
                    lemma_sum_push(part, bucket, key);
                    assert(bucket_sum(before, key) == bucket_total(seen, key) + bucket_sum(
                        part,
                        key,
                    ));
                }
                assert forall|key: Seq<char>| #[trigger] has_bucket(table.buckets@, key)
                    <==> any_bucket(seen, key) || has_bucket(more, key) by {
                    assert(has_bucket(before, key) <==> any_bucket(seen, key) || has_bucket(
                        part,
                        key,
                    ));
                    if has_bucket(more, key) {
                        let i = choose|i: int| 0 <= i < more.len() && (#[trigger] more[i]).0@ == key;
                        if i < part.len() {
                            assert(part[i].0@ == key);
                        }
                    }
                    if has_bucket(part, key) {
                        let i = choose|i: int| 0 <= i < part.len() && (#[trigger] part[i]).0@ == key;
                        assert(more[i].0@ == key);
                    }
                    if key == bucket.0@ {
                        assert(more[j as int].0@ == key);
                    }
                }
            }
            j = j + 1;
        }
        match p.digest {
            Some(digest) => {
                digests.push(digest);
            },
            None => {},
        }
        proof {
            assert(buckets@.take(j as int) =~= buckets@);
            assert forall|key: Seq<char>| #[trigger] bucket_sum(table.buckets@, key)
                == bucket_total(next, key) by {}
            assert forall|key: Seq<char>| #[trigger] has_bucket(table.buckets@, key) <==> any_bucket(
                next,
                key,
            ) by {
                if any_bucket(seen, key) {
                    let i = choose|i: int|
                        0 <= i < seen.len() && has_bucket((#[trigger] seen[i]).buckets@, key);
                    assert(next[i] == seen[i]);
                }
                if has_bucket(buckets@, key) {
                    assert(has_bucket(next[n].buckets@, key));
                }
                if any_bucket(next, key) {
                    let i = choose|i: int|
                        0 <= i < next.len() && has_bucket((#[trigger] next[i]).buckets@, key);
                    if i < n {
                        assert(seen[i] == next[i]);
                    }
                }
            }
        }
    }
    assert(all.take(all.len() as int) =~= all);
    Folded { count, buckets: table.buckets, digests }
}

/// The percentiles that a merge reports: the requested ones with their values, for a percentile
/// aggregation over data.
pub open spec fn reported(
    kind: AggKind,
    has_data: bool,
    requested: Seq<Double>,
    values: Seq<Double>,
) -> Seq<Percentile> {
    if kind == AggKind::Percentiles && has_data {
        Seq::new(requested.len(), |i: int| Percentile { p: requested[i], value: values[i] })
    } else {
        Seq::empty()
    }
}

/// Merge shard partials into one, once their sketches have been united into `digest` (`has_data`
/// tells whether it holds any weight, and `values` what it says of the requested percentiles).
/// The sketch and the percentiles are part of a percentile aggregation only.
pub fn merge_partials(
    kind: AggKind,
    folded: Folded,
    digest: Digest,
    has_data: bool,
    requested: &Vec<Double>,
    values: &Vec<Double>,
) -> (merged: (AggregatePartial, Vec<Percentile>))
    requires
        requested@.len() == values@.len(),
    ensures
        merged.0.kind == kind,
        merged.0.count == folded.count,
        merged.0.buckets == folded.buckets,
        merged.0.digest == if kind == AggKind::Percentiles {
            Some(digest)
        } else {
            None
        },
        merged.1@ == reported(kind, has_data, requested@, values@),
{
    let wants_percentiles = kind == AggKind::Percentiles;
    let mut percentiles: Vec<Percentile> = Vec::new();
    if wants_percentiles && has_data {
        let mut i: usize = 0;
        while i < requested.len()
            invariant
                i <= requested@.len(),
                requested@.len() == values@.len(),
                percentiles@.len() == i,
                forall|j: int|
                    0 <= j < i ==> #[trigger] percentiles@[j] == (Percentile {
                        p: requested@[j],
                        value: values@[j],
                    }),
            decreases requested@.len() - i,
        {
            percentiles.push(Percentile { p: requested[i], value: values[i] });
            i = i + 1;
        }
    }
    assert(percentiles@ =~= reported(kind, has_data, requested@, values@));
    let digest = if wants_percentiles {
        Some(digest)
    } else {
        None
    };
    (
        AggregatePartial { kind, count: folded.count, buckets: folded.buckets, digest },
        percentiles,
    )
}

/// Sums over a split corpus add up: what two groups of shards hold together is the sum of what
/// each holds, key by key.
pub proof fn law_sharding_is_invisible(
    first: Seq<AggregatePartial>,
    second: Seq<AggregatePartial>,
    key: Seq<char>,
)
    ensures
        count_total(first + second) == count_total(first) + count_total(second),
        bucket_total(first + second, key) == bucket_total(first, key) + bucket_total(second, key),
        any_bucket(first + second, key) <==> any_bucket(first, key) || any_bucket(second, key),
        digests_of(first + second) == digests_of(first) + digests_of(second),
    decreases second.len(),
{
    let both = first + second;
    if second.len() == 0 {
        assert(both =~= first);
        assert(digests_of(first) + digests_of(second) =~= digests_of(first));
    } else {
        law_sharding_is_invisible(first, second.drop_last(), key);
        assert(both.drop_last() =~= first + second.drop_last());
        assert(both.last() == second.last());
        assert(digests_of(both) =~= digests_of(first) + digests_of(second));
    }
    if any_bucket(both, key) {
        let i = choose|i: int|
            0 <= i < both.len() && has_bucket((#[trigger] both[i]).buckets@, key);
        if i < first.len() {
            assert(first[i] == both[i]);
        } else {
            assert(second[i - first.len()] == both[i]);
        }
    }
    if any_bucket(first, key) {
        let i = choose|i: int|
            0 <= i < first.len() && has_bucket((#[trigger] first[i]).buckets@, key);
        assert(both[i] == first[i]);
    }
    if any_bucket(second, key) {
        let i = choose|i: int|
            0 <= i < second.len() && has_bucket((#[trigger] second[i]).buckets@, key);
        assert(both[first.len() + i] == second[i]);
    }
}

/// Merging is closed and associative: a merged partial stands for the partials behind it, so
/// that merging it with further ones gives what merging them all at once gives.
pub proof fn law_merging_is_associative(
    merged: AggregatePartial,
    first: Seq<AggregatePartial>,
    second: Seq<AggregatePartial>,
    key: Seq<char>,
)
    requires
        merged.count == count_total(first),
        merges_buckets(merged.buckets@, first),
    ensures
        count_total(seq![merged] + second) == count_total(first + second),
        bucket_total(seq![merged] + second, key) == bucket_total(first + second, key),
        any_bucket(seq![merged] + second, key) <==> any_bucket(first + second, key),
{
    let one = seq![merged];
    law_sharding_is_invisible(first, second, key);
    law_sharding_is_invisible(one, second, key);
    reveal_with_fuel(bucket_total, 2);
    reveal_with_fuel(count_total, 2);
    assert(one.drop_last() =~= Seq::<AggregatePartial>::empty());
    assert(bucket_total(one, key) == bucket_sum(merged.buckets@, key));
    assert(any_bucket(one, key) <==> has_bucket(merged.buckets@, key)) by {
        if has_bucket(merged.buckets@, key) {
            assert(one[0] == merged);
        }
    }
}

/// The order of the shards does not matter: partials in any other order add up to the same.
pub proof fn law_merging_ignores_shard_order(
    a: Seq<AggregatePartial>,
    b: Seq<AggregatePartial>,
    key: Seq<char>,
)
    requires
        same_elements(a, b),
    ensures
        count_total(a) == count_total(b),
        bucket_total(a, key) == bucket_total(b, key),
        any_bucket(a, key) <==> any_bucket(b, key),
    decreases a.len(),
{
    broadcast use vstd::seq_lib::group_to_multiset_ensures;

    lemma_same_elements(a, b);
    if a.len() > 0 {
        let x = a.last();
        assert(a[a.len() - 1] == x);
        assert(b.contains(x));
        let j = choose|j: int| 0 <= j < b.len() && b[j] == x;
        let rest = b.remove(j);
        assert(a.drop_last() =~= a.remove(a.len() - 1));
        a.to_multiset_ensures();
        b.to_multiset_ensures();
        assert(a.drop_last().to_multiset() =~= a.to_multiset().remove(x));
        assert(rest.to_multiset() =~= b.to_multiset().remove(x));
        law_merging_ignores_shard_order(a.drop_last(), rest, key);
        let front = b.take(j);
        let one = Seq::<AggregatePartial>::empty().push(x);
        let back = b.skip(j + 1);
        assert(rest =~= front + back);
        assert(b =~= (front + one) + back);
        assert(a =~= a.drop_last() + one);
        law_sharding_is_invisible(front, back, key);
        law_sharding_is_invisible(front + one, back, key);
        law_sharding_is_invisible(front, one, key);
        law_sharding_is_invisible(a.drop_last(), one, key);
    }
}

/// Partials merged in any two orders agree on the count, on every bucket, and on which buckets
/// there are.
pub proof fn law_merged_partials_agree(
    a: Seq<AggregatePartial>,
    b: Seq<AggregatePartial>,
    merged_a: AggregatePartial,
    merged_b: AggregatePartial,
    key: Seq<char>,
)
    requires
        same_elements(a, b),
        merged_a.count == count_total(a),
        merges_buckets(merged_a.buckets@, a),
        merged_b.count == count_total(b),
        merges_buckets(merged_b.buckets@, b),
    ensures
        merged_a.count == merged_b.count,
        bucket_sum(merged_a.buckets@, key) == bucket_sum(merged_b.buckets@, key),
        has_bucket(merged_a.buckets@, key) <==> has_bucket(merged_b.buckets@, key),
{
    law_merging_ignores_shard_order(a, b, key);
}

/// Whether a bucket is listed before another: it is bigger, or as big with an earlier key.
pub open spec fn bigger(a: (String, u64), b: (String, u64)) -> bool {
    a.1 > b.1 || (a.1 == b.1 && text_before(a.0@, b.0@))
}

/// Buckets rank by size, the biggest first, equal ones by key.
impl Ranked for (String, u64) {
    open spec fn ranks_before(self, other: Self) -> bool {
        bigger(self, other)
    }

    fn precedes(&self, other: &Self) -> (result: bool) {
        self.1 > other.1 || (self.1 == other.1 && comes_before(self.0.as_str(), other.0.as_str()))
    }
}

/// Whether `full` arranges the buckets with the biggest first, equal ones by key.
pub open spec fn biggest_first(full: Seq<(String, u64)>, buckets: Seq<(String, u64)>) -> bool {
    same_elements(full, buckets) && is_ranked(full)
}

/// Whether `top` are the `n` biggest buckets, the biggest first, equal ones by key.
pub open spec fn is_top(top: Seq<(String, u64)>, buckets: Seq<(String, u64)>, n: int) -> bool {
    exists|full: Seq<(String, u64)>| #[trigger]
        biggest_first(full, buckets) && top == if full.len() > n {
            full.take(n)
        } else {
            full
        }
}

/// Buckets can always be ranked.
proof fn lemma_buckets_orderable(list: Seq<(String, u64)>)
    ensures
        orderable(list),
{
    assert forall|i: int, j: int|
        #![trigger list[i], list[j]]
        0 <= i < list.len() && 0 <= j < list.len() && list[i].ranks_before(
            list[j],
        ) implies !list[j].ranks_before(list[i]) by {
        let a = list[i].0@;
        let b = list[j].0@;
        if text_before(a, b) && text_before(b, a) {
            crate::text::lemma_text_before_transitive(a, b, a);
            crate::text::lemma_text_before_irreflexive(a);
        }
    }
    assert forall|i: int, j: int, k: int|
        #![trigger list[i], list[j], list[k]]
        0 <= i < list.len() && 0 <= j < list.len() && 0 <= k < list.len()
            && !list[j].ranks_before(list[i]) && !list[k].ranks_before(
            list[j],
        ) implies !list[k].ranks_before(list[i]) by {
        let a = list[i].0@;
        let b = list[j].0@;
        let c = list[k].0@;
        crate::text::lemma_text_before_total(a, b);
        crate::text::lemma_text_before_total(b, c);
        crate::text::lemma_text_before_irreflexive(a);
        if text_before(a, b) && text_before(b, c) {
            crate::text::lemma_text_before_transitive(a, b, c);
        }
        if text_before(a, c) && text_before(c, a) {
            crate::text::lemma_text_before_transitive(a, c, a);
        }
    }
}

/// The `n` biggest buckets, the biggest first, equal ones by key.
pub fn top_buckets(buckets: &Vec<(String, u64)>, n: usize) -> (top: Vec<(String, u64)>)
    ensures
        is_top(top@, buckets@, n as int),
        top@.len() <= n,
{
    let mut list: Vec<(String, u64)> = Vec::new();
    let mut i: usize = 0;
    while i < buckets.len()
        invariant
            i <= buckets@.len(),
            list@ == buckets@.take(i as int),
        decreases buckets@.len() - i,
    {
        list.push((buckets[i].0.clone(), buckets[i].1));
        assert(list@ =~= buckets@.take(i + 1));
        i = i + 1;
    }
    assert(buckets@.take(i as int) =~= buckets@);
    proof {
        lemma_buckets_orderable(list@);
    }
    let mut top = rank(list);
    let ghost full = top@;
    assert(biggest_first(full, buckets@));
    if top.len() > n {
        top.truncate(n);
        assert(top@ =~= full.take(n as int));
    }
    top
}

/// A single partial merges to itself: its own count, its own buckets and its own digest.
pub proof fn law_one_partial_merges_to_itself(partial: AggregatePartial, key: Seq<char>)
    ensures
        count_total(seq![partial]) == partial.count,
        bucket_total(seq![partial], key) == bucket_sum(partial.buckets@, key),
        any_bucket(seq![partial], key) <==> has_bucket(partial.buckets@, key),
        partial.digest is Some ==> digests_of(seq![partial]) == seq![partial.digest->0],
        partial.digest is None ==> digests_of(seq![partial]).len() == 0,
{
    let none = Seq::<AggregatePartial>::empty();
    assert(seq![partial].drop_last() =~= none);
    assert(count_total(none) == 0 && bucket_total(none, key) == 0);
    assert(digests_of(none) =~= Seq::empty());
    assert(seq![partial][0] == partial);
    if partial.digest is Some {
        assert(digests_of(seq![partial]) =~= seq![partial.digest->0]);
    }
}

/// A list of buckets holds under a key the sum of the buckets of that key, whatever others stand
/// around them.
pub proof fn law_a_bucket_counts_under_its_key(
    buckets: Seq<(String, u64)>,
    bucket: (String, u64),
    key: Seq<char>,
)
    ensures
        bucket_sum(Seq::empty(), key) == 0,
        bucket_sum(buckets.push(bucket), key) == bucket_sum(buckets, key) + if bucket.0@ == key {
            bucket.1 as int
        } else {
            0
        },
{
    lemma_sum_push(buckets, bucket, key);
}

/// Each merged bucket holds the sum of the shards' buckets under its key, every key of a shard has
/// one, and no key has two.
pub proof fn law_a_merged_bucket_is_the_sum(
    buckets: Seq<(String, u64)>,
    partials: Seq<AggregatePartial>,
    i: int,
    p: int,
    b: int,
)
    requires
        merges_buckets(buckets, partials),
    ensures
        0 <= i < buckets.len() ==> buckets[i].1 == bucket_total(partials, buckets[i].0@) && exists|
            q: int,
            c: int,
        |
            #![trigger partials[q].buckets@[c]]
            0 <= q < partials.len() && 0 <= c < partials[q].buckets@.len()
                && partials[q].buckets@[c].0@ == buckets[i].0@,
        0 <= p < partials.len() && 0 <= b < partials[p].buckets@.len() ==> exists|k: int|
            0 <= k < buckets.len() && (#[trigger] buckets[k]).0@ == partials[p].buckets@[b].0@,
        forall|j: int, k: int|
            #![trigger buckets[j], buckets[k]]
            0 <= j < k < buckets.len() ==> buckets[j].0@ != buckets[k].0@,
{
    if 0 <= i < buckets.len() {
        lemma_sum_at(buckets, i);
        let key = buckets[i].0@;
        assert(has_bucket(buckets, key));
        assert(any_bucket(partials, key));
        let q = choose|q: int|
            0 <= q < partials.len() && has_bucket((#[trigger] partials[q]).buckets@, key);
        let c = choose|c: int|
            0 <= c < partials[q].buckets@.len() && (#[trigger] partials[q].buckets@[c]).0@ == key;
        assert(partials[q].buckets@[c].0@ == key);
    }
    if 0 <= p < partials.len() && 0 <= b < partials[p].buckets@.len() {
        let key = partials[p].buckets@[b].0@;
        assert(has_bucket(partials[p].buckets@, key));
        assert(any_bucket(partials, key));
        assert(has_bucket(buckets, key));
    }
    assert forall|j: int, k: int|
        #![trigger buckets[j], buckets[k]]
        0 <= j < k < buckets.len() implies buckets[j].0@ != buckets[k].0@ by {}
}

/// The top of a list of buckets are the ones with the highest counts, highest first and alike
/// counts by key: none left out counts more than one listed, and as many are listed as were asked
/// for, or all.
pub proof fn law_top_buckets_count_most(
    top: Seq<(String, u64)>,
    buckets: Seq<(String, u64)>,
    n: int,
    i: int,
    j: int,
)
    requires
        is_top(top, buckets, n),
        n >= 0,
    ensures
        top.len() == if buckets.len() < n {
            buckets.len() as int
        } else {
            n
        },
        0 <= i < j < top.len() ==> top[i].1 >= top[j].1,
        0 <= i < j < top.len() && top[i].1 == top[j].1 ==> !text_before(top[j].0@, top[i].0@),
        0 <= i < top.len() ==> buckets.contains(top[i]),
        forall|x: (String, u64)|
            #![trigger buckets.contains(x)]
            0 <= i < top.len() && buckets.contains(x) && !top.contains(x) ==> top[i].1 >= x.1,
{
    let full = choose|full: Seq<(String, u64)>| #[trigger]
        biggest_first(full, buckets) && top == if full.len() > n {
            full.take(n)
        } else {
            full
        };
    crate::ranking::lemma_same_elements(full, buckets);
    if 0 <= i < top.len() {
        assert(top[i] == full[i]);
        assert(full.contains(full[i]));
        if i < j < top.len() {
            assert(top[j] == full[j]);
            assert(!full[j].ranks_before(full[i]));
        }
        assert forall|x: (String, u64)|
            #![trigger buckets.contains(x)]
            buckets.contains(x) && !top.contains(x) implies top[i].1 >= x.1 by {
            assert(full.contains(x));
            let at = choose|at: int| 0 <= at < full.len() && full[at] == x;
            if at < top.len() {
                assert(top[at] == x);
            }
            assert(!full[at].ranks_before(full[i]));
        }
    }
}

/// Percentiles are reported where they were asked for and there is data: each requested rank
/// with its own value, in the order of the request.
pub proof fn law_each_percentile_has_its_value(
    requested: Seq<Double>,
    values: Seq<Double>,
    has_data: bool,
    kind: AggKind,
    i: int,
)
    ensures
        kind == AggKind::Percentiles && has_data ==> reported(kind, has_data, requested, values).len()
            == requested.len() && (0 <= i < requested.len() ==> reported(
            kind,
            has_data,
            requested,
            values,
        )[i].p == requested[i] && reported(kind, has_data, requested, values)[i].value
            == values[i]),
        kind != AggKind::Percentiles || !has_data ==> reported(
            kind,
            has_data,
            requested,
            values,
        ).len() == 0,
{
}

/// The partials of the shards that had one are handed on, in order.
pub proof fn law_partials_are_gathered_in_order(
    partial: AggregatePartial,
    first: Seq<Option<AggregatePartial>>,
    second: Seq<Option<AggregatePartial>>,
)
    ensures
        present(seq![Some(partial)]) == seq![partial],
        present(seq![None::<AggregatePartial>]).len() == 0,
        present(first + second) == present(first) + present(second),
    decreases second.len(),
{
    let none = Seq::<Option<AggregatePartial>>::empty();
    assert(present(none) =~= Seq::empty());
    assert(seq![Some(partial)].drop_last() =~= none);
    assert(seq![None::<AggregatePartial>].drop_last() =~= none);
    assert(present(seq![Some(partial)]) =~= seq![partial]);
    if second.len() == 0 {
        assert(first + second =~= first);
        assert(present(first) + present(second) =~= present(first));
    } else {
        law_partials_are_gathered_in_order(partial, first, second.drop_last());
        assert((first + second).drop_last() =~= first + second.drop_last());
        assert(present(first + second) =~= present(first) + present(second));
    }
}

} // verus!
