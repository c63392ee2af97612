//! Feature hashing: a text as a bag of tokens hashed into a fixed number of signed buckets.
//!
//! Embeddings are a distributed contract, exactly like the shard hash: replicas and queries must
//! land in the same space on every node, so the hash is the seedless FNV-1a.

use vstd::prelude::*;
use vstd::utf8::encode_utf8;

use crate::ranking::{lemma_same_elements, same_elements};
use crate::shard::{fnv1a, fnv1a_64};
use crate::text::texts;
use crate::tokens::{tokenize, tokens, tokens_known};

verus! {

/// The number of buckets.
pub const EMBED_DIM: usize = 128;

/// The largest magnitude of a bucket: a single-precision counter stops growing there, because
/// the next integer is not representable and rounds back.
pub const BUCKET_LIMIT: i32 = 0x0100_0000;

/// The bucket that a token falls into.
pub open spec fn bucket_of(token: Seq<char>) -> int {
    fnv1a(encode_utf8(token)) as int % EMBED_DIM as int
}

/// Whether a token counts up: the highest bit of its hash.
pub open spec fn counts_up(token: Seq<char>) -> bool {
    fnv1a(encode_utf8(token)) >= 0x8000_0000_0000_0000
}

/// A bucket after a token fell into it.
pub open spec fn stepped(value: i32, up: bool) -> i32 {
    if up {
        if value >= BUCKET_LIMIT {
            value
        } else {
            (value + 1) as i32
        }
    } else {
        if value <= -BUCKET_LIMIT {
            value
        } else {
            (value - 1) as i32
        }
    }
}

/// The buckets of a list of tokens.
pub open spec fn buckets_of(list: Seq<Seq<char>>) -> Seq<i32>
    decreases list.len(),
{
    if list.len() == 0 {
        Seq::new(EMBED_DIM as nat, |i: int| 0i32)
    } else {
        let before = buckets_of(list.drop_last());
        let at = bucket_of(list.last());
        before.update(at, stepped(before[at], counts_up(list.last())))
    }
}

/// Feature-hashing embedder: each token's hash picks a bucket and a sign, and the bucket counts.
#[derive(Clone, Copy, Debug)]
pub struct HashEmbedder;

impl HashEmbedder {
    /// The signed bucket counts of `text`, before they are scaled to unit length.
    pub fn buckets(&self, text: &str) -> (counts: Vec<i32>)
        ensures
            counts@ == buckets_of(tokens(text@)),
            counts@.len() == EMBED_DIM,
            tokens_known(text@),
    {
        let list = tokenize(text);
        let mut counts: Vec<i32> = Vec::new();
        let mut k: usize = 0;
        while k < EMBED_DIM
            invariant
                k <= EMBED_DIM,
                counts@ == Seq::new(k as nat, |i: int| 0i32),
            decreases EMBED_DIM - k,
        {
            counts.push(0);
            assert(counts@ =~= Seq::new((k + 1) as nat, |i: int| 0i32));
            k = k + 1;
        }
        let mut i: usize = 0;
        assert(texts(list@).take(0) =~= Seq::<Seq<char>>::empty());
        while i < list.len()
            invariant
                i <= list@.len(),
                counts@.len() == EMBED_DIM,
                counts@ == buckets_of(texts(list@).take(i as int)),
            decreases list@.len() - i,
        {
            proof {
                let seen = texts(list@).take(i + 1);
                assert(seen.drop_last() =~= texts(list@).take(i as int));
                assert(seen.last() == list@[i as int]@);
            }
            let hash: u64 = fnv1a_64(list[i].as_str().as_bytes());
            let at: usize = (hash % (EMBED_DIM as u64)) as usize;
            let value: i32 = counts[at];
            if hash >= 0x8000_0000_0000_0000 {
                if value < BUCKET_LIMIT {
                    counts.set(at, value + 1);
                }
            } else if value > -BUCKET_LIMIT {
                counts.set(at, value - 1);
            }
            assert(counts@ =~= buckets_of(texts(list@).take(i + 1)));
            i = i + 1;
        }
        assert(texts(list@).take(i as int) =~= texts(list@));
        counts
    }

    /// The number of buckets.
    pub fn dim(&self) -> (n: usize)
        ensures
            n == EMBED_DIM,
    {
        EMBED_DIM
    }
}

/// What a token adds to a bucket that does not saturate.
pub open spec fn weight(token: Seq<char>, bucket: int) -> int {
    if bucket_of(token) != bucket {
        0
    } else if counts_up(token) {
        1
    } else {
        -1
    }
}

/// What tokens add up to in a bucket.
pub open spec fn net(list: Seq<Seq<char>>, bucket: int) -> int
    decreases list.len(),
{
    if list.len() == 0 {
        0
    } else {
        net(list.drop_last(), bucket) + weight(list.last(), bucket)
    }
}

proof fn lemma_net_bounded(list: Seq<Seq<char>>, bucket: int)
    ensures
        -list.len() <= net(list, bucket) <= list.len(),
    decreases list.len(),
{
    if list.len() > 0 {
        lemma_net_bounded(list.drop_last(), bucket);
    }
}

proof fn lemma_net_concat(a: Seq<Seq<char>>, b: Seq<Seq<char>>, bucket: int)
    ensures
        net(a + b, bucket) == net(a, bucket) + net(b, bucket),
    decreases b.len(),
{
    if b.len() == 0 {
        assert(a + b =~= a);
    } else {
        assert((a + b).drop_last() =~= a + b.drop_last());
        lemma_net_concat(a, b.drop_last(), bucket);
    }
}

/// A bucket holds the sum of what its tokens add, as long as there are no more tokens than a bucket
/// can count.
pub proof fn law_buckets_are_sums(list: Seq<Seq<char>>, bucket: int)
    requires
        list.len() <= BUCKET_LIMIT,
        0 <= bucket < EMBED_DIM,
    ensures
        buckets_of(list).len() == EMBED_DIM,
        buckets_of(list)[bucket] == net(list, bucket),
    decreases list.len(),
{
    if list.len() > 0 {
        let before = list.drop_last();
        law_buckets_are_sums(before, bucket);
        law_buckets_are_sums(before, bucket_of(list.last()));
        lemma_net_bounded(before, bucket);
    }
}

proof fn lemma_net_permuted(a: Seq<Seq<char>>, b: Seq<Seq<char>>, bucket: int)
    requires
        same_elements(a, b),
    ensures
        net(a, bucket) == net(b, bucket),
    decreases a.len(),
{
    broadcast use vstd::seq_lib::group_to_multiset_ensures;

    lemma_same_elements(a, b);
    if a.len() > 0 {
        let x = a.last();
        assert(a[a.len() - 1] == x);
        assert(b.contains(x));
        let j = choose|j: int| 0 <= j < b.len() && b[j] == x;
        let rest = b.remove(j);
        assert(a.drop_last() =~= a.remove(a.len() - 1));
        a.to_multiset_ensures();
        b.to_multiset_ensures();
        assert(a.drop_last().to_multiset() =~= a.to_multiset().remove(x));
        assert(rest.to_multiset() =~= b.to_multiset().remove(x));
        lemma_net_permuted(a.drop_last(), rest, bucket);
        let front = b.take(j);
        let one = Seq::<Seq<char>>::empty().push(x);
        let back = b.skip(j + 1);
        assert(rest =~= front + back);
        assert(b =~= (front + one) + back);
        lemma_net_concat(front, back, bucket);
        lemma_net_concat(front + one, back, bucket);
        lemma_net_concat(front, one, bucket);
        reveal_with_fuel(net, 2);
        assert(one.drop_last() =~= Seq::<Seq<char>>::empty());
        assert(net(one, bucket) == weight(x, bucket));
    }
}

/// A text is a bag of tokens: the same tokens in another order give the same buckets, as long as
/// there are no more tokens than a bucket can count.
pub proof fn law_token_order_does_not_matter(a: Seq<Seq<char>>, b: Seq<Seq<char>>)
    requires
        same_elements(a, b),
        a.len() <= BUCKET_LIMIT,
    ensures
        buckets_of(a) == buckets_of(b),
{
    lemma_same_elements(a, b);
    law_buckets_are_sums(a, 0);
    law_buckets_are_sums(b, 0);
    assert forall|bucket: int| 0 <= bucket < EMBED_DIM implies buckets_of(a)[bucket] == buckets_of(
        b,
    )[bucket] by {
        law_buckets_are_sums(a, bucket);
        law_buckets_are_sums(b, bucket);
        lemma_net_permuted(a, b, bucket);
    }
    assert(buckets_of(a) =~= buckets_of(b));
}

/// A text without tokens has no direction: every bucket is zero.
pub proof fn law_no_tokens_give_no_direction(text: Seq<char>)
    requires
        tokens(text).len() == 0,
    ensures
        buckets_of(tokens(text)).len() == EMBED_DIM,
        forall|bucket: int| 0 <= bucket < EMBED_DIM ==> buckets_of(tokens(text))[bucket] == 0,
{
}

/// A token moves one bucket by one and no other: the bucket that its hash names, modulo the
/// dimension, up where the top bit of the hash is set and down where it is not, as far as a bucket
/// goes.
pub proof fn law_a_token_moves_one_bucket(list: Seq<Seq<char>>, token: Seq<char>, bucket: int)
    requires
        0 <= bucket < 128,
    ensures
        ({
            let before = buckets_of(list);
            let after = buckets_of(list.push(token));
            let hash = fnv1a(encode_utf8(token));
            let up = hash >= 0x8000_0000_0000_0000;
            &&& after.len() == 128
            &&& -0x100_0000 <= before[bucket] <= 0x100_0000
            &&& hash as int % 128 != bucket ==> after[bucket] == before[bucket]
            &&& hash as int % 128 == bucket && up && before[bucket] < 0x100_0000 ==> after[bucket]
                == before[bucket] + 1
            &&& hash as int % 128 == bucket && !up && before[bucket] > -0x100_0000 ==> after[bucket]
                == before[bucket] - 1
            &&& hash as int % 128 == bucket && up && before[bucket] == 0x100_0000 ==> after[bucket]
                == before[bucket]
            &&& hash as int % 128 == bucket && !up && before[bucket] == -0x100_0000
                ==> after[bucket] == before[bucket]
        }),
        buckets_of(Seq::empty())[bucket] == 0,
{
    assert(list.push(token).drop_last() =~= list);
    lemma_buckets_bounded(list);
}

proof fn lemma_buckets_bounded(list: Seq<Seq<char>>)
    ensures
        buckets_of(list).len() == EMBED_DIM,
        forall|b: int|
            0 <= b < EMBED_DIM ==> -BUCKET_LIMIT <= #[trigger] buckets_of(list)[b] <= BUCKET_LIMIT,
    decreases list.len(),
{
    if list.len() > 0 {
        lemma_buckets_bounded(list.drop_last());
    }
}

} // verus!
