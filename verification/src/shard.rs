//! Shard placement: map a document's `icao24` to a shard index in `0..N`.
//!
//! The shard function is a distributed contract: every node, on every machine and every
//! restart, must compute the same shard for the same aircraft. FNV-1a is fixed, seedless and
//! fully specified, so the placement never moves under a process restart or an upgrade.

use vstd::prelude::*;
use vstd::utf8::encode_utf8;

verus! {

/// 64-bit FNV-1a offset basis.
pub const FNV_OFFSET_BASIS: u64 = 0xcbf2_9ce4_8422_2325;

/// 64-bit FNV-1a prime.
pub const FNV_PRIME: u64 = 0x0000_0100_0000_01b3;

/// The number of shards of a cluster: a runtime parameter that is never zero.
#[derive(Clone, Copy, Debug)]
pub struct ShardCount {
    count: u32,
}

impl ShardCount {
    #[verifier::type_invariant]
    spec fn positive(self) -> bool {
        self.count > 0
    }

    /// The count as a number.
    pub closed spec fn spec_get(self) -> u32 {
        self.count
    }

    /// A shard count of `count`, or `None` for zero.
    pub fn new(count: u32) -> (result: Option<ShardCount>)
        ensures
            result is Some <==> count > 0,
            result is Some ==> result->0.spec_get() == count,
    {
        if count == 0 {
            None
        } else {
            Some(ShardCount { count })
        }
    }

    /// The count as a number, at least one.
    pub fn get(self) -> (count: u32)
        ensures
            count == self.spec_get(),
            count > 0,
    {
        proof {
            use_type_invariant(&self);
        }
        self.count
    }
}

/// One FNV-1a round: XOR the byte in first, multiply by the prime second, modulo 2^64.
pub open spec fn fnv1a_step(hash: u64, byte: u8) -> u64 {
    (((hash ^ (byte as u64)) * FNV_PRIME) % 0x1_0000_0000_0000_0000) as u64
}

/// The FNV-1a hash of a byte string: the rounds applied from the offset basis.
pub open spec fn fnv1a(key: Seq<u8>) -> u64 {
    key.fold_left(FNV_OFFSET_BASIS, |hash: u64, byte: u8| fnv1a_step(hash, byte))
}

/// The shard that owns `icao24` in a cluster of `count` shards.
pub open spec fn shard_of(icao24: Seq<char>, count: u32) -> int {
    fnv1a(encode_utf8(icao24)) as int % count as int
}

/// Deterministic 64-bit FNV-1a hash of `key`.
pub fn fnv1a_64(key: &[u8]) -> (hash: u64)
    ensures
        hash == fnv1a(key@),
{
    let mut hash: u64 = FNV_OFFSET_BASIS;
    let mut i: usize = 0;
    let ghost step = |hash: u64, byte: u8| fnv1a_step(hash, byte);
    while i < key.len()
        invariant
            i <= key@.len(),
            step == (|hash: u64, byte: u8| fnv1a_step(hash, byte)),
            hash == key@.take(i as int).fold_left(FNV_OFFSET_BASIS, step),
        decreases key@.len() - i,
    {
        let mixed: u64 = hash ^ (key[i] as u64);
        proof {
            let next = key@.take(i + 1);
            assert(next.drop_last() =~= key@.take(i as int));
            assert(next.last() == key@[i as int]);
            next.lemma_fold_left_split(FNV_OFFSET_BASIS, step, i as int);
            assert(next.subrange(0, i as int) =~= key@.take(i as int));
            assert(next.subrange(i as int, i + 1) =~= seq![key@[i as int]]);
            reveal_with_fuel(Seq::fold_left, 2);
        }
        hash = mixed.wrapping_mul(FNV_PRIME);
        i = i + 1;
    }
    assert(key@.take(i as int) =~= key@);
    hash
}

/// Map an `icao24` to a shard index in `0..shard_count`: hash modulo the shard count.
pub fn shard_for(icao24: &str, shard_count: ShardCount) -> (shard: u32)
    ensures
        shard == shard_of(icao24@, shard_count.spec_get()),
        shard < shard_count.spec_get(),
{
    let hash = fnv1a_64(icao24.as_bytes());
    let count: u32 = shard_count.get();
    (hash % (count as u64)) as u32
}

/// Every document has an owner: the shard index is always within the cluster.
pub proof fn law_shard_in_range(icao24: Seq<char>, count: u32)
    requires
        count > 0,
    ensures
        0 <= shard_of(icao24, count) < count,
{
}

/// A cluster of one shard keeps every document on shard zero.
pub proof fn law_single_shard_owns_everything(icao24: Seq<char>)
    ensures
        shard_of(icao24, 1) == 0,
{
}

/// The hash starts from the offset basis and takes in the key byte by byte: each byte is mixed into
/// the low bits, and the whole is multiplied by the prime, modulo two to the power of sixty-four.
pub proof fn law_the_hash_takes_in_each_byte(key: Seq<u8>, byte: u8)
    ensures
        fnv1a(Seq::empty()) == 0xcbf2_9ce4_8422_2325,
        fnv1a(key.push(byte)) as int == ((fnv1a(key) ^ (byte as u64)) * 0x0000_0100_0000_01b3)
            % 0x1_0000_0000_0000_0000,
{
    assert(key.push(byte).drop_last() =~= key);
    let step = |hash: u64, byte: u8| fnv1a_step(hash, byte);
    reveal(Seq::fold_left);
    assert(key.push(byte).fold_left(FNV_OFFSET_BASIS, step) == step(
        key.fold_left(FNV_OFFSET_BASIS, step),
        byte,
    ));
}

/// An aircraft belongs to the shard whose number is left of its hash when whole rounds of all
/// shards are taken off.
pub proof fn law_hashes_go_round_the_shards(icao24: Seq<char>, count: u32)
    requires
        count > 0,
    ensures
        (fnv1a(encode_utf8(icao24)) - shard_of(icao24, count)) % count as int == 0,
        0 <= shard_of(icao24, count) < count,
{
    let h = fnv1a(encode_utf8(icao24)) as int;
    let n = count as int;
    assert((h - h % n) % n == 0 && 0 <= h % n < n) by (nonlinear_arith)
        requires
            n > 0,
    ;
}

} // verus!
