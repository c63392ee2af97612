use aether::shard::{fnv1a_64, shard_for, ShardCount};

fn n(x: u32) -> ShardCount {
    ShardCount::new(x).unwrap()
}

#[test]
fn fnv1a_matches_known_vectors() {
    // Reference values of the 64-bit FNV-1a hash: a change of the hash would re-shard the cluster.
    assert_eq!(fnv1a_64(b""), 0xcbf2_9ce4_8422_2325);
    assert_eq!(fnv1a_64(b"a"), 0xaf63_dc4c_8601_ec8c);
}

#[test]
fn shard_is_deterministic() {
    let id = "a1b2c3";
    assert_eq!(shard_for(id, n(8)), shard_for(id, n(8)));
}

#[test]
fn shard_is_always_in_range() {
    for i in 0..10_000u32 {
        let icao24 = format!("{i:06x}");
        let s = shard_for(&icao24, n(7));
        assert!(s < 7, "shard {s} out of range for N=7");
    }
}

#[test]
fn single_shard_collapses_to_zero() {
    assert_eq!(shard_for("deadbeef", n(1)), 0);
}

#[test]
fn distribution_is_roughly_even() {
    let shard_count = 8usize;
    let mut counts = vec![0usize; shard_count];
    let total = 10_000u32;
    for i in 0..total {
        let icao24 = format!("{i:06x}");
        counts[shard_for(&icao24, n(shard_count as u32)) as usize] += 1;
    }
    let avg = total as usize / shard_count;
    for (shard, &c) in counts.iter().enumerate() {
        let low = avg - avg / 3;
        let high = avg + avg / 3;
        assert!(c >= low && c <= high, "shard {shard} got {c}, expected ~{avg}");
    }
}

#[test]
fn a_cluster_has_at_least_one_shard() {
    assert!(ShardCount::new(0).is_none());
    assert_eq!(n(3).get(), 3);
}

#[test]
fn a_longer_key_hashes_byte_by_byte() {
    // "foobar" is one of the published test vectors of the hash.
    assert_eq!(fnv1a_64(b"foobar"), 0x8594_4171_f739_67e8);
    assert_eq!(shard_for("foobar", n(1000)), (0x8594_4171_f739_67e8u64 % 1000) as u32);
}
