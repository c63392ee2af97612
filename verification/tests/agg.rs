use std::collections::BTreeMap;

use aether::agg::{fold_partials, merge_partials, scatter_aggregate, top_buckets};
use aether::double::Double;
use aether::fanout::Attempt;
use aether::wire::{AggKind, AggregatePartial, Digest, FlightDocument, Percentile};

fn d(x: f64) -> Double {
    Double { bits: x.to_bits() }
}

fn f(x: Double) -> f64 {
    f64::from_bits(x.bits)
}

struct Case {
    kind: AggKind,
    field: &'static str,
    interval: f64,
}

fn case(kind: AggKind, field: &'static str, interval: f64) -> Case {
    Case { kind, field, interval }
}

/// What one shard contributes: the count of its documents, and one bucket per value.
fn partial(docs: &[&FlightDocument], req: &Case) -> AggregatePartial {
    let mut buckets: BTreeMap<String, u64> = BTreeMap::new();
    for doc in docs {
        let floor = |x: f64| (x / req.interval).floor() * req.interval;
        let key = match req.kind {
            AggKind::ValueCounts if req.field == "origin" => Some(doc.origin.clone()),
            AggKind::ValueCounts => Some(doc.aircraft_type.clone()),
            AggKind::TimeHistogram => Some(format!("{}", floor(doc.observed_at as f64))),
            AggKind::NumericHistogram => Some(format!("{}", floor(f(doc.altitude)))),
            AggKind::GeoGrid => {
                Some(format!("{},{}", floor(f(doc.latitude)), floor(f(doc.longitude))))
            }
            _ => None,
        };
        if let Some(key) = key {
            *buckets.entry(key).or_insert(0) += 1;
        }
    }
    AggregatePartial {
        kind: req.kind,
        count: docs.len() as u64,
        buckets: buckets.into_iter().collect(),
        digest: None,
    }
}

/// Deterministic pseudo-random corpus: varied origins, aircraft, altitudes, positions.
fn corpus(n: usize, seed: u64) -> Vec<FlightDocument> {
    let mut rng = seed;
    let mut next = move || {
        rng = rng.wrapping_mul(6364136223846793005).wrapping_add(1442695040888963407);
        (rng >> 33) as u64
    };
    let origins = ["SFO", "JFK", "ATL", "ORD", "DEN", "LAX"];
    let crafts = ["Boeing 737", "Airbus A320", "Boeing 777", "Embraer E190"];
    (0..n)
        .map(|i| FlightDocument {
            icao24: format!("ac{i:05}"),
            callsign: format!("FL{i}"),
            origin: origins[(next() % origins.len() as u64) as usize].to_string(),
            aircraft_type: crafts[(next() % crafts.len() as u64) as usize].to_string(),
            altitude: d((next() % 12000) as f64),
            velocity: d((next() % 600) as f64),
            latitude: d((next() % 180) as f64 - 90.0),
            longitude: d((next() % 360) as f64 - 180.0),
            observed_at: 1_700_000_000_000 + (next() % 100_000) as i64,
            ..Default::default()
        })
        .collect()
}

fn shard_it(docs: &[FlightDocument], shards: usize, rot: usize) -> Vec<Vec<FlightDocument>> {
    let mut out = vec![Vec::new(); shards];
    for (i, d) in docs.iter().enumerate() {
        out[(i + rot) % shards].push(d.clone());
    }
    out
}

fn no_digest() -> Digest {
    Digest { centroid_mean: vec![], centroid_weight: vec![] }
}

fn distributed_vs_single(
    docs: &[FlightDocument],
    shards: usize,
    rot: usize,
    req: &Case,
) -> (BTreeMap<String, u64>, u64, BTreeMap<String, u64>, u64) {
    // Distributed: each shard computes a partial, the coordinator merges.
    let parts: Vec<_> = shard_it(docs, shards, rot)
        .iter()
        .map(|slice| {
            let refs: Vec<&FlightDocument> = slice.iter().collect();
            partial(&refs, req)
        })
        .collect();
    let folded = fold_partials(parts);
    let (merged, _) = merge_partials(req.kind, folded, no_digest(), false, &vec![], &vec![]);

    // Single node: one partial over the whole corpus.
    let all: Vec<&FlightDocument> = docs.iter().collect();
    let single = partial(&all, req);

    (
        merged.buckets.into_iter().collect(),
        merged.count,
        single.buckets.into_iter().collect(),
        single.count,
    )
}

#[test]
fn every_simple_agg_is_sharding_invariant() {
    let docs = corpus(2000, 42);
    let cases = [
        case(AggKind::Count, "", 0.0),
        case(AggKind::ValueCounts, "origin", 0.0),
        case(AggKind::ValueCounts, "aircraft_type", 0.0),
        case(AggKind::TimeHistogram, "", 10_000.0),
        case(AggKind::NumericHistogram, "altitude", 1000.0),
        case(AggKind::GeoGrid, "", 30.0),
    ];

    // Different shardings of the same corpus must all merge to the identical single-node answer.
    for case in &cases {
        for &shards in &[1usize, 2, 3, 5, 8] {
            for rot in 0..shards {
                let (m_buckets, m_count, s_buckets, s_count) =
                    distributed_vs_single(&docs, shards, rot, case);
                assert_eq!(
                    m_count, s_count,
                    "{:?} field={}: count diverged (shards={shards}, rot={rot})",
                    case.kind, case.field
                );
                assert_eq!(
                    m_buckets, s_buckets,
                    "{:?} field={}: buckets diverged (shards={shards}, rot={rot})",
                    case.kind, case.field
                );
            }
        }
    }
}

fn part(count: u64, buckets: &[(&str, u64)], digest: Option<Digest>) -> AggregatePartial {
    AggregatePartial {
        kind: AggKind::ValueCounts,
        count,
        buckets: buckets.iter().map(|(k, v)| (k.to_string(), *v)).collect(),
        digest,
    }
}

#[test]
fn counts_and_buckets_are_summed_and_sketches_collected() {
    let sketch = Digest { centroid_mean: vec![d(1.0)], centroid_weight: vec![d(2.0)] };
    let folded = fold_partials(vec![
        part(3, &[("a", 2), ("b", 1)], None),
        part(4, &[("b", 4)], Some(sketch)),
        part(0, &[], None),
    ]);
    assert_eq!(folded.count, 7);
    let sums: BTreeMap<String, u64> = folded.buckets.into_iter().collect();
    assert_eq!(sums, BTreeMap::from([("a".to_string(), 2), ("b".to_string(), 5)]));
    assert_eq!(folded.digests.len(), 1);
}

#[test]
fn percentiles_belong_to_a_percentile_aggregation_over_data() {
    let merge = |kind: AggKind, has_data: bool| {
        merge_partials(
            kind,
            fold_partials(vec![part(1, &[], None)]),
            no_digest(),
            has_data,
            &vec![d(50.0), d(99.0)],
            &vec![d(1.5), d(9.5)],
        )
    };
    let (p, rows) = merge(AggKind::Percentiles, true);
    assert_eq!(p.digest, Some(no_digest()));
    assert_eq!(
        rows,
        vec![Percentile { p: d(50.0), value: d(1.5) }, Percentile { p: d(99.0), value: d(9.5) }]
    );
    assert!(merge(AggKind::Percentiles, false).1.is_empty());
    let (p, rows) = merge(AggKind::Count, true);
    assert!(p.digest.is_none() && rows.is_empty());
}

#[test]
fn the_biggest_buckets_come_first_and_equal_ones_by_key() {
    let buckets: Vec<(String, u64)> =
        [("c", 2), ("a", 2), ("d", 9), ("b", 1)].iter().map(|(k, v)| (k.to_string(), *v)).collect();
    let names = |n: usize| -> Vec<String> {
        top_buckets(&buckets, n).into_iter().map(|(k, _)| k).collect()
    };
    assert_eq!(names(10), vec!["d", "a", "c", "b"]);
    assert_eq!(names(2), vec!["d", "a"]);
    assert!(names(0).is_empty());
}

#[test]
fn a_dead_shard_degrades_the_aggregate_and_is_named() {
    let (partials, omitted) = scatter_aggregate(vec![
        ("a:1".into(), Attempt::Answered(Some(part(2, &[], None)))),
        ("b:2".into(), Attempt::Failed),
        ("c:3".into(), Attempt::Answered(None)),
        ("d:4".into(), Attempt::TimedOut),
    ]);
    assert_eq!(partials.len(), 1);
    let named: Vec<(&str, &str)> =
        omitted.iter().map(|o| (o.address.as_str(), o.reason.as_str())).collect();
    assert_eq!(named, vec![("b:2", "unreachable"), ("d:4", "timeout")]);
}

#[test]
fn partials_in_any_order_merge_to_the_same() {
    let part = |count: u64, buckets: &[(&str, u64)]| AggregatePartial {
        kind: AggKind::ValueCounts,
        count,
        buckets: buckets.iter().map(|(k, n)| (k.to_string(), *n)).collect(),
        digest: None,
    };
    let parts = || vec![part(3, &[("a", 1), ("b", 2)]), part(1, &[("c", 1)]), part(5, &[("b", 5)])];
    let merged = |order: [usize; 3]| {
        let folded = fold_partials(order.iter().map(|&i| parts().swap_remove(i)).collect());
        let mut buckets = folded.buckets;
        buckets.sort();
        (folded.count, buckets)
    };
    let whole = (9, vec![("a".to_string(), 1), ("b".to_string(), 7), ("c".to_string(), 1)]);
    for order in [[0, 1, 2], [0, 2, 1], [1, 0, 2], [1, 2, 0], [2, 0, 1], [2, 1, 0]] {
        assert_eq!(merged(order), whole);
    }
}
