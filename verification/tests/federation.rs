use aether::double::Double;
use aether::fanout::Attempt;
use aether::federation::{cluster_timeout, federate_search};
use aether::wire::{FlightDocument, QueryManifest, SearchHit, SearchResponse};

fn hit(icao24: &str, score: f64, observed_at: i64) -> SearchHit {
    SearchHit {
        document: Some(FlightDocument { icao24: icao24.into(), observed_at, ..Default::default() }),
        score: Double { bits: score.to_bits() },
        provenance: None,
    }
}

fn cluster(hits: Vec<SearchHit>) -> SearchResponse {
    SearchResponse {
        total_matched: hits.len() as u64,
        hits,
        shard_id: "coordinator".into(),
        shards_queried: 4,
        shards_answered: 4,
        manifest: Some(QueryManifest {
            shards_queried: 4,
            shards_answered: 4,
            omitted: vec![],
            deduped: 0,
            freshest_observed_at: 0,
            stalest_observed_at: 0,
            elapsed_ms: 1,
            placement_version: 99,
        }),
    }
}

fn ids(resp: &SearchResponse) -> Vec<String> {
    resp.hits.iter().map(|h| h.icao24()).collect()
}

#[test]
fn both_clusters_are_merged_and_a_dead_one_is_named() {
    let us = || cluster(vec![hit("us1", 1.0, 5), hit("shared", 9.0, 5)]);
    let eu = cluster(vec![hit("eu1", 2.0, 7), hit("shared", 0.5, 8)]);
    let resp = federate_search(
        vec![("us:1".into(), Attempt::Answered(us())), ("eu:1".into(), Attempt::Answered(eu))],
        50,
        2,
        11,
    );
    assert_eq!(ids(&resp), vec!["eu1", "us1", "shared"]);
    assert_eq!((resp.shard_id.as_str(), resp.total_matched), ("federation", 4));
    let m = resp.manifest.as_ref().unwrap();
    assert_eq!((m.shards_queried, m.shards_answered, m.deduped), (2, 2, 1));
    assert_eq!((m.freshest_observed_at, m.stalest_observed_at), (8, 5));
    assert_eq!((m.placement_version, m.elapsed_ms), (0, 11));

    let resp = federate_search(
        vec![("us:1".into(), Attempt::Answered(us())), ("eu:1".into(), Attempt::TimedOut)],
        50,
        2,
        3000,
    );
    assert_eq!(ids(&resp), vec!["shared", "us1"]);
    let m = resp.manifest.unwrap();
    assert_eq!((m.shards_queried, m.shards_answered), (2, 1));
    assert_eq!(m.omitted.len(), 1);
    assert_eq!((m.omitted[0].address.as_str(), m.omitted[0].reason.as_str()), ("eu:1", "timeout"));
}

#[test]
fn the_cluster_deadline_defaults_to_three_seconds() {
    assert_eq!(cluster_timeout(None), 3000);
    assert_eq!(cluster_timeout(Some("50")), 50);
    assert_eq!(cluster_timeout(Some("-1")), 3000);
}
