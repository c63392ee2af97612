use aether::double::Double;
use aether::fanout::{
    dedup_by_aircraft, merge_fanout, merge_search_responses, query_leader, scatter_gather,
    scatter_gather_vector, shard_timeout, Attempt, Fanout, ProgressiveMerge,
};
use aether::wire::{FlightDocument, OmittedShard, SearchHit, SearchResponse};

fn hit(icao24: &str, score: f64) -> SearchHit {
    SearchHit {
        document: Some(FlightDocument { icao24: icao24.to_string(), ..Default::default() }),
        score: Double { bits: score.to_bits() },
        provenance: None,
    }
}

fn at(icao24: &str, score: f64, observed_at: i64) -> SearchHit {
    let mut h = hit(icao24, score);
    h.document.as_mut().unwrap().observed_at = observed_at;
    h
}

fn shard_response(shard_id: &str, total: u64, hits: Vec<SearchHit>) -> SearchResponse {
    SearchResponse {
        hits,
        total_matched: total,
        shard_id: shard_id.to_string(),
        shards_queried: 0,
        shards_answered: 0,
        manifest: None,
    }
}

fn order(hits: &[SearchHit]) -> Vec<&str> {
    hits.iter().map(|h| h.document.as_ref().unwrap().icao24.as_str()).collect()
}

#[test]
fn merges_and_ranks_across_shards() {
    let r0 = shard_response("shard-0", 2, vec![hit("aaa", 1.0), hit("bbb", 3.0)]);
    let r1 = shard_response("shard-1", 1, vec![hit("ccc", 2.0)]);

    let merged = merge_search_responses(vec![r0, r1], 10, 2);

    assert_eq!(merged.total_matched, 3); // 2 + 1 across shards
    assert_eq!(merged.shards_queried, 2);
    assert_eq!(merged.shards_answered, 2);
    // Globally ranked by score: bbb(3) > ccc(2) > aaa(1).
    assert_eq!(order(&merged.hits), vec!["bbb", "ccc", "aaa"]);
}

#[test]
fn duplicate_aircraft_across_shards_collapse_to_the_freshest_observation() {
    let mut stale = hit("aaa", 9.0);
    stale.document.as_mut().unwrap().observed_at = 100;
    let mut fresh = hit("aaa", 2.0);
    fresh.document.as_mut().unwrap().observed_at = 200;

    let r0 = shard_response("group-0", 1, vec![stale]);
    let r1 = shard_response("group-1", 2, vec![fresh, hit("bbb", 1.0)]);

    let merged = merge_search_responses(vec![r0, r1], 10, 2);

    // One hit per aircraft, and it is the fresh one (a later observation beats the score).
    assert_eq!(merged.hits.len(), 2);
    let aaa = merged
        .hits
        .iter()
        .find(|h| h.document.as_ref().unwrap().icao24 == "aaa")
        .unwrap();
    assert_eq!(aaa.document.as_ref().unwrap().observed_at, 200);
}

#[test]
fn progressive_merge_also_dedups_across_shards() {
    let mut merge = ProgressiveMerge::new(2, 10);
    let mut stale = hit("aaa", 9.0);
    stale.document.as_mut().unwrap().observed_at = 100;
    let mut fresh = hit("aaa", 2.0);
    fresh.document.as_mut().unwrap().observed_at = 200;

    merge.add(shard_response("group-0", 1, vec![stale]));
    merge.add(shard_response("group-1", 1, vec![fresh]));

    let snap = merge.snapshot(true);
    assert_eq!(snap.hits.len(), 1);
    assert_eq!(snap.hits[0].document.as_ref().unwrap().observed_at, 200);
}

#[test]
fn limit_applies_to_merged_list_but_total_is_clusterwide() {
    let r0 = shard_response("shard-0", 5, vec![hit("aaa", 1.0), hit("bbb", 3.0)]);
    let r1 = shard_response("shard-1", 4, vec![hit("ccc", 2.0)]);

    let merged = merge_search_responses(vec![r0, r1], 1, 2);

    assert_eq!(merged.hits.len(), 1);
    assert_eq!(merged.hits[0].document.as_ref().unwrap().icao24, "bbb"); // top score
    assert_eq!(merged.total_matched, 9); // full cluster count, not limited
}

#[test]
fn coverage_reports_partial_when_a_shard_is_missing() {
    // Asked 3 leaders, only 2 answered.
    let r0 = shard_response("shard-0", 1, vec![hit("aaa", 1.0)]);
    let r1 = shard_response("shard-1", 1, vec![hit("bbb", 2.0)]);

    let merged = merge_search_responses(vec![r0, r1], 10, 3);

    assert_eq!(merged.shards_queried, 3);
    assert_eq!(merged.shards_answered, 2); // partial: one shard down
}

#[test]
fn no_shards_answered_is_empty_not_a_panic() {
    let merged = merge_search_responses(vec![], 10, 3);
    assert!(merged.hits.is_empty());
    assert_eq!(merged.total_matched, 0);
    assert_eq!(merged.shards_answered, 0);
    assert_eq!(merged.shards_queried, 3);
}

#[test]
fn progressive_merge_accumulates_and_ranks_as_shards_arrive() {
    let mut merge = ProgressiveMerge::new(2, 10);

    merge.add(shard_response("shard-0", 2, vec![hit("aaa", 1.0), hit("bbb", 3.0)]));
    let first = merge.snapshot(false);
    assert_eq!(first.shards_answered, 1);
    assert!(!first.complete);

    merge.add(shard_response("shard-1", 1, vec![hit("ccc", 2.0)]));
    let last = merge.snapshot(true);
    assert_eq!(last.shards_answered, 2);
    assert_eq!(last.total_matched, 3);
    assert!(last.complete);
    assert_eq!(order(&last.hits), vec!["bbb", "ccc", "aaa"]);
}

#[test]
fn progressive_merge_maintains_top_k() {
    let mut merge = ProgressiveMerge::new(2, 1);
    merge.add(shard_response("shard-0", 5, vec![hit("aaa", 1.0)]));
    merge.add(shard_response("shard-1", 5, vec![hit("bbb", 3.0)]));
    let snap = merge.snapshot(true);
    assert_eq!(snap.hits.len(), 1);
    assert_eq!(snap.hits[0].document.as_ref().unwrap().icao24, "bbb"); // higher score wins
    assert_eq!(snap.total_matched, 10); // total is cluster-wide, not limited
}

#[test]
fn equal_scores_rank_by_aircraft() {
    let merged = merge_search_responses(
        vec![shard_response("s", 3, vec![hit("ccc", 1.0), hit("aaa", 1.0), hit("bbb", 1.0)])],
        0,
        1,
    );
    assert_eq!(order(&merged.hits), vec!["aaa", "bbb", "ccc"]);
}

#[test]
fn equal_times_keep_the_higher_score_and_a_tie_keeps_the_first() {
    let kept = dedup_by_aircraft(vec![at("a", 1.0, 5), at("a", 2.0, 5), at("a", 2.0, 5), at("a", 9.0, 4)]);
    assert_eq!(kept, vec![at("a", 2.0, 5)]);
}

#[test]
fn the_order_of_arrival_does_not_matter() {
    let parts = || {
        vec![
            shard_response("x", 2, vec![at("a", 1.0, 10), at("b", 5.0, 1)]),
            shard_response("y", 2, vec![at("a", 7.0, 2), at("c", 3.0, 1)]),
            shard_response("z", 1, vec![at("b", 4.0, 9)]),
        ]
    };
    let forward = merge_search_responses(parts(), 2, 3);
    let mut reversed = parts();
    reversed.reverse();
    assert_eq!(forward, merge_search_responses(reversed, 2, 3));
    assert_eq!(order(&forward.hits), vec!["b", "c"]);
}

#[test]
fn the_progressive_page_equals_the_batch_page() {
    let parts = || {
        vec![
            shard_response("x", 2, vec![hit("a", 1.0), hit("b", 5.0)]),
            shard_response("y", 1, vec![hit("c", 3.0)]),
            shard_response("z", 1, vec![hit("d", 4.0)]),
        ]
    };
    let mut merge = ProgressiveMerge::new(3, 2);
    for part in parts() {
        merge.add(part);
    }
    assert_eq!(merge.totals(), (4, 3));
    assert_eq!(merge.snapshot(true).hits, merge_search_responses(parts(), 2, 3).hits);
}

#[test]
fn with_room_for_every_aircraft_duplicates_do_not_part_stream_and_batch() {
    let responses = || {
        vec![
            shard_response("group-0", 2, vec![at("aaa", 9.0, 100), at("bbb", 4.0, 100)]),
            shard_response("group-1", 2, vec![at("aaa", 2.0, 200), at("ccc", 3.0, 100)]),
            shard_response("group-2", 1, vec![at("bbb", 5.0, 50)]),
        ]
    };
    for limit in [0, 3] {
        let batch = merge_search_responses(responses(), limit, 3);
        assert_eq!(order(&batch.hits), vec!["bbb", "ccc", "aaa"]);
        let mut merge = ProgressiveMerge::new(3, limit);
        for response in responses() {
            merge.add(response);
        }
        assert_eq!(merge.snapshot(true).hits, batch.hits);
    }
}

#[test]
fn a_slow_and_a_dead_shard_are_named_with_their_reasons() {
    let fanout = scatter_gather(vec![
        ("a:1".into(), Attempt::Answered(shard_response("s0", 1, vec![hit("x", 1.0)]))),
        ("b:2".into(), Attempt::TimedOut),
        ("c:3".into(), Attempt::Failed),
    ]);
    assert_eq!(fanout.responses.len(), 1);
    assert_eq!(
        fanout.omitted,
        vec![
            OmittedShard { address: "b:2".into(), reason: "timeout".into() },
            OmittedShard { address: "c:3".into(), reason: "unreachable".into() },
        ]
    );
    let merged = merge_fanout(fanout, 10, 3, 7, 42);
    let m = merged.manifest.unwrap();
    assert_eq!((m.shards_queried, m.shards_answered), (3, 1));
    assert_eq!((m.placement_version, m.elapsed_ms, m.deduped), (7, 42, 0));
    assert_eq!(m.omitted.len(), 2);
    assert_eq!(query_leader("d:4".into(), Attempt::Answered(5)), Ok(5));
    let fanout = scatter_gather_vector(vec![("c:3".into(), Attempt::Failed)]);
    assert!(fanout.responses.is_empty());
    assert_eq!(fanout.omitted[0].reason, "unreachable");
}

#[test]
fn the_manifest_counts_duplicates_and_spans_the_page() {
    let fanout = Fanout {
        responses: vec![
            shard_response("x", 2, vec![at("a", 1.0, 10), at("b", 5.0, 30)]),
            shard_response("y", 2, vec![at("a", 7.0, 20), at("c", 0.5, 5)]),
        ],
        omitted: vec![],
    };
    let merged = merge_fanout(fanout, 2, 2, 0, 1);
    assert_eq!(order(&merged.hits), vec!["a", "b"]);
    let m = merged.manifest.unwrap();
    assert_eq!(m.deduped, 1);
    // The envelope covers what is returned, not what was cut.
    assert_eq!((m.freshest_observed_at, m.stalest_observed_at), (30, 20));
}

#[test]
fn a_stream_update_follows_every_answer_and_no_omission() {
    let mut merge = ProgressiveMerge::new(2, 10);
    let update = merge
        .on_attempt(Attempt::Answered(shard_response("x", 1, vec![hit("a", 1.0)])))
        .unwrap();
    assert!(!update.complete);
    assert_eq!((update.shards_answered, update.shards_queried), (1, 2));
    assert!(merge.on_attempt(Attempt::TimedOut).is_none());
    assert!(merge.on_attempt(Attempt::Failed).is_none());
    assert_eq!(merge.totals(), (1, 1));
}

#[test]
fn the_deadline_defaults_to_two_seconds() {
    assert_eq!(shard_timeout(None), 2000);
    assert_eq!(shard_timeout(Some("300")), 300);
    assert_eq!(shard_timeout(Some("soon")), 2000);
}

#[test]
fn a_cut_page_gives_way_to_a_hit_that_was_below_it() {
    let responses = || {
        vec![
            shard_response("group-0", 2, vec![at("aaa", 9.0, 100), at("bbb", 5.0, 100)]),
            shard_response("group-1", 1, vec![at("aaa", 2.0, 200)]),
        ]
    };
    let mut merge = ProgressiveMerge::new(2, 1);
    let mut shown = Vec::new();
    for response in responses() {
        merge.add(response);
        shown.push(merge.snapshot(false).hits);
    }
    assert_eq!(order(&shown[0]), vec!["aaa"]);
    assert_eq!(order(&shown[1]), vec!["bbb"]);
    assert_eq!(shown[1], merge_search_responses(responses(), 1, 2).hits);
}
