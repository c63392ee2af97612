use aether::briefing::Answer;
use aether::dashboard::{
    altitude_hist, altitude_pcts, answer_body, body_text, bucket_rows, cell_sides, dashboard_addrs,
    geo_cells, query_term, question_of, runs_raft, Bin, Cell, Dashboard, LiveQuery, Look, Panels,
};
use aether::double::Double;
use aether::json::{Json, Number};
use aether::service::{ChangeResponse, ClusterState};
use aether::supervisor::Supervisor;
use aether::wire::{NodeRole, NodeState, OmittedShard, QueryManifest, SearchResponse};

fn float(x: f64) -> Json {
    Json::Number(Number::Real { value: Double { bits: x.to_bits() }, text: format!("{x:?}") })
}

fn panels() -> Panels {
    Panels {
        by_origin: bucket_rows(None, "origin", 8),
        by_aircraft: bucket_rows(None, "aircraft_type", 8),
        geo_cells: geo_cells(vec![]),
        altitude_hist: altitude_hist(vec![]),
        altitude_pcts: altitude_pcts(vec![]),
    }
}

fn node(id: &str, role: NodeRole) -> NodeState {
    NodeState {
        node_id: id.into(),
        address: "a:1".into(),
        role,
        shard_id: 0,
        millis_since_seen: 5,
        draining: false,
    }
}

fn cluster(nodes: Vec<NodeState>) -> ClusterState {
    ClusterState { shard_count: 1, nodes, vshard_group: vec![0, 0] }
}

fn look(secs: u64, cluster: Option<ClusterState>, query: Option<LiveQuery>) -> Look {
    Look { at_ms: secs * 1000, secs, now_ms: 0, cluster, query, panels: panels() }
}

fn supervisor() -> Supervisor {
    let mut s = Supervisor::new(1, "127.0.0.1:50050".into());
    s.started("l0");
    s
}

fn messages(snapshot: &Json) -> Vec<String> {
    snapshot
        .get("events")
        .unwrap()
        .as_list()
        .unwrap()
        .iter()
        .map(|e| e.text_at("msg").unwrap().to_string())
        .collect()
}

#[test]
fn a_promotion_is_told_once() {
    let mut board = Dashboard::new();
    let s = supervisor();
    board.look(
        look(1, Some(cluster(vec![node("l0", NodeRole::Leader), node("f0", NodeRole::Follower)])), None),
        &s,
    );
    let after = || Some(cluster(vec![node("f0", NodeRole::Leader)]));
    let snapshot = board.look(look(2, after(), None), &s);
    assert_eq!(messages(&snapshot), vec!["PROMOTED f0 to leader of shard 0"]);
    let snapshot = board.look(look(3, after(), None), &s);
    assert_eq!(messages(&snapshot).len(), 1);
}

#[test]
fn the_snapshot_is_well_formed() {
    let mut board = Dashboard::new();
    let response = SearchResponse {
        hits: vec![],
        total_matched: 7,
        shard_id: "coordinator".into(),
        shards_queried: 2,
        shards_answered: 1,
        manifest: Some(QueryManifest {
            shards_queried: 2,
            shards_answered: 1,
            omitted: vec![OmittedShard { address: "b:2".into(), reason: "timeout".into() }],
            deduped: 0,
            freshest_observed_at: -4,
            stalest_observed_at: -4,
            elapsed_ms: 3,
            placement_version: 2,
        }),
    };
    let query = Some(LiveQuery::Answered { response, ms: 12 });
    let snapshot =
        board.look(look(4, Some(cluster(vec![node("l0", NodeRole::Leader)])), query), &supervisor());
    assert_eq!(
        body_text(&snapshot),
        concat(&[
            r#"{"aggregate":{"altitude_hist":[],"altitude_pcts":[],"by_aircraft":[],"by_origin":[],"geo_cells":[]},"#,
            r#""coordinator":{"addr":"127.0.0.1:50050","reachable":true},"events":[],"#,
            r#""nodes":[{"address":"a:1","draining":false,"has_process":true,"millis_since_seen":5,"node_id":"l0","role":"Leader","shard_id":0}],"#,
            r#""query":{"err":0,"last":{"answered":1,"ms":12,"ok":true,"provenance":{"deduped":0,"freshest_observed_at":-4,"omitted":[{"address":"b:2","reason":"timeout"}],"placement_version":2,"summary":"answered 1/2 shards · omitted: b:2 (timeout) · placement v2 · 3ms"},"queried":2,"total_matched":7},"ok":1},"#,
            r#""series":[{"errored":false,"matched":7,"ms":12,"t":4}],"shard_count":1,"v":1,"vshard_group":[0,0]}"#,
        ])
    );
}

fn concat(parts: &[&str]) -> String {
    parts.concat()
}

#[test]
fn a_failed_query_marks_the_point_and_the_next_one_is_clean() {
    let mut board = Dashboard::new();
    let s = supervisor();
    board.look(look(1, None, Some(LiveQuery::Failed { error: "down".into() })), &s);
    let snapshot = board.look(look(2, None, None), &s);
    let series = snapshot.get("series").unwrap().as_list().unwrap();
    let errored: Vec<bool> = series.iter().map(|p| p.get("errored").unwrap().as_bool().unwrap()).collect();
    assert_eq!(errored, vec![true, false]);
    assert_eq!(snapshot.get2("query", "err").unwrap().as_natural(), Some(1));
    assert_eq!(snapshot.get2("coordinator", "reachable").unwrap().as_bool(), Some(false));
    assert_eq!(snapshot.get2("query", "last"), Some(&Json::Null));
}

#[test]
fn the_rings_keep_the_latest() {
    let mut board = Dashboard::new();
    let s = supervisor();
    for i in 0..60 {
        board.push_event(i, format!("e{i}"));
    }
    let mut snapshot = Json::Null;
    for i in 0..130 {
        snapshot = board.look(look(i, None, None), &s);
    }
    let told = messages(&snapshot);
    assert_eq!((told.len(), told[0].as_str(), told[49].as_str()), (50, "e10", "e59"));
    let series = snapshot.get("series").unwrap().as_list().unwrap();
    assert_eq!((series.len(), series[0].get("t").unwrap().as_natural()), (120, Some(10)));
}

#[test]
fn panels_show_the_biggest_buckets_the_cells_and_the_bins() {
    let buckets: Vec<(String, u64)> =
        (0..10).map(|i| (format!("o{i}"), if i == 7 { 50 } else { 10 - i })).collect();
    let rows = bucket_rows(Some(&buckets), "origin", 2);
    assert_eq!(body_text(&rows), r#"[{"count":50,"origin":"o7"},{"count":10,"origin":"o0"}]"#);

    assert_eq!(cell_sides("10,-20"), Some(("10".into(), "-20".into())));
    assert_eq!(cell_sides("nowhere"), None);
    let cells = geo_cells(vec![
        Cell { place: Some((float(10.0), float(-20.0))), count: 3 },
        Cell { place: None, count: 9 },
    ]);
    assert_eq!(body_text(&cells), r#"[{"count":3,"lat":10.0,"lon":-20.0}]"#);

    let bin = |x: f64, count: u64| Bin { at: Double { bits: x.to_bits() }, shown: float(x), count };
    let hist = altitude_hist(vec![bin(4000.0, 1), bin(-2000.0, 2), bin(0.0, 3)]);
    assert_eq!(
        body_text(&hist),
        r#"[{"bucket":-2000.0,"count":2},{"bucket":0.0,"count":3},{"bucket":4000.0,"count":1}]"#
    );
    let pcts = altitude_pcts(vec![(float(50.0), float(1.5)), (float(99.0), Json::Null)]);
    assert_eq!(body_text(&pcts), r#"[{"p":50.0,"value":1.5},{"p":99.0,"value":null}]"#);
}

#[test]
fn kills_drains_and_additions_are_recorded() {
    let mut board = Dashboard::new();
    let mut s = supervisor();
    let reply = board.on_kill(&mut s, "l0", 1);
    assert_eq!((reply.status, reply.body.as_str()), (200, "killed"));
    assert!(!s.manages("l0"));
    let reply = board.on_kill(&mut s, "l0", 2);
    assert_eq!((reply.status, reply.body.as_str()), (404, "no such managed node"));
    let reply = board.on_drain("n", Ok(ChangeResponse { ok: true, message: "fine".into() }), 3);
    assert_eq!((reply.status, reply.body.as_str()), (200, "fine"));
    let reply = board.on_drain("n", Ok(ChangeResponse { ok: false, message: "unknown".into() }), 4);
    assert_eq!(reply.status, 404);
    assert_eq!(board.on_drain("n", Err("down".into()), 5).status, 502);
    assert_eq!(board.on_added(Ok("shard0-f1".into()), true, 6).body, "shard0-f1");
    board.on_added(Ok("shard0-f2".into()), false, 7);
    assert_eq!(board.on_added(Err("no binary".into()), false, 8).status, 500);
    let snapshot = board.look(look(9, None, None), &s);
    assert_eq!(
        messages(&snapshot),
        vec![
            "KILLED l0 (SIGKILL)",
            "DRAINING n — leader will remove it from the group",
            "spawned shard0-f1 — joining the raft group",
            "spawned shard0-f2",
        ]
    );
}

#[test]
fn questions_must_not_be_blank() {
    assert_eq!(question_of(Some(" how many? ")), Ok(" how many? ".to_string()));
    for q in [None, Some(""), Some("  ")] {
        assert_eq!(body_text(&question_of(q).unwrap_err()), r#"{"error":"empty question"}"#);
    }
    let answer = Answer { text: "42".into(), provenance: vec!["a".into()] };
    assert_eq!(
        body_text(&answer_body(&answer, 2, false)),
        r#"{"answer":"42","budget_exhausted":false,"provenance":["a"],"tool_calls":2}"#
    );
}

#[test]
fn settings_of_the_dashboard() {
    assert_eq!(dashboard_addrs(None), vec!["127.0.0.1:50050"]);
    assert_eq!(dashboard_addrs(Some("a:1, b:2")), vec!["a:1", "b:2"]);
    assert_eq!(dashboard_addrs(Some(" ")), vec!["127.0.0.1:50050"]);
    assert!(runs_raft(Some("RAFT")) && !runs_raft(Some("paxos")) && !runs_raft(None));
    assert_eq!(query_term(None, None), "united");
    assert_eq!(query_term(None, Some("synthetic")), "synthetica");
    assert_eq!(query_term(Some("x"), Some("synthetic")), "x");
}

#[test]
fn a_promotion_is_told_of_a_node_that_followed_when_it_was_last_listed() {
    let mut board = Dashboard::new();
    let s = supervisor();
    let mut told = |secs: u64, nodes: Option<Vec<NodeState>>| {
        messages(&board.look(look(secs, nodes.map(cluster), None), &s)).len()
    };
    assert_eq!(told(1, Some(vec![node("n0", NodeRole::Leader)])), 0, "never listed before");
    assert_eq!(told(2, Some(vec![node("n0", NodeRole::Leader), node("n1", NodeRole::Follower)])), 0);
    assert_eq!(told(3, None), 0, "no coordinator");
    assert_eq!(told(4, Some(vec![node("n0", NodeRole::Follower)])), 0, "n1 is not listed");
    assert_eq!(told(5, Some(vec![node("n1", NodeRole::Leader)])), 1, "n1 followed when last listed");
    assert_eq!(told(6, Some(vec![node("n0", NodeRole::Leader), node("n1", NodeRole::Leader)])), 2);
}

#[test]
fn a_single_bin_needs_no_order() {
    let at = Double { bits: f64::NAN.to_bits() };
    let panel = altitude_hist(vec![Bin { at, shown: Json::Null, count: 3 }]);
    let rows = panel.as_list().unwrap();
    assert_eq!(rows.len(), 1);
    assert_eq!((rows[0].get("bucket"), rows[0].get("count")), (Some(&Json::Null), Some(&Json::natural(3))));
}

#[test]
fn a_kill_leaves_the_rest_of_the_supervisor_alone() {
    let mut board = Dashboard::new();
    let mut s = supervisor();
    s.started("f0");
    assert_eq!(board.on_kill(&mut s, "f0", 7).status, 200);
    assert_eq!(board.on_kill(&mut s, "f0", 8).status, 404);
    assert_eq!(s.kill_all(), vec!["l0".to_string()]);
}

#[test]
fn the_last_listing_of_a_node_counts() {
    let mut board = Dashboard::new();
    let s = supervisor();
    let twice = vec![node("n0", NodeRole::Follower), node("n0", NodeRole::Leader)];
    let snapshot = board.look(look(1, Some(cluster(twice)), None), &s);
    assert_eq!(messages(&snapshot), vec!["PROMOTED n0 to leader of shard 0"]);
    let snapshot = board.look(look(2, Some(cluster(vec![node("n0", NodeRole::Leader)])), None), &s);
    assert_eq!(messages(&snapshot).len(), 1);
}
