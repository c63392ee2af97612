use aether::double::Double;
use aether::json::{Fields, Json, Number};
use aether::tools::{
    definitions, format_aggregate, format_hits, format_state, parse_filters, plan_call,
    query_definitions, ToolCall,
};
use aether::wire::{
    AggKind, AggregatePartial, AggregateResponse, FlightDocument, IndexKind, NodeRole, NodeState,
    NumericRange, Percentile, Provenance, QueryManifest, SearchHit, SearchResponse, Test,
};

fn d(x: f64) -> Double {
    Double { bits: x.to_bits() }
}

fn float(x: f64) -> Json {
    Json::Number(Number::Real { value: d(x), text: format!("{x}") })
}

fn args(fields: Vec<(&str, Json)>) -> Json {
    fields.into_iter().fold(Fields::new(), |f, (k, v)| f.with(k, v)).build()
}

fn condition(fields: Vec<(&str, Json)>) -> Json {
    args(vec![("filters", Json::list(vec![args(fields)]))])
}

#[test]
fn every_tool_is_described() {
    let names = |json: Json| -> Vec<String> {
        json.as_list().unwrap().iter().map(|t| t.text_at("name").unwrap().to_string()).collect()
    };
    assert_eq!(
        names(definitions()),
        vec!["search_flights", "semantic_search_flights", "cluster_state", "aggregate_flights"]
    );
    assert_eq!(names(query_definitions()).len(), 3);
    for tool in definitions().as_list().unwrap() {
        assert_eq!(tool.get("inputSchema").unwrap().text_at("type"), Some("object"));
        assert!(!tool.text_at("description").unwrap().is_empty());
    }
}

#[test]
fn searches_take_a_query_a_limit_and_filters() {
    let call = plan_call("search_flights", &args(vec![("query", Json::text("x")), ("limit", Json::natural(7))]));
    assert_eq!(call, Ok(ToolCall::Search { query: "x".into(), limit: 7, filter: Ok(None) }));
    let call = plan_call("semantic_search_flights", &args(vec![("query", Json::text("x"))]));
    assert_eq!(call, Ok(ToolCall::SemanticSearch { query: "x".into(), limit: 5 }));
    assert_eq!(plan_call("search_flights", &args(vec![])), Err("missing required argument: query".into()));
    assert_eq!(plan_call("cluster_state", &Json::Null), Ok(ToolCall::ClusterState));
    assert_eq!(plan_call("reassign_vshard", &Json::Null), Err("unknown tool: reassign_vshard".into()));
}

#[test]
fn filters_are_read_condition_by_condition() {
    let one = |json: Json| parse_filters(&json).unwrap().unwrap().conditions.remove(0);
    let c = one(condition(vec![("field", Json::text("origin")), ("equals", Json::text("France"))]));
    assert_eq!((c.field.as_str(), c.test), ("origin", Some(Test::Equals("France".into()))));
    let c = one(condition(vec![("field", Json::text("altitude")), ("min", float(1.5)), ("max", Json::natural(9))]));
    assert_eq!(c.test, Some(Test::Range(NumericRange { min: Some(d(1.5)), max: Some(d(9.0)) })));
    let c = one(condition(vec![("field", Json::text("on_ground")), ("is", Json::Bool(true))]));
    assert_eq!(c.test, Some(Test::Is(true)));
    assert_eq!(parse_filters(&args(vec![])), Ok(None));
    assert!(parse_filters(&condition(vec![("equals", Json::text("x"))])).is_err());
    assert!(parse_filters(&condition(vec![("field", Json::text("origin"))])).is_err());
}

#[test]
fn aggregations_name_their_kind() {
    let call = plan_call(
        "aggregate_flights",
        &args(vec![("kind", Json::text("value_counts")), ("field", Json::text("origin"))]),
    );
    let Ok(ToolCall::Aggregate(req)) = call else { panic!("{call:?}") };
    assert_eq!((req.kind, req.field.as_str()), (AggKind::ValueCounts, "origin"));
    assert!(plan_call("aggregate_flights", &args(vec![("kind", Json::text("median"))])).is_err());
}

fn manifest() -> QueryManifest {
    QueryManifest {
        shards_queried: 2,
        shards_answered: 2,
        omitted: vec![],
        deduped: 0,
        freshest_observed_at: 0,
        stalest_observed_at: 0,
        elapsed_ms: 3,
        placement_version: 1,
    }
}

#[test]
fn hits_are_listed_with_their_source() {
    let hit = SearchHit {
        document: Some(FlightDocument {
            icao24: "a1b2c3".into(),
            callsign: "UAL231".into(),
            origin: "SFO".into(),
            destination: "JFK".into(),
            aircraft_type: "B737".into(),
            ..Default::default()
        }),
        score: d(1.25),
        provenance: Some(Provenance {
            source_group: "shard-0".into(),
            owning_vshard: -1,
            observed_at: 0,
            index: IndexKind::Keyword,
        }),
    };
    let bare = SearchHit { document: None, score: d(0.0), provenance: None };
    let resp = SearchResponse {
        hits: vec![hit, bare],
        total_matched: 9,
        shard_id: "coordinator".into(),
        shards_queried: 2,
        shards_answered: 2,
        manifest: Some(manifest()),
    };
    assert_eq!(
        format_hits(&resp, &vec!["1.250".into(), "0.000".into()], 0),
        "9 matched across 2/2 shards\n- a1b2c3 UAL231 (SFO -> JFK) B737 score=1.250 [via shard-0]\n-   ( -> )  score=0.000 [via ?]\n\nprovenance: answered 2/2 shards · placement v1 · 3ms\n"
    );
}

#[test]
fn the_cluster_state_lists_nodes_and_placement() {
    let node = |id: &str, role: NodeRole, draining: bool| NodeState {
        node_id: id.into(),
        address: "a:1".into(),
        role,
        shard_id: 0,
        millis_since_seen: 1500,
        draining,
    };
    let nodes = vec![node("n0", NodeRole::Leader, false), node("n1", NodeRole::Follower, true)];
    assert_eq!(
        format_state(1, &nodes, &vec!["1.5".into(), "1.5".into()], &vec![0, 0]),
        "1 shard group(s)\n- shard 0 · n0 · Leader · seen 1.5s ago\n- shard 0 · n1 · Follower · seen 1.5s ago · draining\nvirtual shards -> groups: [0, 0]\n"
    );
}

#[test]
fn aggregates_read_as_counts_percentiles_or_buckets() {
    let resp = |percentiles: Vec<Percentile>| AggregateResponse {
        partial: Some(AggregatePartial {
            kind: AggKind::Count,
            count: 4,
            buckets: vec![("a".into(), 1), ("b".into(), 3)],
            digest: None,
        }),
        percentiles,
        manifest: None,
    };
    assert_eq!(format_aggregate(AggKind::Count, &resp(vec![]), &vec![], 0), "count: 4\n");
    let p = Percentile { p: d(50.0), value: d(2.0) };
    assert_eq!(
        format_aggregate(AggKind::Percentiles, &resp(vec![p]), &vec![("50".into(), "2.00".into())], 0),
        "p50: 2.00\n"
    );
    assert_eq!(
        format_aggregate(AggKind::ValueCounts, &resp(vec![]), &vec![], 0),
        "b: 3\na: 1\n(4 matched)\n"
    );
}

#[test]
fn a_misshapen_filter_is_refused_and_never_widened() {
    let no_list = Err("'filters' must be a list of conditions".to_string());
    for value in [Json::text("origin"), Json::Null, Json::natural(1), args(vec![])] {
        assert_eq!(parse_filters(&args(vec![("filters", value)])), no_list);
    }
    assert_eq!(parse_filters(&args(vec![("filters", Json::list(vec![]))])), Ok(None));
    let bounds = Err("filter on 'altitude' needs numbers for 'min' and 'max'".to_string());
    let on_altitude = |fields: Vec<(&'static str, Json)>| {
        let mut all = vec![("field", Json::text("altitude"))];
        all.extend(fields);
        parse_filters(&condition(all))
    };
    assert_eq!(on_altitude(vec![("min", Json::text("high"))]), bounds);
    assert_eq!(on_altitude(vec![("min", Json::Null)]), bounds);
    assert_eq!(on_altitude(vec![("min", Json::natural(1)), ("max", Json::Bool(true))]), bounds);
    assert_eq!(on_altitude(vec![("equals", Json::text("x")), ("max", Json::Null)]), bounds);
    let no_test = Err("filter on 'altitude' needs 'equals', 'min'/'max', or 'is'".to_string());
    assert_eq!(on_altitude(vec![]), no_test);
    assert_eq!(on_altitude(vec![("equals", Json::natural(1))]), no_test);
    assert_eq!(on_altitude(vec![("equals", Json::Null), ("min", Json::natural(1))]), no_test);
    assert_eq!(on_altitude(vec![("is", Json::text("yes"))]), no_test);
    assert!(plan_call(
        "aggregate_flights",
        &args(vec![("kind", Json::text("count")), ("filters", Json::Null)])
    )
    .is_err());
}
