use aether::json::{Fields, Json, Number};
use aether::mcp::{finish_call, handle, on_line, reply_line, rpc_error, Step, METHOD_NOT_FOUND};

fn reply(line: &str) -> String {
    match on_line(line) {
        Step::Reply(json) => reply_line(&json),
        other => panic!("no reply: {other:?}"),
    }
}

#[test]
fn initialize_answers_in_the_callers_protocol_version() {
    assert_eq!(
        reply(r#"{"jsonrpc":"2.0","id":1,"method":"initialize","params":{"protocolVersion":"2025-01-01"}}"#),
        "{\"id\":1,\"jsonrpc\":\"2.0\",\"result\":{\"capabilities\":{\"tools\":{}},\"protocolVersion\":\"2025-01-01\",\"serverInfo\":{\"name\":\"aether-query-agent\",\"version\":\"0.1.0\"}}}\n"
    );
    assert!(reply(r#"{"id":"x","method":"initialize"}"#).contains("\"protocolVersion\":\"2024-11-05\""));
}

#[test]
fn exactly_the_three_query_tools_are_listed() {
    let Step::Reply(json) = on_line(r#"{"jsonrpc":"2.0","id":2,"method":"tools/list"}"#) else {
        panic!("no reply");
    };
    let tools = json.get2("result", "tools").unwrap().as_list().unwrap();
    let names: Vec<&str> = tools.iter().map(|t| t.text_at("name").unwrap()).collect();
    assert_eq!(names, vec!["search_flights", "semantic_search_flights", "cluster_state"]);
}

#[test]
fn a_tool_call_is_run_and_its_outcome_framed() {
    let line = r#"{"id":3,"method":"tools/call","params":{"name":"search_flights","arguments":{"query":"ual231"}}}"#;
    let Step::Call { id, name, args } = on_line(line) else { panic!("no call") };
    assert_eq!(name, "search_flights");
    assert_eq!(args.text_at("query"), Some("ual231"));
    assert_eq!(
        reply_line(&finish_call(&id, Ok("1 matched".into()))),
        "{\"id\":3,\"jsonrpc\":\"2.0\",\"result\":{\"content\":[{\"text\":\"1 matched\",\"type\":\"text\"}],\"isError\":false}}\n"
    );
    let refused = finish_call(&id, Err("unknown tool: reassign_vshard".into()));
    assert_eq!(refused.get2("result", "isError").unwrap().as_bool(), Some(true));
}

#[test]
fn a_call_without_arguments_has_none() {
    let Step::Call { name, args, .. } = on_line(r#"{"id":4,"method":"tools/call"}"#) else {
        panic!("no call");
    };
    assert_eq!((name.as_str(), args.text_at("query")), ("", None));
}

#[test]
fn notifications_and_nonsense_are_silent() {
    assert_eq!(on_line(r#"{"method":"notifications/initialized"}"#), Step::Ignore);
    assert_eq!(on_line(r#"{"id":1}"#), Step::Ignore);
    assert_eq!(on_line(""), Step::Ignore);
    assert_eq!(on_line("not json"), Step::Ignore);
}

#[test]
fn an_unknown_method_is_an_error() {
    assert_eq!(METHOD_NOT_FOUND, -32601);
    assert_eq!(
        reply(r#"{"id":9,"method":"tools/drop"}"#),
        "{\"error\":{\"code\":-32601,\"message\":\"method not found: tools/drop\"},\"id\":9,\"jsonrpc\":\"2.0\"}\n"
    );
    assert!(reply(r#"{"id":5,"method":"ping"}"#).contains("\"result\":{}"));
    let e = rpc_error(&Json::Null, -1, "x");
    assert!(e.get("id").is_some());
}

#[test]
fn requests_keep_their_id_whatever_it_is() {
    for id in ["7", "\"seven\"", "null", "[1,{\"a\":2.5}]"] {
        let line = format!("{{\"id\":{id},\"method\":\"ping\"}}");
        assert!(reply(&line).contains(&format!("\"id\":{id}")), "{id}");
    }
}

#[test]
fn numbers_keep_their_kind() {
    let read = |text: &str| match on_line(&format!("{{\"id\":{text},\"method\":\"tools/call\"}}")) {
        Step::Call { id: Json::Number(n), .. } => n,
        other => panic!("{other:?}"),
    };
    assert_eq!(read("18446744073709551615"), Number::Natural(u64::MAX));
    assert_eq!(read("-3"), Number::Negative(-3));
    let Number::Real { value, text } = read("2.50") else { panic!("not a real") };
    assert_eq!((value.bits, text.as_str()), (2.5f64.to_bits(), "2.5"));
}

#[test]
fn a_message_built_by_hand_is_handled_as_one_that_was_read() {
    let msg = Fields::new().with("id", Json::natural(1)).with("method", Json::text("ping")).build();
    assert_eq!(handle(&msg), on_line(r#"{"id":1,"method":"ping"}"#));
}
