//! The Model Context Protocol server: JSON-RPC 2.0, one message per line.
//!
//! A message is planned here; the one thing left to the caller is to run the tool that a
//! `tools/call` names and to hand its outcome to [`finish_call`].

use vstd::prelude::*;
use vstd::string::*;

use crate::json::{
    integer_tree, item_trees, no_fields, parse, parsed, render, rendered, text_at, Fields, Json,
    JsonTree,
};
use crate::text::{owned, same, trim, trimmed};
use crate::tools::{query_definitions, search_tool, semantic_tool, state_tool};

verus! {

/// The version that the server announces.
pub const SERVER_VERSION: &'static str = "0.1.0";

/// The JSON-RPC code of an unknown method.
pub const METHOD_NOT_FOUND: i64 = -32601;

/// A successful JSON-RPC response.
pub open spec fn result_tree(id: JsonTree, result: JsonTree) -> JsonTree {
    JsonTree::Object(
        no_fields().push(("jsonrpc"@, JsonTree::Text("2.0"@))).push(("id"@, id)).push(
            ("result"@, result),
        ),
    )
}

/// A JSON-RPC error response.
pub open spec fn error_tree(id: JsonTree, code: i64, message: Seq<char>) -> JsonTree {
    JsonTree::Object(
        no_fields().push(("jsonrpc"@, JsonTree::Text("2.0"@))).push(("id"@, id)).push(
            (
                "error"@,
                JsonTree::Object(
                    no_fields().push(("code"@, integer_tree(code))).push(
                        ("message"@, JsonTree::Text(message)),
                    ),
                ),
            ),
        ),
    )
}

/// A successful JSON-RPC response.
pub fn rpc_result(id: &Json, result: Json) -> (reply: Json)
    ensures
        reply.tree() == result_tree(id.tree(), result.tree()),
{
    Fields::new().with("jsonrpc", Json::text("2.0")).with("id", id.clone()).with(
        "result",
        result,
    ).build()
}

/// A JSON-RPC error response.
pub fn rpc_error(id: &Json, code: i64, message: &str) -> (reply: Json)
    ensures
        reply.tree() == error_tree(id.tree(), code, message@),
{
    Fields::new().with("jsonrpc", Json::text("2.0")).with("id", id.clone()).with(
        "error",
        Fields::new().with("code", Json::integer(code)).with("message", Json::text(message)).build(),
    ).build()
}

/// What to do about a message.
#[derive(Debug, PartialEq)]
pub enum Step {
    /// Nothing: not a request, or a notification.
    Ignore,
    /// Send this response.
    Reply(Json),
    /// Run this tool, then send what [`finish_call`] makes of its outcome.
    Call { id: Json, name: String, args: Json },
}

/// What the server says of itself, answering in the caller's protocol version where it names one.
pub open spec fn greeting(msg: JsonTree) -> JsonTree {
    let version = match msg.get2("params"@, "protocolVersion"@) {
        Some(value) => value,
        None => JsonTree::Text("2024-11-05"@),
    };
    JsonTree::Object(
        no_fields().push(("protocolVersion"@, version)).push(
            (
                "capabilities"@,
                JsonTree::Object(no_fields().push(("tools"@, JsonTree::Object(no_fields())))),
            ),
        ).push(
            (
                "serverInfo"@,
                JsonTree::Object(
                    no_fields().push(("name"@, JsonTree::Text("aether-query-agent"@))).push(
                        ("version"@, JsonTree::Text(SERVER_VERSION@)),
                    ),
                ),
            ),
        ),
    )
}

/// The answer to a listing of the tools.
pub open spec fn listing() -> JsonTree {
    JsonTree::Object(
        no_fields().push(
            ("tools"@, JsonTree::List(seq![search_tool(), semantic_tool(), state_tool()])),
        ),
    )
}

/// The tool that a call names; empty where it names none.
pub open spec fn called_tool(msg: JsonTree) -> Seq<char> {
    match msg.get2("params"@, "name"@) {
        Some(value) => match value.as_text() {
            Some(name) => name,
            None => Seq::empty(),
        },
        None => Seq::empty(),
    }
}

/// The arguments of a call; an empty object where it has none.
pub open spec fn called_args(msg: JsonTree) -> JsonTree {
    match msg.get2("params"@, "arguments"@) {
        Some(args) => args,
        None => JsonTree::Object(no_fields()),
    }
}

/// Whether a step is the right one for a message: only messages with a method and an id are
/// answered, and an unknown method is a protocol error.
pub open spec fn answers(step: Step, msg: JsonTree) -> bool {
    match (text_at(msg, "method"@), msg.get("id"@)) {
        (Some(method), Some(id)) => if method == "initialize"@ {
            step matches Step::Reply(reply) && reply.tree() == result_tree(id, greeting(msg))
        } else if method == "ping"@ {
            step matches Step::Reply(reply) && reply.tree() == result_tree(
                id,
                JsonTree::Object(no_fields()),
            )
        } else if method == "tools/list"@ {
            step matches Step::Reply(reply) && reply.tree() == result_tree(id, listing())
        } else if method == "tools/call"@ {
            step matches Step::Call { id: caller, name, args } && caller.tree() == id && name@
                == called_tool(msg) && args.tree() == called_args(msg)
        } else {
            step matches Step::Reply(reply) && reply.tree() == error_tree(
                id,
                METHOD_NOT_FOUND,
                "method not found: "@ + method,
            )
        },
        _ => step is Ignore,
    }
}

fn greet(msg: &Json) -> (result: Json)
    ensures
        result.tree() == greeting(msg.tree()),
{
    let version = match msg.get2("params", "protocolVersion") {
        Some(value) => value.clone(),
        None => Json::text("2024-11-05"),
    };
    let capabilities = Fields::new().with("tools", Fields::new().build()).build();
    let info = Fields::new().with("name", Json::text("aether-query-agent")).with(
        "version",
        Json::text(SERVER_VERSION),
    ).build();
    Fields::new().with("protocolVersion", version).with("capabilities", capabilities).with(
        "serverInfo",
        info,
    ).build()
}

/// Decide what to do about a message.
pub fn handle(msg: &Json) -> (step: Step)
    ensures
        answers(step, msg.tree()),
{
    let method = match msg.text_at("method") {
        Some(method) => method,
        None => {
            return Step::Ignore;
        },
    };
    let id = match msg.get("id") {
        Some(id) => id,
        None => {
            return Step::Ignore;
        },
    };
    if same(method, "initialize") {
        Step::Reply(rpc_result(id, greet(msg)))
    } else if same(method, "ping") {
        Step::Reply(rpc_result(id, Fields::new().build()))
    } else if same(method, "tools/list") {
        Step::Reply(rpc_result(id, Fields::new().with("tools", query_definitions()).build()))
    } else if same(method, "tools/call") {
        let name = match msg.get2("params", "name") {
            Some(value) => match value.as_text() {
                Some(name) => owned(name),
                None => String::new(),
            },
            None => String::new(),
        };
        let args = match msg.get2("params", "arguments") {
            Some(args) => args.clone(),
            None => Fields::new().build(),
        };
        Step::Call { id: id.clone(), name, args }
    } else {
        let mut message = owned("method not found: ");
        message.append(method);
        Step::Reply(rpc_error(id, METHOD_NOT_FOUND, message.as_str()))
    }
}

/// The answer to a tool call: its text, and whether it is an error.
pub open spec fn outcome_tree(text: Seq<char>, is_error: bool) -> JsonTree {
    JsonTree::Object(
        no_fields().push(
            (
                "content"@,
                JsonTree::List(
                    seq![
                        JsonTree::Object(
                            no_fields().push(("type"@, JsonTree::Text("text"@))).push(
                                ("text"@, JsonTree::Text(text)),
                            ),
                        ),
                    ],
                ),
            ),
        ).push(("isError"@, JsonTree::Bool(is_error))),
    )
}

/// The response to a tool call. A failed tool is an answer that the caller can act on, and no
/// protocol error.
pub fn finish_call(id: &Json, outcome: Result<String, String>) -> (reply: Json)
    ensures
        reply.tree() == result_tree(
            id.tree(),
            match outcome {
                Ok(text) => outcome_tree(text@, false),
                Err(text) => outcome_tree(text@, true),
            },
        ),
{
    let (text, is_error) = match outcome {
        Ok(text) => (text, false),
        Err(text) => (text, true),
    };
    let mut content: Vec<Json> = Vec::new();
    content.push(
        Fields::new().with("type", Json::text("text")).with(
            "text",
            Json::text(text.as_str()),
        ).build(),
    );
    proof {
        assert(item_trees(content@) =~= seq![
            JsonTree::Object(
                no_fields().push(("type"@, JsonTree::Text("text"@))).push(
                    ("text"@, JsonTree::Text(text@)),
                ),
            ),
        ]);
    }
    rpc_result(
        id,
        Fields::new().with("content", Json::list(content)).with(
            "isError",
            Json::Bool(is_error),
        ).build(),
    )
}

/// Decide what to do about a line of input: blank lines and lines that are no JSON are ignored.
pub fn on_line(line: &str) -> (step: Step)
    ensures
        trimmed(line@).len() == 0 || parsed(trimmed(line@)) is None ==> step is Ignore,
        trimmed(line@).len() > 0 && parsed(trimmed(line@)) is Some ==> answers(
            step,
            parsed(trimmed(line@))->0,
        ),
{
    let text = trim(line);
    if text.as_str().is_empty() {
        return Step::Ignore;
    }
    match parse(text.as_str()) {
        Some(msg) => handle(&msg),
        None => Step::Ignore,
    }
}

/// A response as a line of output.
pub fn reply_line(reply: &Json) -> (line: String)
    ensures
        line@ == rendered(reply.tree()).push('\n'),
{
    let mut line = render(reply);
    line.push('\n');
    line
}

/// Every request is answered: a message with a method and an id is never ignored.
pub proof fn law_requests_are_answered(step: Step, msg: JsonTree)
    requires
        answers(step, msg),
        text_at(msg, "method"@) is Some,
        msg.get("id"@) is Some,
    ensures
        !(step is Ignore),
{
}

/// Notifications get no response.
pub proof fn law_notifications_are_silent(step: Step, msg: JsonTree)
    requires
        answers(step, msg),
        msg.get("id"@) is None,
    ensures
        step is Ignore,
{
}

/// A response carries the id of its request.
pub proof fn law_replies_carry_the_id(step: Step, msg: JsonTree)
    requires
        answers(step, msg),
        step is Reply,
    ensures
        msg.get("id"@) is Some,
        step->Reply_0.tree().get("id"@) == msg.get("id"@),
{
    reveal_strlit("jsonrpc");
    reveal_strlit("id");
    let id = msg.get("id"@)->0;
    assert forall|last: (Seq<char>, JsonTree)| #[trigger]
        lookup_id(no_fields().push(("jsonrpc"@, JsonTree::Text("2.0"@))).push(("id"@, id)).push(last))
            == Some(id) by {
        let fields = no_fields().push(("jsonrpc"@, JsonTree::Text("2.0"@))).push(("id"@, id)).push(
            last,
        );
        let rest = fields.drop_first();
        assert(fields[0].0.len() != "id"@.len());
        assert(rest[0] == ("id"@, id));
        reveal_with_fuel(crate::json::lookup, 3);
    }
    match step {
        Step::Reply(reply) => {
            let fields = reply.tree()->Object_0;
            assert(fields[2] == fields.last());
            assert(fields =~= no_fields().push(("jsonrpc"@, JsonTree::Text("2.0"@))).push(
                ("id"@, id),
            ).push(fields.last()));
            assert(lookup_id(fields) == Some(id));
        },
        _ => {},
    }
}

spec fn lookup_id(fields: Seq<(Seq<char>, JsonTree)>) -> Option<JsonTree> {
    crate::json::lookup(fields, "id"@)
}

/// Each method has its own answer: a greeting with the tools that are offered, an empty result for
/// a ping, the list of tools, and a call for a tool; any other method is answered with the code
/// for a method that is not there, and its name.
pub proof fn law_each_method_has_its_answer(step: Step, msg: JsonTree, id: JsonTree, m: Seq<char>)
    requires
        answers(step, msg),
        msg.get("method"@) == Some(JsonTree::Text(m)),
        msg.get("id"@) == Some(id),
    ensures
        m == "tools/call"@ <==> step is Call,
        step matches Step::Call { id: caller, name, args } ==> caller.tree() == id && (msg.get2(
            "params"@,
            "name"@,
        ) matches Some(JsonTree::Text(text)) ==> name@ == text) && (msg.get2(
            "params"@,
            "arguments"@,
        ) matches Some(given) ==> args.tree() == given) && (msg.get2("params"@, "name"@) is None
            ==> name@.len() == 0) && (msg.get2("params"@, "arguments"@) is None ==> args.tree()
            == JsonTree::Object(Seq::empty())),
        step matches Step::Reply(reply) ==> {
            let parts = reply.tree()->Object_0;
            &&& reply.tree() is Object
            &&& parts.contains(("jsonrpc"@, JsonTree::Text("2.0"@)))
            &&& parts.contains(("id"@, id))
            &&& m == "ping"@ ==> parts.contains(("result"@, JsonTree::Object(Seq::empty())))
            &&& m == "tools/list"@ ==> parts.contains(
                (
                    "result"@,
                    JsonTree::Object(
                        Seq::empty().push(
                            (
                                "tools"@,
                                JsonTree::List(seq![search_tool(), semantic_tool(), state_tool()]),
                            ),
                        ),
                    ),
                ),
            )
            &&& m != "initialize"@ && m != "ping"@ && m != "tools/list"@ ==> parts.contains(
                (
                    "error"@,
                    JsonTree::Object(
                        Seq::empty().push(("code"@, JsonTree::Negative((-32601) as i64))).push(
                            ("message"@, JsonTree::Text("method not found: "@ + m)),
                        ),
                    ),
                ),
            )
        },
{
    reveal_strlit("initialize");
    reveal_strlit("ping");
    reveal_strlit("tools/list");
    reveal_strlit("tools/call");
    assert("initialize"@.len() == 10 && "ping"@.len() == 4);
    assert("tools/list"@.len() == 10 && "tools/call"@.len() == 10);
    assert("initialize"@[0] == 'i' && "tools/list"@[0] == 't' && "tools/call"@[0] == 't');
    assert("tools/list"@[6] == 'l' && "tools/call"@[6] == 'c');
    if let Step::Reply(reply) = step {
        let parts = reply.tree()->Object_0;
        assert(parts[0] == ("jsonrpc"@, JsonTree::Text("2.0"@)));
        assert(parts[1] == ("id"@, id));
        let third = parts[2];
        assert(parts.contains(third));
    }
}

/// A tool's text reaches the caller as it is, marked as an error exactly where the tool failed.
pub proof fn law_tool_outcomes_reach_the_caller(text: Seq<char>, failed: bool)
    ensures
        outcome_tree(text, failed)->Object_0.contains(("isError"@, JsonTree::Bool(failed))),
        outcome_tree(text, failed)->Object_0.contains(
            (
                "content"@,
                JsonTree::List(
                    seq![
                        JsonTree::Object(
                            Seq::empty().push(("type"@, JsonTree::Text("text"@))).push(
                                ("text"@, JsonTree::Text(text)),
                            ),
                        ),
                    ],
                ),
            ),
        ),
{
    let parts = outcome_tree(text, failed)->Object_0;
    assert(parts[1] == ("isError"@, JsonTree::Bool(failed)));
    assert(parts.contains(parts[0]));
}

/// A greeting speaks the version that the caller asked for, and one of its own where none is asked
/// for; it names this server.
pub proof fn law_a_greeting_speaks_the_callers_version(msg: JsonTree)
    ensures
        msg.get2("params"@, "protocolVersion"@) matches Some(asked) ==> greeting(
            msg,
        )->Object_0.contains(("protocolVersion"@, asked)),
        msg.get2("params"@, "protocolVersion"@) is None ==> greeting(msg)->Object_0.contains(
            ("protocolVersion"@, JsonTree::Text("2024-11-05"@)),
        ),
        greeting(msg)->Object_0.contains(
            (
                "serverInfo"@,
                JsonTree::Object(
                    Seq::empty().push(("name"@, JsonTree::Text("aether-query-agent"@))).push(
                        ("version"@, JsonTree::Text(SERVER_VERSION@)),
                    ),
                ),
            ),
        ),
{
    let parts = greeting(msg)->Object_0;
    assert(parts.contains(parts[0]));
    assert(parts.contains(parts[2]));
}

} // verus!
