//! The read-only tool surface for agents: definitions (JSON schema), the reading of a call's
//! arguments, and the rendering of its answer.
//!
//! One implementation serves every agent front-end. No tool mutates the cluster.

use vstd::prelude::*;
use vstd::string::*;

use crate::double::Double;
use crate::json::{item_trees, no_fields, text_at, Fields, Json, JsonTree};
use crate::agg::{is_top, top_buckets};
use crate::client::{manifest_summary, summary_parts};
use crate::text::{decimal, decimal_of, join, joined, lemma_texts_push, owned, same, texts};
use crate::wire::{
    AggKind, AggregatePartial, AggregateRequest, AggregateResponse, Filter, FilterCondition,
    NodeState, NumericRange, QueryManifest, SearchHit, SearchResponse, Test,
};

verus! {

/// A schema property: its type and what it is for.
pub open spec fn property(kind: Seq<char>, about: Seq<char>) -> JsonTree {
    JsonTree::Object(
        no_fields().push(("type"@, JsonTree::Text(kind))).push(
            ("description"@, JsonTree::Text(about)),
        ),
    )
}

/// The schema of a result limit.
pub open spec fn limit_property() -> JsonTree {
    JsonTree::Object(
        no_fields().push(("type"@, JsonTree::Text("integer"@))).push(
            ("minimum"@, JsonTree::Natural(1)),
        ).push(("maximum"@, JsonTree::Natural(50))).push(
            ("description"@, JsonTree::Text("max results (default 5)"@)),
        ),
    )
}

/// The schema of a list, with the type of its elements.
pub open spec fn list_property(items: Seq<char>, about: Seq<char>) -> JsonTree {
    JsonTree::Object(
        no_fields().push(("type"@, JsonTree::Text("array"@))).push(
            ("description"@, JsonTree::Text(about)),
        ).push(
            ("items"@, JsonTree::Object(no_fields().push(("type"@, JsonTree::Text(items))))),
        ),
    )
}

/// The schema of an argument object.
pub open spec fn schema(
    properties: Seq<(Seq<char>, JsonTree)>,
    required: Option<Seq<char>>,
) -> JsonTree {
    let base = no_fields().push(("type"@, JsonTree::Text("object"@))).push(
        ("properties"@, JsonTree::Object(properties)),
    );
    match required {
        Some(name) => JsonTree::Object(
            base.push(("required"@, JsonTree::List(seq![JsonTree::Text(name)]))),
        ),
        None => JsonTree::Object(base),
    }
}

/// The definition of a tool.
pub open spec fn tool(name: Seq<char>, about: Seq<char>, input: JsonTree) -> JsonTree {
    JsonTree::Object(
        no_fields().push(("name"@, JsonTree::Text(name))).push(
            ("description"@, JsonTree::Text(about)),
        ).push(("inputSchema"@, input)),
    )
}

/// Keyword search.
pub open spec fn search_tool() -> JsonTree {
    tool(
        "search_flights"@,
        "Keyword search over live flight documents (callsign, origin, destination, aircraft type). Fans out across every shard and returns a merged, ranked result."@,
        schema(
            no_fields().push(
                ("query"@, property("string"@, "keywords, e.g. a callsign or a country"@)),
            ).push(("limit"@, limit_property())).push(
                (
                    "filters"@,
                    list_property(
                        "object"@,
                        "structured conditions, ANDed. Each: {field, equals} for text (origin, aircraft_type, callsign...), {field, min?, max?} for numeric (altitude, velocity, observed_at...), {field, is} for on_ground."@,
                    ),
                ),
            ),
            Some("query"@),
        ),
    )
}

/// Vector search.
pub open spec fn semantic_tool() -> JsonTree {
    tool(
        "semantic_search_flights"@,
        "Semantic (vector) search: the query text is embedded and matched by meaning against flight documents, fanned across every shard."@,
        schema(
            no_fields().push(
                ("query"@, property("string"@, "free-text description of what to find"@)),
            ).push(("limit"@, limit_property())),
            Some("query"@),
        ),
    )
}

/// Topology.
pub open spec fn state_tool() -> JsonTree {
    tool(
        "cluster_state"@,
        "Current cluster topology as the coordinator sees it: shards, leaders and followers, liveness, and virtual-shard placement. Read-only telemetry."@,
        schema(no_fields(), None),
    )
}

/// The kinds of aggregation, by name.
pub open spec fn kind_names() -> Seq<JsonTree> {
    seq![
        JsonTree::Text("count"@),
        JsonTree::Text("value_counts"@),
        JsonTree::Text("time_histogram"@),
        JsonTree::Text("numeric_histogram"@),
        JsonTree::Text("geo_grid"@),
        JsonTree::Text("percentiles"@),
    ]
}

/// Aggregation.
pub open spec fn aggregate_tool() -> JsonTree {
    tool(
        "aggregate_flights"@,
        "Summarize flights across the whole cluster: counts, value-counts (per origin/aircraft type/...), histograms (time or a numeric field), geo-density grid, or percentiles of a numeric field. Each shard computes a partial; the coordinator merges them and reports coverage."@,
        schema(
            no_fields().push(
                (
                    "kind"@,
                    JsonTree::Object(
                        no_fields().push(("type"@, JsonTree::Text("string"@))).push(
                            ("enum"@, JsonTree::List(kind_names())),
                        ).push(("description"@, JsonTree::Text("which aggregation"@))),
                    ),
                ),
            ).push(
                ("query"@, property("string"@, "optional keyword filter (empty = all flights)"@)),
            ).push(
                (
                    "field"@,
                    property(
                        "string"@,
                        "field for value_counts (origin, aircraft_type, ...) or numeric_histogram/percentiles (altitude, velocity, ...)"@,
                    ),
                ),
            ).push(
                (
                    "interval"@,
                    property(
                        "number"@,
                        "bucket width: ms for time, units for numeric, degrees for geo_grid"@,
                    ),
                ),
            ).push(
                (
                    "percentiles"@,
                    list_property("number"@, "for percentiles, e.g. [50, 95, 99]"@),
                ),
            ).push(
                (
                    "filters"@,
                    list_property(
                        "object"@,
                        "structured conditions, ANDed. Each: {field, equals} for text, {field, min?, max?} for numeric, {field, is} for on_ground."@,
                    ),
                ),
            ),
            Some("kind"@),
        ),
    )
}

fn make_property(kind: &str, about: &str) -> (json: Json)
    ensures
        json.tree() == property(kind@, about@),
{
    Fields::new().with("type", Json::text(kind)).with("description", Json::text(about)).build()
}

fn make_limit() -> (json: Json)
    ensures
        json.tree() == limit_property(),
{
    Fields::new().with("type", Json::text("integer")).with("minimum", Json::natural(1)).with(
        "maximum",
        Json::natural(50),
    ).with("description", Json::text("max results (default 5)")).build()
}

fn make_list(items: &str, about: &str) -> (json: Json)
    ensures
        json.tree() == list_property(items@, about@),
{
    Fields::new().with("type", Json::text("array")).with("description", Json::text(about)).with(
        "items",
        Fields::new().with("type", Json::text(items)).build(),
    ).build()
}

fn make_schema(properties: Fields, required: Option<&str>) -> (json: Json)
    ensures
        json.tree() == schema(
            properties.trees(),
            match required {
                Some(name) => Some(name@),
                None => None,
            },
        ),
{
    let base = Fields::new().with("type", Json::text("object")).with(
        "properties",
        properties.build(),
    );
    match required {
        Some(name) => {
            let mut names: Vec<Json> = Vec::new();
            names.push(Json::text(name));
            assert(item_trees(names@) =~= seq![JsonTree::Text(name@)]);
            base.with("required", Json::list(names)).build()
        },
        None => base.build(),
    }
}

fn make_tool(name: &str, about: &str, input: Json) -> (json: Json)
    ensures
        json.tree() == tool(name@, about@, input.tree()),
{
    Fields::new().with("name", Json::text(name)).with("description", Json::text(about)).with(
        "inputSchema",
        input,
    ).build()
}

fn define_search() -> (json: Json)
    ensures
        json.tree() == search_tool(),
{
    make_tool(
        "search_flights",
        "Keyword search over live flight documents (callsign, origin, destination, aircraft type). Fans out across every shard and returns a merged, ranked result.",
        make_schema(
            Fields::new().with(
                "query",
                make_property("string", "keywords, e.g. a callsign or a country"),
            ).with("limit", make_limit()).with(
                "filters",
                make_list(
                    "object",
                    "structured conditions, ANDed. Each: {field, equals} for text (origin, aircraft_type, callsign...), {field, min?, max?} for numeric (altitude, velocity, observed_at...), {field, is} for on_ground.",
                ),
            ),
            Some("query"),
        ),
    )
}

fn define_semantic() -> (json: Json)
    ensures
        json.tree() == semantic_tool(),
{
    make_tool(
        "semantic_search_flights",
        "Semantic (vector) search: the query text is embedded and matched by meaning against flight documents, fanned across every shard.",
        make_schema(
            Fields::new().with(
                "query",
                make_property("string", "free-text description of what to find"),
            ).with("limit", make_limit()),
            Some("query"),
        ),
    )
}

fn define_state() -> (json: Json)
    ensures
        json.tree() == state_tool(),
{
    make_tool(
        "cluster_state",
        "Current cluster topology as the coordinator sees it: shards, leaders and followers, liveness, and virtual-shard placement. Read-only telemetry.",
        make_schema(Fields::new(), None),
    )
}

fn define_aggregate() -> (json: Json)
    ensures
        json.tree() == aggregate_tool(),
{
    let mut kinds: Vec<Json> = Vec::new();
    kinds.push(Json::text("count"));
    kinds.push(Json::text("value_counts"));
    kinds.push(Json::text("time_histogram"));
    kinds.push(Json::text("numeric_histogram"));
    kinds.push(Json::text("geo_grid"));
    kinds.push(Json::text("percentiles"));
    assert(item_trees(kinds@) =~= kind_names());
    make_tool(
        "aggregate_flights",
        "Summarize flights across the whole cluster: counts, value-counts (per origin/aircraft type/...), histograms (time or a numeric field), geo-density grid, or percentiles of a numeric field. Each shard computes a partial; the coordinator merges them and reports coverage.",
        make_schema(
            Fields::new().with(
                "kind",
                Fields::new().with("type", Json::text("string")).with("enum", Json::list(kinds)).with(
                    "description",
                    Json::text("which aggregation"),
                ).build(),
            ).with(
                "query",
                make_property("string", "optional keyword filter (empty = all flights)"),
            ).with(
                "field",
                make_property(
                    "string",
                    "field for value_counts (origin, aircraft_type, ...) or numeric_histogram/percentiles (altitude, velocity, ...)",
                ),
            ).with(
                "interval",
                make_property(
                    "number",
                    "bucket width: ms for time, units for numeric, degrees for geo_grid",
                ),
            ).with(
                "percentiles",
                make_list("number", "for percentiles, e.g. [50, 95, 99]"),
            ).with(
                "filters",
                make_list(
                    "object",
                    "structured conditions, ANDed. Each: {field, equals} for text, {field, min?, max?} for numeric, {field, is} for on_ground.",
                ),
            ),
            Some("kind"),
        ),
    )
}

/// The definitions of all tools.
pub fn definitions() -> (json: Json)
    ensures
        json.tree() == JsonTree::List(
            seq![search_tool(), semantic_tool(), state_tool(), aggregate_tool()],
        ),
{
    let mut tools: Vec<Json> = Vec::new();
    tools.push(define_search());
    tools.push(define_semantic());
    tools.push(define_state());
    tools.push(define_aggregate());
    assert(item_trees(tools@) =~= seq![
        search_tool(),
        semantic_tool(),
        state_tool(),
        aggregate_tool(),
    ]);
    Json::list(tools)
}

/// The definitions of the query tools that the protocol server lists: keyword search, semantic
/// search and topology.
pub fn query_definitions() -> (json: Json)
    ensures
        json.tree() == JsonTree::List(seq![search_tool(), semantic_tool(), state_tool()]),
{
    let mut tools: Vec<Json> = Vec::new();
    tools.push(define_search());
    tools.push(define_semantic());
    tools.push(define_state());
    assert(item_trees(tools@) =~= seq![search_tool(), semantic_tool(), state_tool()]);
    Json::list(tools)
}

/// What one element of a `filters` argument means.
pub enum ConditionMeaning {
    NoField,
    BadBound(Seq<char>),
    NoTest(Seq<char>),
    Equals(Seq<char>, Seq<char>),
    Range(Seq<char>, Option<Double>, Option<Double>),
    Is(Seq<char>, bool),
}

/// The number in a field, if it holds one.
pub open spec fn number_at(tree: JsonTree, key: Seq<char>) -> Option<Double> {
    match tree.get(key) {
        Some(value) => value.as_double(),
        None => None,
    }
}

/// The truth value in a field, if it holds one.
pub open spec fn bool_at(tree: JsonTree, key: Seq<char>) -> Option<bool> {
    match tree.get(key) {
        Some(value) => value.as_bool(),
        None => None,
    }
}

/// Whether a field is there but holds no number.
pub open spec fn bad_bound(c: JsonTree, key: Seq<char>) -> bool {
    c.get(key) is Some && number_at(c, key) is None
}

/// What one element of a `filters` argument means: a text `equals` first, then the presence of
/// `min` or `max`, then a truth value `is`. A bound that is no number, an `equals` that is no text
/// and an `is` that is no truth value are refused.
pub open spec fn condition_meaning(c: JsonTree) -> ConditionMeaning {
    match text_at(c, "field"@) {
        None => ConditionMeaning::NoField,
        Some(field) => if bad_bound(c, "min"@) || bad_bound(c, "max"@) {
            ConditionMeaning::BadBound(field)
        } else if (c.get("equals"@) is Some && text_at(c, "equals"@) is None) || (c.get("is"@)
            is Some && bool_at(c, "is"@) is None) {
            ConditionMeaning::NoTest(field)
        } else if text_at(c, "equals"@) is Some {
            ConditionMeaning::Equals(field, text_at(c, "equals"@)->0)
        } else if c.get("min"@) is Some || c.get("max"@) is Some {
            ConditionMeaning::Range(field, number_at(c, "min"@), number_at(c, "max"@))
        } else if bool_at(c, "is"@) is Some {
            ConditionMeaning::Is(field, bool_at(c, "is"@)->0)
        } else {
            ConditionMeaning::NoTest(field)
        },
    }
}

/// Whether a condition is what an element means.
pub open spec fn reads_as(condition: FilterCondition, meaning: ConditionMeaning) -> bool {
    match (meaning, condition.test) {
        (ConditionMeaning::Range(field, min, max), Some(Test::Range(range))) => condition.field@
            == field && range.min == min && range.max == max,
        (ConditionMeaning::Is(field, want), Some(Test::Is(value))) => condition.field@ == field
            && value == want,
        (ConditionMeaning::Equals(field, want), Some(Test::Equals(value))) => condition.field@
            == field && value@ == want,
        _ => false,
    }
}

/// The message for an element that is refused; `None` for one that is not.
pub open spec fn condition_refusal(meaning: ConditionMeaning) -> Option<Seq<char>> {
    match meaning {
        ConditionMeaning::NoField => Some("each filter needs a 'field'"@),
        ConditionMeaning::BadBound(field) => Some(
            "filter on '"@ + field + "' needs numbers for 'min' and 'max'"@,
        ),
        ConditionMeaning::NoTest(field) => Some(
            "filter on '"@ + field + "' needs 'equals', 'min'/'max', or 'is'"@,
        ),
        _ => None,
    }
}

/// The elements of the `filters` argument: none of them where it is absent, and `None` where it is
/// there but no list.
pub open spec fn filter_items(args: JsonTree) -> Option<Seq<JsonTree>> {
    match args.get("filters"@) {
        Some(value) => value.as_list(),
        None => Some(Seq::empty()),
    }
}

/// Whether a result is the reading of the `filters` argument: no filter for no elements, a
/// condition for each element, or the message for the first element that is refused, or for an
/// argument that is no list.
pub open spec fn reads_filters(
    result: Result<Option<Filter>, String>,
    elements: Option<Seq<JsonTree>>,
) -> bool {
    match (elements, result) {
        (None, Err(message)) => message@ == "'filters' must be a list of conditions"@,
        (None, Ok(_)) => false,
        (Some(items), Ok(None)) => items.len() == 0,
        (Some(items), Ok(Some(filter))) => items.len() > 0 && filter.conditions@.len()
            == items.len() && forall|i: int|
            0 <= i < items.len() ==> reads_as(
                #[trigger] filter.conditions@[i],
                condition_meaning(items[i]),
            ),
        (Some(items), Err(message)) => exists|i: int|
            0 <= i < items.len() && condition_refusal(condition_meaning(#[trigger] items[i]))
                == Some(message@) && forall|j: int|
                0 <= j < i ==> condition_refusal(condition_meaning(#[trigger] items[j])) is None,
    }
}

fn no_test(field: &str) -> (message: String)
    ensures
        message@ == "filter on '"@ + field@ + "' needs 'equals', 'min'/'max', or 'is'"@,
{
    let mut message = owned("filter on '");
    message.append(field);
    message.append("' needs 'equals', 'min'/'max', or 'is'");
    message
}

fn read_number(c: &Json, key: &str) -> (number: Option<Double>)
    ensures
        number == number_at(c.tree(), key@),
{
    match c.get(key) {
        Some(value) => value.as_double(),
        None => None,
    }
}

fn read_condition(c: &Json) -> (result: Result<FilterCondition, String>)
    ensures
        match result {
            Ok(condition) => reads_as(condition, condition_meaning(c.tree())),
            Err(message) => condition_refusal(condition_meaning(c.tree())) == Some(message@),
        },
{
    let field = match c.text_at("field") {
        Some(field) => owned(field),
        None => {
            return Err(owned("each filter needs a 'field'"));
        },
    };
    let min = read_number(c, "min");
    let max = read_number(c, "max");
    if (c.get("min").is_some() && min.is_none()) || (c.get("max").is_some() && max.is_none()) {
        let mut message = owned("filter on '");
        message.append(field.as_str());
        message.append("' needs numbers for 'min' and 'max'");
        return Err(message);
    }
    let equals = c.text_at("equals");
    let wanted: Option<bool> = match c.get("is") {
        Some(value) => value.as_bool(),
        None => None,
    };
    if (c.get("equals").is_some() && equals.is_none()) || (c.get("is").is_some()
        && wanted.is_none()) {
        return Err(no_test(field.as_str()));
    }
    match equals {
        Some(want) => {
            return Ok(FilterCondition { field, test: Some(Test::Equals(owned(want))) });
        },
        None => {},
    }
    if c.get("min").is_some() || c.get("max").is_some() {
        return Ok(FilterCondition { field, test: Some(Test::Range(NumericRange { min, max })) });
    }
    match wanted {
        Some(want) => Ok(FilterCondition { field, test: Some(Test::Is(want)) }),
        None => Err(no_test(field.as_str())),
    }
}

/// Read a tool call's `filters` argument. Shape errors are reported to the caller; an unknown
/// field is left to the server's own validation.
pub fn parse_filters(args: &Json) -> (result: Result<Option<Filter>, String>)
    ensures
        reads_filters(result, filter_items(args.tree())),
{
    let value = match args.get("filters") {
        Some(value) => value,
        None => {
            return Ok(None);
        },
    };
    match value.as_list() {
        None => Err(owned("'filters' must be a list of conditions")),
        Some(items) => {
            let ghost trees = item_trees(items@);
            let mut conditions: Vec<FilterCondition> = Vec::new();
            let mut i: usize = 0;
            while i < items.len()
                invariant
                    i <= items@.len(),
                    trees == item_trees(items@),
                    Some(trees) == filter_items(args.tree()),
                    conditions@.len() == i,
                    forall|j: int|
                        0 <= j < i ==> reads_as(
                            #[trigger] conditions@[j],
                            condition_meaning(trees[j]),
                        ),
                decreases items@.len() - i,
            {
                assert(trees[i as int] == items@[i as int].tree());
                match read_condition(&items[i]) {
                    Ok(condition) => {
                        conditions.push(condition);
                    },
                    Err(message) => {
                        proof {
                            assert(condition_refusal(condition_meaning(trees[i as int])) == Some(
                                message@,
                            ));
                            assert forall|j: int| 0 <= j < i implies condition_refusal(
                                condition_meaning(#[trigger] trees[j]),
                            ) is None by {
                                assert(reads_as(conditions@[j], condition_meaning(trees[j])));
                            }
                        }
                        return Err(message);
                    },
                }
                i = i + 1;
            }
            if conditions.len() == 0 {
                Ok(None)
            } else {
                Ok(Some(Filter { conditions }))
            }
        },
    }
}

/// A tool call once its name and arguments are understood.
#[derive(Debug, PartialEq)]
pub enum ToolCall {
    /// Keyword search. The filter is looked at once a coordinator has been reached.
    Search { query: String, limit: u32, filter: Result<Option<Filter>, String> },
    /// Vector search for the embedding of `query`.
    SemanticSearch { query: String, limit: u32 },
    /// Topology.
    ClusterState,
    /// Aggregation.
    Aggregate(AggregateRequest),
}

/// The result limit of a call: five unless a natural number says otherwise, cut to 32 bits.
pub open spec fn limit_of(args: JsonTree) -> u32 {
    match args.get("limit"@) {
        Some(value) => match value.as_natural() {
            Some(n) => n as u32,
            None => 5,
        },
        None => 5,
    }
}

/// The aggregation that a name stands for.
pub open spec fn kind_named(name: Seq<char>) -> Option<AggKind> {
    if name == "count"@ {
        Some(AggKind::Count)
    } else if name == "value_counts"@ {
        Some(AggKind::ValueCounts)
    } else if name == "time_histogram"@ {
        Some(AggKind::TimeHistogram)
    } else if name == "numeric_histogram"@ {
        Some(AggKind::NumericHistogram)
    } else if name == "geo_grid"@ {
        Some(AggKind::GeoGrid)
    } else if name == "percentiles"@ {
        Some(AggKind::Percentiles)
    } else {
        None
    }
}

/// The text of an argument, or a default.
pub open spec fn text_or(args: JsonTree, key: Seq<char>, default: Seq<char>) -> Seq<char> {
    match text_at(args, key) {
        Some(text) => text,
        None => default,
    }
}

/// The numbers of a list, in order; anything else in it is left out.
pub open spec fn numbers_of(items: Seq<JsonTree>) -> Seq<Double>
    decreases items.len(),
{
    if items.len() == 0 {
        Seq::empty()
    } else {
        match items.last().as_double() {
            Some(d) => numbers_of(items.drop_last()).push(d),
            None => numbers_of(items.drop_last()),
        }
    }
}

/// The percentiles that a call asks for.
pub open spec fn percentiles_of(args: JsonTree) -> Seq<Double> {
    match args.get("percentiles"@) {
        Some(value) => match value.as_list() {
            Some(items) => numbers_of(items),
            None => Seq::empty(),
        },
        None => Seq::empty(),
    }
}

/// Whether a result is the understanding of a tool call.
pub open spec fn understands(
    result: Result<ToolCall, String>,
    name: Seq<char>,
    args: JsonTree,
) -> bool {
    if name == "search_flights"@ {
        match (text_at(args, "query"@), result) {
            (Some(text), Ok(ToolCall::Search { query, limit, filter })) => query@ == text && limit
                == limit_of(args) && reads_filters(filter, filter_items(args)),
            (None, Err(message)) => message@ == "missing required argument: query"@,
            _ => false,
        }
    } else if name == "semantic_search_flights"@ {
        match (text_at(args, "query"@), result) {
            (Some(text), Ok(ToolCall::SemanticSearch { query, limit })) => query@ == text && limit
                == limit_of(args),
            (None, Err(message)) => message@ == "missing required argument: query"@,
            _ => false,
        }
    } else if name == "cluster_state"@ {
        result == Ok::<ToolCall, String>(ToolCall::ClusterState)
    } else if name == "aggregate_flights"@ {
        match (kind_named(text_or(args, "kind"@, "count"@)), result) {
            (None, Err(message)) => message@ == "unknown aggregation kind: "@ + text_or(
                args,
                "kind"@,
                "count"@,
            ),
            (Some(kind), Ok(ToolCall::Aggregate(req))) => {
                &&& req.kind == kind
                &&& req.query@ == text_or(args, "query"@, ""@)
                &&& req.field@ == text_or(args, "field"@, ""@)
                &&& req.interval == match number_at(args, "interval"@) {
                    Some(d) => d,
                    None => Double { bits: 0 },
                }
                &&& req.percentiles@ == percentiles_of(args)
                &&& reads_filters(Ok(req.filter), filter_items(args))
            },
            (Some(_), Err(message)) => reads_filters(Err(message), filter_items(args)),
            _ => false,
        }
    } else {
        result matches Err(message) && message@ == "unknown tool: "@ + name
    }
}

fn read_limit(args: &Json) -> (limit: u32)
    ensures
        limit == limit_of(args.tree()),
{
    match args.get("limit") {
        Some(value) => match value.as_natural() {
            Some(n) => n as u32,
            None => 5,
        },
        None => 5,
    }
}

fn read_text_or(args: &Json, key: &str, default: &str) -> (text: String)
    ensures
        text@ == text_or(args.tree(), key@, default@),
{
    match args.text_at(key) {
        Some(text) => owned(text),
        None => owned(default),
    }
}

fn read_kind(name: &str) -> (kind: Option<AggKind>)
    ensures
        kind == kind_named(name@),
{
    if same(name, "count") {
        Some(AggKind::Count)
    } else if same(name, "value_counts") {
        Some(AggKind::ValueCounts)
    } else if same(name, "time_histogram") {
        Some(AggKind::TimeHistogram)
    } else if same(name, "numeric_histogram") {
        Some(AggKind::NumericHistogram)
    } else if same(name, "geo_grid") {
        Some(AggKind::GeoGrid)
    } else if same(name, "percentiles") {
        Some(AggKind::Percentiles)
    } else {
        None
    }
}

fn read_percentiles(args: &Json) -> (numbers: Vec<Double>)
    ensures
        numbers@ == percentiles_of(args.tree()),
{
    let list: Option<&Vec<Json>> = match args.get("percentiles") {
        Some(value) => value.as_list(),
        None => None,
    };
    let mut numbers: Vec<Double> = Vec::new();
    match list {
        None => {},
        Some(items) => {
            let ghost trees = item_trees(items@);
            let mut i: usize = 0;
            assert(trees.take(0) =~= Seq::<JsonTree>::empty());
            while i < items.len()
                invariant
                    i <= items@.len(),
                    trees == item_trees(items@),
                    numbers@ == numbers_of(trees.take(i as int)),
                decreases items@.len() - i,
            {
                proof {
                    let seen = trees.take(i + 1);
                    assert(seen.drop_last() =~= trees.take(i as int));
                    assert(seen.last() == items@[i as int].tree());
                }
                match items[i].as_double() {
                    Some(d) => {
                        numbers.push(d);
                    },
                    None => {},
                }
                i = i + 1;
            }
            assert(trees.take(i as int) =~= trees);
        },
    }
    numbers
}

/// Understand a tool call: which tool, with which arguments; or what is wrong with it.
pub fn plan_call(name: &str, args: &Json) -> (result: Result<ToolCall, String>)
    ensures
        understands(result, name@, args.tree()),
{
    let limit: u32 = read_limit(args);
    if same(name, "search_flights") {
        match args.text_at("query") {
            None => Err(owned("missing required argument: query")),
            Some(query) => Ok(
                ToolCall::Search { query: owned(query), limit, filter: parse_filters(args) },
            ),
        }
    } else if same(name, "semantic_search_flights") {
        match args.text_at("query") {
            None => Err(owned("missing required argument: query")),
            Some(query) => Ok(ToolCall::SemanticSearch { query: owned(query), limit }),
        }
    } else if same(name, "cluster_state") {
        Ok(ToolCall::ClusterState)
    } else if same(name, "aggregate_flights") {
        let named = read_text_or(args, "kind", "count");
        match read_kind(named.as_str()) {
            None => {
                let mut message = owned("unknown aggregation kind: ");
                message.append(named.as_str());
                Err(message)
            },
            Some(kind) => {
                let interval = match read_number(args, "interval") {
                    Some(d) => d,
                    None => Double { bits: 0 },
                };
                match parse_filters(args) {
                    Err(message) => Err(message),
                    Ok(filter) => Ok(
                        ToolCall::Aggregate(
                            AggregateRequest {
                                query: read_text_or(args, "query", ""),
                                kind,
                                field: read_text_or(args, "field", ""),
                                interval,
                                percentiles: read_percentiles(args),
                                filter,
                            },
                        ),
                    ),
                }
            },
        }
    } else {
        let mut message = owned("unknown tool: ");
        message.append(name);
        Err(message)
    }
}

/// The line that gives an answer's coverage and freshness; nothing without a manifest.
pub open spec fn provenance_text(manifest: Option<QueryManifest>, now_ms: i64) -> Seq<char> {
    match manifest {
        Some(m) => "\nprovenance: "@ + joined(summary_parts(m, now_ms), " · "@) + "\n"@,
        None => Seq::empty(),
    }
}

fn append_provenance(out: &mut String, manifest: &Option<QueryManifest>, now_ms: i64)
    ensures
        final(out)@ == old(out)@ + provenance_text(*manifest, now_ms),
{
    match manifest {
        Some(m) => {
            out.append("\nprovenance: ");
            out.append(manifest_summary(m, now_ms).as_str());
            out.append("\n");
            assert(out@ =~= old(out)@ + provenance_text(*manifest, now_ms));
        },
        None => {
            assert(out@ =~= old(out)@ + provenance_text(*manifest, now_ms));
        },
    }
}

/// The line of one hit, whose score reads `score`.
pub open spec fn hit_line(hit: SearchHit, score: Seq<char>) -> Seq<char> {
    let (icao24, callsign, origin, destination, aircraft) = match hit.document {
        Some(d) => (d.icao24@, d.callsign@, d.origin@, d.destination@, d.aircraft_type@),
        None => (Seq::empty(), Seq::empty(), Seq::empty(), Seq::empty(), Seq::empty()),
    };
    let via = match hit.provenance {
        Some(p) => p.source_group@,
        None => "?"@,
    };
    "- "@ + icao24 + " "@ + callsign + " ("@ + origin + " -> "@ + destination + ") "@ + aircraft
        + " score="@ + score + " [via "@ + via + "]\n"@
}

/// The lines of the hits, one after the other.
pub open spec fn hit_lines(hits: Seq<SearchHit>, scores: Seq<Seq<char>>) -> Seq<char>
    decreases hits.len(),
{
    if hits.len() == 0 {
        Seq::empty()
    } else {
        hit_lines(hits.drop_last(), scores.drop_last()) + hit_line(hits.last(), scores.last())
    }
}

fn line_of_hit(hit: &SearchHit, score: &str) -> (line: String)
    ensures
        line@ == hit_line(*hit, score@),
{
    let doc = match &hit.document {
        Some(d) => d.clone(),
        None => Default::default(),
    };
    proof {
        if hit.document is None {
            assert(doc.icao24@ =~= Seq::<char>::empty());
            assert(doc.callsign@ =~= Seq::<char>::empty());
            assert(doc.origin@ =~= Seq::<char>::empty());
            assert(doc.destination@ =~= Seq::<char>::empty());
            assert(doc.aircraft_type@ =~= Seq::<char>::empty());
        }
    }
    let mut line = owned("- ");
    line.append(doc.icao24.as_str());
    line.append(" ");
    line.append(doc.callsign.as_str());
    line.append(" (");
    line.append(doc.origin.as_str());
    line.append(" -> ");
    line.append(doc.destination.as_str());
    line.append(") ");
    line.append(doc.aircraft_type.as_str());
    line.append(" score=");
    line.append(score);
    line.append(" [via ");
    match &hit.provenance {
        Some(p) => line.append(p.source_group.as_str()),
        None => line.append("?"),
    }
    line.append("]\n");
    line
}

/// Render a search answer: coverage, one line per hit, and the provenance. `scores` gives the
/// text of each hit's score.
pub fn format_hits(resp: &SearchResponse, scores: &Vec<String>, now_ms: i64) -> (text: String)
    requires
        scores@.len() == resp.hits@.len(),
    ensures
        text@ == decimal_of(resp.total_matched as nat) + " matched across "@ + decimal_of(
            resp.shards_answered as nat,
        ) + "/"@ + decimal_of(resp.shards_queried as nat) + " shards\n"@ + hit_lines(
            resp.hits@,
            texts(scores@),
        ) + provenance_text(resp.manifest, now_ms),
{
    let mut out = decimal(resp.total_matched);
    out.append(" matched across ");
    out.append(decimal(resp.shards_answered as u64).as_str());
    out.append("/");
    out.append(decimal(resp.shards_queried as u64).as_str());
    out.append(" shards\n");
    let ghost head = out@;
    let ghost all = texts(scores@);
    let mut i: usize = 0;
    assert(out@ =~= head + hit_lines(resp.hits@.take(0), all.take(0)));
    while i < resp.hits.len()
        invariant
            i <= resp.hits@.len(),
            scores@.len() == resp.hits@.len(),
            all == texts(scores@),
            out@ == head + hit_lines(resp.hits@.take(i as int), all.take(i as int)),
        decreases resp.hits@.len() - i,
    {
        proof {
            assert(resp.hits@.take(i + 1).drop_last() =~= resp.hits@.take(i as int));
            assert(all.take(i + 1).drop_last() =~= all.take(i as int));
            assert(all.take(i + 1).last() == scores@[i as int]@);
        }
        let ghost before = out@;
        out.append(line_of_hit(&resp.hits[i], scores[i].as_str()).as_str());
        assert(out@ =~= head + hit_lines(resp.hits@.take(i + 1), all.take(i + 1)));
        i = i + 1;
    }
    assert(resp.hits@.take(i as int) =~= resp.hits@);
    assert(all.take(i as int) =~= all);
    append_provenance(&mut out, &resp.manifest, now_ms);
    out
}

/// The line of one node, last heard from `seen` seconds ago.
pub open spec fn node_line(node: NodeState, seen: Seq<char>) -> Seq<char> {
    "- shard "@ + decimal_of(node.shard_id as nat) + " · "@ + node.node_id@ + " · "@
        + node.role.spec_name() + " · seen "@ + seen + "s ago"@ + (if node.draining {
        " · draining"@
    } else {
        ""@
    }) + "\n"@
}

/// The lines of the nodes, one after the other.
pub open spec fn node_lines(nodes: Seq<NodeState>, seen: Seq<Seq<char>>) -> Seq<char>
    decreases nodes.len(),
{
    if nodes.len() == 0 {
        Seq::empty()
    } else {
        node_lines(nodes.drop_last(), seen.drop_last()) + node_line(nodes.last(), seen.last())
    }
}

/// The line of the virtual-shard table; nothing for an empty table.
pub open spec fn vshard_text(table: Seq<u32>) -> Seq<char> {
    if table.len() == 0 {
        Seq::empty()
    } else {
        "virtual shards -> groups: ["@ + joined(
            table.map_values(|g: u32| decimal_of(g as nat)),
            ", "@,
        ) + "]\n"@
    }
}

fn append_vshards(out: &mut String, table: &Vec<u32>)
    ensures
        final(out)@ == old(out)@ + vshard_text(table@),
{
    if table.len() > 0 {
        let mut groups: Vec<String> = Vec::new();
        let mut i: usize = 0;
        assert(texts(groups@) =~= table@.take(0).map_values(|g: u32| decimal_of(g as nat)));
        while i < table.len()
            invariant
                i <= table@.len(),
                texts(groups@) == table@.take(i as int).map_values(|g: u32| decimal_of(g as nat)),
            decreases table@.len() - i,
        {
            let group = decimal(table[i] as u64);
            proof {
                lemma_texts_push(groups@, group);
                assert(table@.take(i + 1).map_values(|g: u32| decimal_of(g as nat))
                    =~= table@.take(i as int).map_values(|g: u32| decimal_of(g as nat)).push(
                    group@,
                ));
            }
            groups.push(group);
            i = i + 1;
        }
        assert(table@.take(i as int) =~= table@);
        out.append("virtual shards -> groups: [");
        out.append(join(&groups, ", ").as_str());
        out.append("]\n");
    }
    assert(out@ =~= old(out)@ + vshard_text(table@));
}

/// Render the topology: the number of shard groups, one line per node, and the virtual-shard
/// table. `seen` gives the text of each node's silence in seconds.
pub fn format_state(
    shard_count: u32,
    nodes: &Vec<NodeState>,
    seen: &Vec<String>,
    vshards: &Vec<u32>,
) -> (text: String)
    requires
        seen@.len() == nodes@.len(),
    ensures
        text@ == decimal_of(shard_count as nat) + " shard group(s)\n"@ + node_lines(
            nodes@,
            texts(seen@),
        ) + vshard_text(vshards@),
{
    let mut out = decimal(shard_count as u64);
    out.append(" shard group(s)\n");
    let ghost head = out@;
    let ghost all = texts(seen@);
    let mut i: usize = 0;
    assert(out@ =~= head + node_lines(nodes@.take(0), all.take(0)));
    while i < nodes.len()
        invariant
            i <= nodes@.len(),
            seen@.len() == nodes@.len(),
            all == texts(seen@),
            out@ == head + node_lines(nodes@.take(i as int), all.take(i as int)),
        decreases nodes@.len() - i,
    {
        proof {
            assert(nodes@.take(i + 1).drop_last() =~= nodes@.take(i as int));
            assert(all.take(i + 1).drop_last() =~= all.take(i as int));
            assert(all.take(i + 1).last() == seen@[i as int]@);
        }
        let node = &nodes[i];
        let mut line = owned("- shard ");
        line.append(decimal(node.shard_id as u64).as_str());
        line.append(" · ");
        line.append(node.node_id.as_str());
        line.append(" · ");
        line.append(node.role.name());
        line.append(" · seen ");
        line.append(seen[i].as_str());
        line.append("s ago");
        if node.draining {
            line.append(" · draining");
        } else {
            line.append("");
        }
        line.append("\n");
        assert(line@ == node_line(*node, seen@[i as int]@));
        out.append(line.as_str());
        assert(out@ =~= head + node_lines(nodes@.take(i + 1), all.take(i + 1)));
        i = i + 1;
    }
    assert(nodes@.take(i as int) =~= nodes@);
    assert(all.take(i as int) =~= all);
    append_vshards(&mut out, vshards);
    out
}

/// The lines of buckets, one after the other.
pub open spec fn bucket_lines(buckets: Seq<(String, u64)>) -> Seq<char>
    decreases buckets.len(),
{
    if buckets.len() == 0 {
        Seq::empty()
    } else {
        bucket_lines(buckets.drop_last()) + (buckets.last().0@ + ": "@ + decimal_of(
            buckets.last().1 as nat,
        ) + "\n"@)
    }
}

/// The lines of resolved percentiles, given the texts of each percentile and its value.
pub open spec fn percentile_lines(rows: Seq<(String, String)>) -> Seq<char>
    decreases rows.len(),
{
    if rows.len() == 0 {
        Seq::empty()
    } else {
        percentile_lines(rows.drop_last()) + ("p"@ + rows.last().0@ + ": "@ + rows.last().1@
            + "\n"@)
    }
}

/// Whether a text renders a merged partial: its count, its percentiles, or its biggest buckets.
pub open spec fn renders_partial(
    text: Seq<char>,
    kind: AggKind,
    partial: AggregatePartial,
    rows: Seq<(String, String)>,
) -> bool {
    match kind {
        AggKind::Count => text == "count: "@ + decimal_of(partial.count as nat) + "\n"@,
        AggKind::Percentiles => text == percentile_lines(rows),
        _ => exists|top: Seq<(String, u64)>| #[trigger]
            is_top(top, partial.buckets@, 25) && text == bucket_lines(top) + "("@ + decimal_of(
                partial.count as nat,
            ) + " matched)\n"@,
    }
}

fn text_of_buckets(buckets: &Vec<(String, u64)>) -> (text: String)
    ensures
        text@ == bucket_lines(buckets@),
{
    let mut out = String::new();
    let mut i: usize = 0;
    assert(out@ =~= bucket_lines(buckets@.take(0)));
    while i < buckets.len()
        invariant
            i <= buckets@.len(),
            out@ == bucket_lines(buckets@.take(i as int)),
        decreases buckets@.len() - i,
    {
        assert(buckets@.take(i + 1).drop_last() =~= buckets@.take(i as int));
        let mut line = buckets[i].0.clone();
        line.append(": ");
        line.append(decimal(buckets[i].1).as_str());
        line.append("\n");
        out.append(line.as_str());
        i = i + 1;
    }
    assert(buckets@.take(i as int) =~= buckets@);
    out
}

fn text_of_percentiles(rows: &Vec<(String, String)>) -> (text: String)
    ensures
        text@ == percentile_lines(rows@),
{
    let mut out = String::new();
    let mut i: usize = 0;
    assert(out@ =~= percentile_lines(rows@.take(0)));
    while i < rows.len()
        invariant
            i <= rows@.len(),
            out@ == percentile_lines(rows@.take(i as int)),
        decreases rows@.len() - i,
    {
        assert(rows@.take(i + 1).drop_last() =~= rows@.take(i as int));
        let mut line = owned("p");
        line.append(rows[i].0.as_str());
        line.append(": ");
        line.append(rows[i].1.as_str());
        line.append("\n");
        out.append(line.as_str());
        i = i + 1;
    }
    assert(rows@.take(i as int) =~= rows@);
    out
}

/// Render a merged aggregate: its count, its biggest buckets (at most twenty-five), or its
/// percentiles, and the provenance. `rows` gives the texts of each percentile and its value.
pub fn format_aggregate(
    kind: AggKind,
    resp: &AggregateResponse,
    rows: &Vec<(String, String)>,
    now_ms: i64,
) -> (text: String)
    requires
        rows@.len() == resp.percentiles@.len(),
    ensures
        match resp.partial {
            Some(partial) => exists|body: Seq<char>| #[trigger]
                renders_partial(body, kind, partial, rows@) && text@ == body + provenance_text(
                    resp.manifest,
                    now_ms,
                ),
            None => text@ == provenance_text(resp.manifest, now_ms),
        },
{
    let mut out = String::new();
    match &resp.partial {
        Some(partial) => {
            match kind {
                AggKind::Count => {
                    out.append("count: ");
                    out.append(decimal(partial.count).as_str());
                    out.append("\n");
                    assert(out@ =~= "count: "@ + decimal_of(partial.count as nat) + "\n"@);
                },
                AggKind::Percentiles => {
                    out = text_of_percentiles(rows);
                },
                _ => {
                    let top = top_buckets(&partial.buckets, 25);
                    out = text_of_buckets(&top);
                    out.append("(");
                    out.append(decimal(partial.count).as_str());
                    out.append(" matched)\n");
                    assert(is_top(top@, partial.buckets@, 25));
                },
            }
            assert(renders_partial(out@, kind, *partial, rows@));
        },
        None => {},
    }
    let ghost body = out@;
    append_provenance(&mut out, &resp.manifest, now_ms);
    proof {
        if resp.partial is None {
            assert(out@ =~= provenance_text(resp.manifest, now_ms));
        }
    }
    out
}

proof fn lemma_kind_name_lengths()
    ensures
        "count"@.len() == 5,
        "value_counts"@.len() == 12,
        "time_histogram"@.len() == 14,
        "numeric_histogram"@.len() == 17,
        "geo_grid"@.len() == 8,
        "percentiles"@.len() == 11,
{
    reveal_strlit("count");
    reveal_strlit("value_counts");
    reveal_strlit("time_histogram");
    reveal_strlit("numeric_histogram");
    reveal_strlit("geo_grid");
    reveal_strlit("percentiles");
}

proof fn lemma_tool_name_lengths()
    ensures
        "search_flights"@.len() == 14,
        "semantic_search_flights"@.len() == 23,
        "cluster_state"@.len() == 13,
        "aggregate_flights"@.len() == 17,
{
    reveal_strlit("search_flights");
    reveal_strlit("semantic_search_flights");
    reveal_strlit("cluster_state");
    reveal_strlit("aggregate_flights");
}

/// An aggregation is read by its name: each of the six names gives the kind of that name, no kind
/// has a second name, any other text is refused as unknown, and a call that names none counts.
pub proof fn law_aggregations_are_read_by_name(
    result: Result<ToolCall, String>,
    args: JsonTree,
    name: Seq<char>,
)
    requires
        understands(result, "aggregate_flights"@, args),
    ensures
        args.get("kind"@) == Some(JsonTree::Text(name)) ==> match result {
            Ok(ToolCall::Aggregate(req)) => {
                &&& req.kind == AggKind::Count <==> name == "count"@
                &&& req.kind == AggKind::ValueCounts <==> name == "value_counts"@
                &&& req.kind == AggKind::TimeHistogram <==> name == "time_histogram"@
                &&& req.kind == AggKind::NumericHistogram <==> name == "numeric_histogram"@
                &&& req.kind == AggKind::GeoGrid <==> name == "geo_grid"@
                &&& req.kind == AggKind::Percentiles <==> name == "percentiles"@
            },
            Ok(_) => false,
            Err(_) => true,
        },
        args.get("kind"@) == Some(JsonTree::Text(name)) && name != "count"@ && name
            != "value_counts"@ && name != "time_histogram"@ && name != "numeric_histogram"@ && name
            != "geo_grid"@ && name != "percentiles"@ ==> (result matches Err(message) && message@
            == "unknown aggregation kind: "@ + name),
        args.get("kind"@) == Some(JsonTree::Text(name)) && (name == "count"@ || name
            == "value_counts"@ || name == "time_histogram"@ || name == "numeric_histogram"@ || name
            == "geo_grid"@ || name == "percentiles"@) && args.get("filters"@) is None
            ==> result is Ok,
        args.get("kind"@) is None ==> match result {
            Ok(ToolCall::Aggregate(req)) => req.kind == AggKind::Count,
            Ok(_) => false,
            Err(_) => true,
        },
{
    lemma_kind_name_lengths();
    lemma_tool_name_lengths();
}

/// The aggregations that are offered are those that are read: every offered name is one of the
/// six, and each of the six is offered.
pub proof fn law_offered_kinds_are_read(i: int)
    ensures
        0 <= i < kind_names().len() ==> (kind_names()[i] matches JsonTree::Text(name)
            && kind_named(name) is Some),
        forall|name: Seq<char>| #[trigger]
            kind_named(name) is Some ==> kind_names().contains(JsonTree::Text(name)),
        forall|a: Seq<char>, b: Seq<char>|
            #![trigger kind_named(a), kind_named(b)]
            kind_named(a) is Some && kind_named(a) == kind_named(b) ==> a == b,
        aggregate_tool().get2("inputSchema"@, "properties"@) is Some,
{
    lemma_kind_name_lengths();
    let names = kind_names();
    assert(names[0] == JsonTree::Text("count"@));
    assert(names[1] == JsonTree::Text("value_counts"@));
    assert(names[2] == JsonTree::Text("time_histogram"@));
    assert(names[3] == JsonTree::Text("numeric_histogram"@));
    assert(names[4] == JsonTree::Text("geo_grid"@));
    assert(names[5] == JsonTree::Text("percentiles"@));
    reveal_strlit("inputSchema");
    reveal_strlit("properties");
    reveal_strlit("name");
    reveal_strlit("description");
    reveal_strlit("type");
    assert("name"@.len() == 4 && "description"@.len() == 11 && "inputSchema"@.len() == 11);
    assert("type"@.len() == 4 && "properties"@.len() == 10);
    assert("description"@[0] == 'd' && "inputSchema"@[0] == 'i');
    let parts = aggregate_tool()->Object_0;
    crate::json::law_a_field_is_found_by_name(parts, "inputSchema"@, 2);
    let inner = parts[2].1;
    crate::json::law_a_field_is_found_by_name(inner->Object_0, "properties"@, 1);
}

/// A search asks what the call asks: the query as it was given, five hits unless a limit is
/// given, and the given limit otherwise, as far as thirty-two bits go. A call without a query is
/// refused.
pub proof fn law_searches_are_read_as_asked(
    result: Result<ToolCall, String>,
    name: Seq<char>,
    args: JsonTree,
    text: Seq<char>,
    n: u64,
)
    requires
        understands(result, name, args),
        name == "search_flights"@ || name == "semantic_search_flights"@,
    ensures
        args.get("query"@) == Some(JsonTree::Text(text)) ==> match result {
            Ok(ToolCall::Search { query, limit, .. }) => {
                &&& name == "search_flights"@ && query@ == text
                &&& args.get("limit"@) is None ==> limit == 5
                &&& args.get("limit"@) == Some(JsonTree::Natural(n)) ==> limit == n
                    % 0x1_0000_0000
            },
            Ok(ToolCall::SemanticSearch { query, limit }) => {
                &&& name == "semantic_search_flights"@ && query@ == text
                &&& args.get("limit"@) is None ==> limit == 5
                &&& args.get("limit"@) == Some(JsonTree::Natural(n)) ==> limit == n
                    % 0x1_0000_0000
            },
            _ => false,
        },
        args.get("query"@) is None ==> (result matches Err(message) && message@
            == "missing required argument: query"@),
{
    assert(n as u32 == n % 0x1_0000_0000) by (bit_vector);
    lemma_tool_name_lengths();
}

/// Only the four tools that are offered can be called.
pub proof fn law_only_offered_tools_run(
    result: Result<ToolCall, String>,
    name: Seq<char>,
    args: JsonTree,
)
    requires
        understands(result, name, args),
    ensures
        name == "cluster_state"@ <==> result == Ok::<ToolCall, String>(ToolCall::ClusterState),
        result matches Ok(ToolCall::Search { .. }) ==> name == "search_flights"@,
        result matches Ok(ToolCall::SemanticSearch { .. }) ==> name == "semantic_search_flights"@,
        result matches Ok(ToolCall::Aggregate(_)) ==> name == "aggregate_flights"@,
        name != "cluster_state"@ && name != "search_flights"@ && name != "semantic_search_flights"@
            && name != "aggregate_flights"@ ==> (result matches Err(message) && message@
            == "unknown tool: "@ + name),
{
    lemma_tool_name_lengths();
}

/// An aggregation carries over what the call gives of each argument, and nothing of those that it
/// leaves out.
pub proof fn law_aggregations_carry_their_arguments(
    req: AggregateRequest,
    args: JsonTree,
    text: Seq<char>,
    number: Double,
    shown: Seq<char>,
)
    requires
        understands(Ok(ToolCall::Aggregate(req)), "aggregate_flights"@, args),
    ensures
        args.get("query"@) == Some(JsonTree::Text(text)) ==> req.query@ == text,
        args.get("query"@) is None ==> req.query@ == ""@,
        args.get("field"@) == Some(JsonTree::Text(text)) ==> req.field@ == text,
        args.get("field"@) is None ==> req.field@ == ""@,
        args.get("interval"@) == Some(JsonTree::Real(number, shown)) ==> req.interval == number,
        args.get("interval"@) is None ==> req.interval.bits == 0,
        args.get("percentiles"@) == Some(JsonTree::List(seq![JsonTree::Real(number, shown)]))
            ==> req.percentiles@ == seq![number],
        args.get("percentiles"@) is None ==> req.percentiles@.len() == 0,
        args.get("filters"@) is None ==> req.filter is None,
{
    lemma_tool_name_lengths();
    law_numbers_are_read_in_order(number, shown, Seq::empty(), Seq::empty());
}

/// A list of numbers is read in order: each number as it stands, and what is no number is passed
/// over.
pub proof fn law_numbers_are_read_in_order(
    number: Double,
    shown: Seq<char>,
    first: Seq<JsonTree>,
    second: Seq<JsonTree>,
)
    ensures
        numbers_of(seq![JsonTree::Real(number, shown)]) == seq![number],
        numbers_of(seq![JsonTree::Text(shown)]).len() == 0,
        numbers_of(first + second) == numbers_of(first) + numbers_of(second),
    decreases second.len(),
{
    let none = Seq::<JsonTree>::empty();
    assert(numbers_of(none) =~= Seq::empty());
    assert(seq![JsonTree::Real(number, shown)].drop_last() =~= none);
    assert(seq![JsonTree::Text(shown)].drop_last() =~= none);
    assert(numbers_of(seq![JsonTree::Real(number, shown)]) =~= seq![number]);
    if second.len() == 0 {
        assert(first + second =~= first);
        assert(numbers_of(first) + numbers_of(second) =~= numbers_of(first));
    } else {
        law_numbers_are_read_in_order(number, shown, first, second.drop_last());
        assert((first + second).drop_last() =~= first + second.drop_last());
        assert(numbers_of(first + second) =~= numbers_of(first) + numbers_of(second));
    }
}

/// A condition is read as it is written: its field, and for `equals` the text, for `min` and
/// `max` each bound on its own side, for `is` the flag.
pub proof fn law_conditions_are_read_as_written(
    condition: FilterCondition,
    c: JsonTree,
    text: Seq<char>,
    number: Double,
    flag: bool,
)
    requires
        reads_as(condition, condition_meaning(c)),
    ensures
        c.get("field"@) == Some(JsonTree::Text(text)) ==> condition.field@ == text,
        c.get("equals"@) == Some(JsonTree::Text(text)) ==> (condition.test matches Some(
            Test::Equals(want),
        ) && want@ == text),
        c.get("equals"@) is None && (c.get("min"@) is Some || c.get("max"@) is Some) ==> {
            &&& condition.test matches Some(Test::Range(range))
            &&& c.get("min"@) == Some(JsonTree::Real(number, text)) ==> range.min == Some(number)
            &&& c.get("max"@) == Some(JsonTree::Real(number, text)) ==> range.max == Some(number)
            &&& c.get("min"@) is None <==> range.min is None
            &&& c.get("max"@) is None <==> range.max is None
        },
        c.get("equals"@) is None && c.get("min"@) is None && c.get("max"@) is None && c.get("is"@)
            == Some(JsonTree::Bool(flag)) ==> condition.test == Some(Test::Is(flag)),
{
}

/// A condition that cannot be read is refused and never passed over: one without a field, one
/// without a test, and one with a bound that is no number.
pub proof fn law_unreadable_conditions_are_refused(
    result: Result<Option<Filter>, String>,
    items: Seq<JsonTree>,
    i: int,
)
    requires
        reads_filters(result, Some(items)),
        0 <= i < items.len(),
        items[i].get("field"@) is None || (items[i].get("equals"@) is None && items[i].get("min"@)
            is None && items[i].get("max"@) is None && items[i].get("is"@) is None) || (items[i].get(
            "min"@,
        ) matches Some(JsonTree::Text(_))) || (items[i].get("max"@) matches Some(
            JsonTree::Text(_),
        )),
    ensures
        result is Err,
{
    if let Ok(Some(filter)) = result {
        assert(reads_as(filter.conditions@[i], condition_meaning(items[i])));
    }
}

/// Hits are listed one line each, in order.
pub proof fn law_hits_are_listed_in_order(
    hit: SearchHit,
    score: Seq<char>,
    first: Seq<SearchHit>,
    first_scores: Seq<Seq<char>>,
    second: Seq<SearchHit>,
    second_scores: Seq<Seq<char>>,
)
    requires
        first.len() == first_scores.len(),
        second.len() == second_scores.len(),
    ensures
        hit_lines(seq![hit], seq![score]) == hit_line(hit, score),
        hit_lines(first + second, first_scores + second_scores) == hit_lines(first, first_scores)
            + hit_lines(second, second_scores),
    decreases second.len(),
{
    assert(hit_lines(Seq::empty(), Seq::empty()) =~= Seq::empty());
    assert(seq![hit].drop_last() =~= Seq::empty() && seq![score].drop_last() =~= Seq::empty());
    assert(hit_lines(seq![hit], seq![score]) =~= hit_line(hit, score));
    if second.len() == 0 {
        assert(first + second =~= first && first_scores + second_scores =~= first_scores);
        assert(hit_lines(first, first_scores) + hit_lines(second, second_scores) =~= hit_lines(
            first,
            first_scores,
        ));
    } else {
        law_hits_are_listed_in_order(
            hit,
            score,
            first,
            first_scores,
            second.drop_last(),
            second_scores.drop_last(),
        );
        assert((first + second).drop_last() =~= first + second.drop_last());
        assert((first_scores + second_scores).drop_last() =~= first_scores
            + second_scores.drop_last());
        assert(hit_lines(first + second, first_scores + second_scores) =~= hit_lines(
            first,
            first_scores,
        ) + hit_lines(second, second_scores));
    }
}

/// A hit's line shows its own document and score, and where it came from; a question mark where
/// that is not known.
pub proof fn law_a_hits_line_shows_the_hit(hit: SearchHit, score: Seq<char>)
    ensures
        hit.document matches Some(d) ==> hit_line(hit, score) == "- "@ + d.icao24@ + " "@
            + d.callsign@ + " ("@ + d.origin@ + " -> "@ + d.destination@ + ") "@ + d.aircraft_type@
            + " score="@ + score + " [via "@ + (match hit.provenance {
            Some(p) => p.source_group@,
            None => "?"@,
        }) + "]\n"@,
{
}

/// Nodes are listed one line each, in order: shard, node, role, how long ago it was seen, and
/// whether it is being drained.
pub proof fn law_nodes_are_listed_in_order(
    node: NodeState,
    seen: Seq<char>,
    first: Seq<NodeState>,
    first_seen: Seq<Seq<char>>,
    second: Seq<NodeState>,
    second_seen: Seq<Seq<char>>,
)
    requires
        first.len() == first_seen.len(),
        second.len() == second_seen.len(),
    ensures
        node_lines(seq![node], seq![seen]) == "- shard "@ + decimal_of(node.shard_id as nat)
            + " · "@ + node.node_id@ + " · "@ + node.role.spec_name() + " · seen "@ + seen
            + "s ago"@ + (if node.draining {
            " · draining"@
        } else {
            ""@
        }) + "\n"@,
        node_lines(first + second, first_seen + second_seen) == node_lines(first, first_seen)
            + node_lines(second, second_seen),
    decreases second.len(),
{
    assert(node_lines(Seq::empty(), Seq::empty()) =~= Seq::empty());
    assert(seq![node].drop_last() =~= Seq::empty() && seq![seen].drop_last() =~= Seq::empty());
    assert(node_lines(seq![node], seq![seen]) =~= node_line(node, seen));
    if second.len() == 0 {
        assert(first + second =~= first && first_seen + second_seen =~= first_seen);
        assert(node_lines(first, first_seen) + node_lines(second, second_seen) =~= node_lines(
            first,
            first_seen,
        ));
    } else {
        law_nodes_are_listed_in_order(
            node,
            seen,
            first,
            first_seen,
            second.drop_last(),
            second_seen.drop_last(),
        );
        assert((first + second).drop_last() =~= first + second.drop_last());
        assert((first_seen + second_seen).drop_last() =~= first_seen + second_seen.drop_last());
        assert(node_lines(first + second, first_seen + second_seen) =~= node_lines(
            first,
            first_seen,
        ) + node_lines(second, second_seen));
    }
}

/// Buckets and percentiles are listed one line each, in order: the key and its count, the rank and
/// its value.
pub proof fn law_rows_are_listed_in_order(
    buckets: Seq<(String, u64)>,
    bucket: (String, u64),
    rows: Seq<(String, String)>,
    row: (String, String),
)
    ensures
        bucket_lines(Seq::empty()).len() == 0,
        bucket_lines(buckets.push(bucket)) == bucket_lines(buckets) + (bucket.0@ + ": "@
            + decimal_of(bucket.1 as nat) + "\n"@),
        percentile_lines(Seq::empty()).len() == 0,
        percentile_lines(rows.push(row)) == percentile_lines(rows) + ("p"@ + row.0@ + ": "@
            + row.1@ + "\n"@),
{
    assert(buckets.push(bucket).drop_last() =~= buckets);
    assert(rows.push(row).drop_last() =~= rows);
}

/// An aggregate is shown as its kind asks: the count for a count, the percentiles for
/// percentiles, and else the biggest twenty-five buckets, followed by the count.
pub proof fn law_an_aggregate_is_shown_by_its_kind(
    text: Seq<char>,
    kind: AggKind,
    partial: AggregatePartial,
    rows: Seq<(String, String)>,
)
    requires
        renders_partial(text, kind, partial, rows),
    ensures
        kind == AggKind::Count ==> text == "count: "@ + decimal_of(partial.count as nat) + "\n"@,
        kind == AggKind::Percentiles ==> text == percentile_lines(rows),
        kind != AggKind::Count && kind != AggKind::Percentiles ==> exists|top: Seq<(String, u64)>|
            #[trigger] is_top(top, partial.buckets@, 25) && text == bucket_lines(top) + "("@
                + decimal_of(partial.count as nat) + " matched)\n"@,
{
}

/// A condition that can be read is not refused: a field with a text to equal, with a number for
/// either bound or both, or with a flag.
pub proof fn law_readable_conditions_are_taken(c: JsonTree, field: Seq<char>)
    requires
        c.get("field"@) == Some(JsonTree::Text(field)),
    ensures
        ({
            let number = |v: Option<JsonTree>|
                v matches Some(JsonTree::Natural(_)) || v matches Some(JsonTree::Negative(_))
                    || v matches Some(JsonTree::Real(_, _));
            let taken = condition_refusal(condition_meaning(c)) is None;
            &&& (c.get("equals"@) matches Some(JsonTree::Text(_))) && c.get("min"@) is None && c.get(
                "max"@,
            ) is None && c.get("is"@) is None ==> taken
            &&& c.get("equals"@) is None && c.get("is"@) is None && number(c.get("min"@)) && (
            number(c.get("max"@)) || c.get("max"@) is None) ==> taken
            &&& c.get("equals"@) is None && c.get("is"@) is None && number(c.get("max"@)) && (
            number(c.get("min"@)) || c.get("min"@) is None) ==> taken
            &&& c.get("equals"@) is None && c.get("min"@) is None && c.get("max"@) is None && (
            c.get("is"@) matches Some(JsonTree::Bool(_))) ==> taken
        }),
{
}

/// Filters are read in order, one condition each: all of them, or the first that cannot be read is
/// told. An absent or empty list is no filter.
pub proof fn law_filters_are_read_one_by_one(
    result: Result<Option<Filter>, String>,
    items: Seq<JsonTree>,
    i: int,
)
    requires
        reads_filters(result, Some(items)),
    ensures
        items.len() == 0 ==> result matches Ok(None),
        result matches Ok(Some(filter)) ==> filter.conditions@.len() == items.len() && items.len()
            > 0 && (0 <= i < items.len() ==> reads_as(
            filter.conditions@[i],
            condition_meaning(items[i]),
        )),
        (forall|k: int|
            0 <= k < items.len() ==> condition_refusal(condition_meaning(#[trigger] items[k]))
                is None) ==> result is Ok,
{
}

/// An answer ends with its provenance where there is a manifest, and the placement table is told
/// group by group where there is one.
pub proof fn law_provenance_is_told_where_there_is_any(
    m: QueryManifest,
    now_ms: i64,
    table: Seq<u32>,
)
    ensures
        provenance_text(None, now_ms).len() == 0,
        provenance_text(Some(m), now_ms) == "\nprovenance: "@ + joined(
            summary_parts(m, now_ms),
            " · "@,
        ) + "\n"@,
        vshard_text(Seq::empty()).len() == 0,
        table.len() > 0 ==> vshard_text(table) == "virtual shards -> groups: ["@ + joined(
            table.map_values(|g: u32| decimal_of(g as nat)),
            ", "@,
        ) + "]\n"@,
{
}

} // verus!
