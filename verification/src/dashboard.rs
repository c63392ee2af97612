//! The live dashboard: what one look at the cluster adds to the board, and the snapshot that every
//! panel renders.

use vstd::hash_map::StringHashMap;
use vstd::prelude::*;
use vstd::string::*;

use crate::agg::{is_top, top_buckets};
use crate::briefing::Answer;
use crate::client::{addresses, manifest_summary, parse_addr_list, summary_parts};
use crate::double::Double;
use crate::json::{
    integer_tree, item_trees, lookup, no_fields, rendered, Fields, Json, JsonTree,
};
use crate::ranking::{is_ranked, orderable, rank, same_elements, Ranked};
use crate::service::{ChangeResponse, ClusterState};
use crate::supervisor::Supervisor;
use crate::text::{
    ascii_folded, cut_once, decimal, decimal_of, joined, owned, same, same_ignoring_case,
    split_once, texts, trim, trimmed,
};
use crate::wire::{NodeRole, NodeState, OmittedShard, QueryManifest, SearchResponse};

verus! {

/// How many events are kept.
pub const KEPT_EVENTS: usize = 50;

/// How many points of the time series are kept.
pub const KEPT_POINTS: usize = 120;

/// Where a local coordinator listens.
pub const LOCAL_COORDINATOR: &'static str = "127.0.0.1:50050";

/// The coordinators to look at: those of a remote cluster, or the local one.
pub fn dashboard_addrs(remote: Option<&str>) -> (addrs: Vec<String>)
    ensures
        texts(addrs@) == match remote {
            Some(list) => addresses(list@, LOCAL_COORDINATOR@),
            None => Seq::empty().push(LOCAL_COORDINATOR@),
        },
{
    match remote {
        Some(list) => parse_addr_list(list, LOCAL_COORDINATOR),
        None => {
            let mut addrs: Vec<String> = Vec::new();
            addrs.push(owned(LOCAL_COORDINATOR));
            assert(texts(addrs@) =~= Seq::empty().push(LOCAL_COORDINATOR@));
            addrs
        },
    }
}

/// Whether the cluster runs on raft.
pub fn runs_raft(consensus: Option<&str>) -> (raft: bool)
    ensures
        raft <==> (consensus matches Some(text) && ascii_folded(text@) == ascii_folded("raft"@)),
{
    match consensus {
        Some(text) => same_ignoring_case(text, "raft"),
        None => false,
    }
}

/// The term of the live query: as configured, or one that the source's documents carry.
pub fn query_term(configured: Option<&str>, source: Option<&str>) -> (term: String)
    ensures
        term@ == match configured {
            Some(text) => text@,
            None => if source matches Some(name) && name@ == "synthetic"@ {
                "synthetica"@
            } else {
                "united"@
            },
        },
{
    match configured {
        Some(text) => owned(text),
        None => match source {
            Some(name) => if same(name, "synthetic") {
                owned("synthetica")
            } else {
                owned("united")
            },
            None => owned("united"),
        },
    }
}

/// The last `n` elements of a list.
pub open spec fn last_of<T>(items: Seq<T>, n: nat) -> Seq<T> {
    if items.len() > n {
        items.skip(items.len() - n)
    } else {
        items
    }
}

fn keep_last<T>(items: &mut Vec<T>, n: usize)
    ensures
        final(items)@ == last_of(old(items)@, n as nat),
{
    let ghost all = items@;
    let ghost mut dropped: int = 0;
    while items.len() > n
        invariant
            0 <= dropped <= all.len(),
            items@ == all.skip(dropped),
            all.len() > n ==> all.len() - dropped >= n,
            all.len() <= n ==> dropped == 0,
        decreases items@.len(),
    {
        let _ = items.remove(0);
        proof {
            assert(items@ =~= all.skip(dropped + 1));
            dropped = dropped + 1;
        }
    }
    assert(all.skip(0) =~= all);
}

/// Something that happened, and when (milliseconds after the start).
#[derive(Debug, PartialEq)]
pub struct Event {
    pub at_ms: u64,
    pub msg: String,
}

/// An event as plain values.
pub open spec fn event_of(event: Event) -> (u64, Seq<char>) {
    (event.at_ms, event.msg@)
}

/// Events as plain values.
pub open spec fn events_of(events: Seq<Event>) -> Seq<(u64, Seq<char>)> {
    Seq::new(events.len(), |i: int| event_of(events[i]))
}

/// One point of the time series: when (seconds after the start), the latency and the matches of
/// the live query, and whether a query failed since the point before.
#[derive(Clone, Copy, Debug, PartialEq, Eq, Structural)]
pub struct Point {
    pub t: u64,
    pub ms: u64,
    pub matched: u64,
    pub errored: bool,
}

/// What became of the live query.
#[derive(Debug, PartialEq)]
pub enum LiveQuery {
    Answered { response: SearchResponse, ms: u64 },
    Failed { error: String },
}

/// The panels that show aggregations.
#[derive(Debug, PartialEq)]
pub struct Panels {
    pub by_origin: Json,
    pub by_aircraft: Json,
    pub geo_cells: Json,
    pub altitude_hist: Json,
    pub altitude_pcts: Json,
}

/// One look at the cluster: the clocks, the cluster as the coordinator sees it, the live query, and
/// the panels. Where no coordinator answers there is neither cluster nor query.
#[derive(Debug, PartialEq)]
pub struct Look {
    pub at_ms: u64,
    pub secs: u64,
    pub now_ms: i64,
    pub cluster: Option<ClusterState>,
    pub query: Option<LiveQuery>,
    pub panels: Panels,
}

/// What the board remembers.
pub ghost struct Board {
    pub events: Seq<(u64, Seq<char>)>,
    pub ok: u64,
    pub err: u64,
    pub roles: Map<Seq<char>, NodeRole>,
    pub series: Seq<Point>,
    pub seen_err: u64,
}

/// The board with one more event, the oldest dropped where there are too many.
pub open spec fn with_event(board: Board, at_ms: u64, msg: Seq<char>) -> Board {
    Board { events: last_of(board.events.push((at_ms, msg)), KEPT_EVENTS as nat), ..board }
}

/// Whether a node shows up as a leader that was a follower before: failover happened.
pub open spec fn was_promoted(roles: Map<Seq<char>, NodeRole>, node: NodeState) -> bool {
    roles.contains_key(node.node_id@) && roles[node.node_id@] == NodeRole::Follower && node.role
        == NodeRole::Leader
}

/// What is said of a promotion.
pub open spec fn promotion_text(node: NodeState) -> Seq<char> {
    "PROMOTED "@ + node.node_id@ + " to leader of shard "@ + decimal_of(node.shard_id as nat)
}

/// The roles after a look at some nodes.
pub open spec fn roles_after(roles: Map<Seq<char>, NodeRole>, nodes: Seq<NodeState>) -> Map<
    Seq<char>,
    NodeRole,
>
    decreases nodes.len(),
{
    if nodes.len() == 0 {
        roles
    } else {
        roles_after(roles, nodes.drop_last()).insert(nodes.last().node_id@, nodes.last().role)
    }
}

/// The promotions that a look at some nodes reveals, in order.
pub open spec fn promotions(
    roles: Map<Seq<char>, NodeRole>,
    nodes: Seq<NodeState>,
    at_ms: u64,
) -> Seq<(u64, Seq<char>)>
    decreases nodes.len(),
{
    if nodes.len() == 0 {
        Seq::empty()
    } else {
        let before = promotions(roles, nodes.drop_last(), at_ms);
        if was_promoted(roles_after(roles, nodes.drop_last()), nodes.last()) {
            before.push((at_ms, promotion_text(nodes.last())))
        } else {
            before
        }
    }
}

/// A counter after one more; counters wrap around.
pub open spec fn next_count(n: u64) -> u64 {
    if n == u64::MAX {
        0
    } else {
        (n + 1) as u64
    }
}

/// The board after a look at the cluster.
pub open spec fn after_look(board: Board, look: Look) -> Board {
    let nodes = match look.cluster {
        Some(cluster) => cluster.nodes@,
        None => Seq::empty(),
    };
    let ok = match look.query {
        Some(LiveQuery::Answered { .. }) => next_count(board.ok),
        _ => board.ok,
    };
    let err = match look.query {
        Some(LiveQuery::Failed { .. }) => next_count(board.err),
        _ => board.err,
    };
    let point = match look.query {
        Some(LiveQuery::Answered { response, ms }) => Point {
            t: look.secs,
            ms,
            matched: response.total_matched,
            errored: err > board.seen_err,
        },
        _ => Point { t: look.secs, ms: 0, matched: 0, errored: err > board.seen_err },
    };
    Board {
        events: last_of(
            board.events + promotions(board.roles, nodes, look.at_ms),
            KEPT_EVENTS as nat,
        ),
        ok,
        err,
        roles: roles_after(board.roles, nodes),
        series: last_of(board.series.push(point), KEPT_POINTS as nat),
        seen_err: err,
    }
}

/// A node as the board shows it.
pub open spec fn node_tree(node: NodeState, running: Seq<Seq<char>>) -> JsonTree {
    JsonTree::Object(
        no_fields().push(("node_id"@, JsonTree::Text(node.node_id@))).push(
            ("address"@, JsonTree::Text(node.address@)),
        ).push(("role"@, JsonTree::Text(node.role.spec_name()))).push(
            ("shard_id"@, JsonTree::Natural(node.shard_id as u64)),
        ).push(("millis_since_seen"@, JsonTree::Natural(node.millis_since_seen))).push(
            ("has_process"@, JsonTree::Bool(running.contains(node.node_id@))),
        ).push(("draining"@, JsonTree::Bool(node.draining))),
    )
}

/// Nodes as the board shows them.
pub open spec fn node_trees(nodes: Seq<NodeState>, running: Seq<Seq<char>>) -> Seq<JsonTree> {
    Seq::new(nodes.len(), |i: int| node_tree(nodes[i], running))
}

/// An omitted shard as the board shows it.
pub open spec fn omission_tree(o: OmittedShard) -> JsonTree {
    JsonTree::Object(
        no_fields().push(("address"@, JsonTree::Text(o.address@))).push(
            ("reason"@, JsonTree::Text(o.reason@)),
        ),
    )
}

/// The coverage of the live query as the board shows it.
pub open spec fn provenance_tree(manifest: Option<QueryManifest>, now_ms: i64) -> JsonTree {
    match manifest {
        None => JsonTree::Null,
        Some(m) => JsonTree::Object(
            no_fields().push(
                ("summary"@, JsonTree::Text(joined(summary_parts(m, now_ms), " · "@))),
            ).push(
                (
                    "omitted"@,
                    JsonTree::List(
                        Seq::new(m.omitted@.len(), |i: int| omission_tree(m.omitted@[i])),
                    ),
                ),
            ).push(("deduped"@, JsonTree::Natural(m.deduped as u64))).push(
                ("freshest_observed_at"@, integer_tree(m.freshest_observed_at)),
            ).push(("placement_version"@, JsonTree::Natural(m.placement_version))),
        ),
    }
}

/// The live query as the board shows it.
pub open spec fn query_tree(query: Option<LiveQuery>, now_ms: i64) -> JsonTree {
    match query {
        None => JsonTree::Null,
        Some(LiveQuery::Answered { response, ms }) => JsonTree::Object(
            no_fields().push(("ok"@, JsonTree::Bool(true))).push(
                ("total_matched"@, JsonTree::Natural(response.total_matched)),
            ).push(("answered"@, JsonTree::Natural(response.shards_answered as u64))).push(
                ("queried"@, JsonTree::Natural(response.shards_queried as u64)),
            ).push(("ms"@, JsonTree::Natural(ms))).push(
                ("provenance"@, provenance_tree(response.manifest, now_ms)),
            ),
        ),
        Some(LiveQuery::Failed { error }) => JsonTree::Object(
            no_fields().push(("ok"@, JsonTree::Bool(false))).push(
                ("error"@, JsonTree::Text(error@)),
            ),
        ),
    }
}

/// An event as the board shows it.
pub open spec fn event_tree(event: (u64, Seq<char>)) -> JsonTree {
    JsonTree::Object(
        no_fields().push(("at_ms"@, JsonTree::Natural(event.0))).push(
            ("msg"@, JsonTree::Text(event.1)),
        ),
    )
}

/// A point of the time series as the board shows it.
pub open spec fn point_tree(point: Point) -> JsonTree {
    JsonTree::Object(
        no_fields().push(("t"@, JsonTree::Natural(point.t))).push(
            ("ms"@, JsonTree::Natural(point.ms)),
        ).push(("matched"@, JsonTree::Natural(point.matched))).push(
            ("errored"@, JsonTree::Bool(point.errored)),
        ),
    )
}

/// Numbers as JSON.
pub open spec fn number_trees(numbers: Seq<u32>) -> Seq<JsonTree> {
    Seq::new(numbers.len(), |i: int| JsonTree::Natural(numbers[i] as u64))
}

/// The panels as the board shows them.
pub open spec fn panels_tree(panels: Panels) -> JsonTree {
    JsonTree::Object(
        no_fields().push(("by_origin"@, panels.by_origin.tree())).push(
            ("by_aircraft"@, panels.by_aircraft.tree()),
        ).push(("geo_cells"@, panels.geo_cells.tree())).push(
            ("altitude_hist"@, panels.altitude_hist.tree()),
        ).push(("altitude_pcts"@, panels.altitude_pcts.tree())),
    )
}

/// The snapshot of the board after a look: every panel is a pure render of a slice of it.
pub open spec fn snapshot_tree(
    board: Board,
    look: Look,
    coordinator: Seq<char>,
    running: Seq<Seq<char>>,
) -> JsonTree {
    let shard_count = match look.cluster {
        Some(cluster) => cluster.shard_count as u64,
        None => 0,
    };
    let table = match look.cluster {
        Some(cluster) => cluster.vshard_group@,
        None => Seq::empty(),
    };
    let nodes = match look.cluster {
        Some(cluster) => cluster.nodes@,
        None => Seq::empty(),
    };
    JsonTree::Object(
        no_fields().push(("v"@, JsonTree::Natural(1))).push(
            ("shard_count"@, JsonTree::Natural(shard_count)),
        ).push(("vshard_group"@, JsonTree::List(number_trees(table)))).push(
            (
                "coordinator"@,
                JsonTree::Object(
                    no_fields().push(("addr"@, JsonTree::Text(coordinator))).push(
                        ("reachable"@, JsonTree::Bool(look.cluster is Some)),
                    ),
                ),
            ),
        ).push(("nodes"@, JsonTree::List(node_trees(nodes, running)))).push(
            (
                "query"@,
                JsonTree::Object(
                    no_fields().push(("ok"@, JsonTree::Natural(board.ok))).push(
                        ("err"@, JsonTree::Natural(board.err)),
                    ).push(("last"@, query_tree(look.query, look.now_ms))),
                ),
            ),
        ).push(("aggregate"@, panels_tree(look.panels))).push(
            (
                "series"@,
                JsonTree::List(Seq::new(board.series.len(), |i: int| point_tree(board.series[i]))),
            ),
        ).push(
            (
                "events"@,
                JsonTree::List(Seq::new(board.events.len(), |i: int| event_tree(board.events[i]))),
            ),
        ),
    )
}

fn numbers_json(numbers: &Vec<u32>) -> (json: Json)
    ensures
        json.tree() == JsonTree::List(number_trees(numbers@)),
{
    let mut items: Vec<Json> = Vec::new();
    let mut i: usize = 0;
    while i < numbers.len()
        invariant
            i <= numbers@.len(),
            item_trees(items@) == number_trees(numbers@.take(i as int)),
        decreases numbers@.len() - i,
    {
        let ghost before = items@;
        items.push(Json::natural(numbers[i] as u64));
        proof {
            assert(item_trees(items@) =~= item_trees(before).push(items@.last().tree()));
            assert(number_trees(numbers@.take(i + 1)) =~= number_trees(
                numbers@.take(i as int),
            ).push(JsonTree::Natural(numbers@[i as int] as u64)));
        }
        i = i + 1;
    }
    assert(numbers@.take(i as int) =~= numbers@);
    Json::list(items)
}

fn nodes_json(nodes: &Vec<NodeState>, supervisor: &Supervisor) -> (json: Json)
    ensures
        json.tree() == JsonTree::List(node_trees(nodes@, supervisor.running())),
{
    let mut items: Vec<Json> = Vec::new();
    let mut i: usize = 0;
    while i < nodes.len()
        invariant
            i <= nodes@.len(),
            items@.len() == i,
            forall|j: int|
                0 <= j < i ==> (#[trigger] items@[j]).tree() == node_tree(
                    nodes@[j],
                    supervisor.running(),
                ),
        decreases nodes@.len() - i,
    {
        let node = &nodes[i];
        let item = Fields::new().with("node_id", Json::text(node.node_id.as_str())).with(
            "address",
            Json::text(node.address.as_str()),
        ).with("role", Json::text(node.role.name())).with(
            "shard_id",
            Json::natural(node.shard_id as u64),
        ).with("millis_since_seen", Json::natural(node.millis_since_seen)).with(
            "has_process",
            Json::Bool(supervisor.manages(node.node_id.as_str())),
        ).with("draining", Json::Bool(node.draining)).build();
        items.push(item);
        i = i + 1;
    }
    assert(item_trees(items@) =~= node_trees(nodes@, supervisor.running()));
    Json::list(items)
}

fn provenance_json(manifest: &Option<QueryManifest>, now_ms: i64) -> (json: Json)
    ensures
        json.tree() == provenance_tree(*manifest, now_ms),
{
    match manifest {
        None => Json::Null,
        Some(m) => {
            let mut items: Vec<Json> = Vec::new();
            let mut i: usize = 0;
            while i < m.omitted.len()
                invariant
                    i <= m.omitted@.len(),
                    items@.len() == i,
                    forall|j: int|
                        0 <= j < i ==> (#[trigger] items@[j]).tree() == omission_tree(
                            m.omitted@[j],
                        ),
                decreases m.omitted@.len() - i,
            {
                let item = Fields::new().with(
                    "address",
                    Json::text(m.omitted[i].address.as_str()),
                ).with("reason", Json::text(m.omitted[i].reason.as_str())).build();
                items.push(item);
                i = i + 1;
            }
            assert(item_trees(items@) =~= Seq::new(
                m.omitted@.len(),
                |i: int| omission_tree(m.omitted@[i]),
            ));
            Fields::new().with("summary", Json::text(manifest_summary(m, now_ms).as_str())).with(
                "omitted",
                Json::list(items),
            ).with("deduped", Json::natural(m.deduped as u64)).with(
                "freshest_observed_at",
                Json::integer(m.freshest_observed_at),
            ).with("placement_version", Json::natural(m.placement_version)).build()
        },
    }
}

fn query_json(query: &Option<LiveQuery>, now_ms: i64) -> (json: Json)
    ensures
        json.tree() == query_tree(*query, now_ms),
{
    match query {
        None => Json::Null,
        Some(LiveQuery::Answered { response, ms }) => Fields::new().with(
            "ok",
            Json::Bool(true),
        ).with("total_matched", Json::natural(response.total_matched)).with(
            "answered",
            Json::natural(response.shards_answered as u64),
        ).with("queried", Json::natural(response.shards_queried as u64)).with(
            "ms",
            Json::natural(*ms),
        ).with("provenance", provenance_json(&response.manifest, now_ms)).build(),
        Some(LiveQuery::Failed { error }) => Fields::new().with("ok", Json::Bool(false)).with(
            "error",
            Json::text(error.as_str()),
        ).build(),
    }
}

/// A reply to a call of the dashboard's own interface: an HTTP status and a text.
#[derive(Debug, PartialEq)]
pub struct Reply {
    pub status: u16,
    pub body: String,
}

/// The board behind the dashboard.
pub struct Dashboard {
    events: Vec<Event>,
    query_ok: u64,
    query_err: u64,
    roles: StringHashMap<NodeRole>,
    series: Vec<Point>,
    seen_err: u64,
}

impl Dashboard {
    /// What the board remembers.
    pub closed spec fn board(self) -> Board {
        Board {
            events: events_of(self.events@),
            ok: self.query_ok,
            err: self.query_err,
            roles: self.roles@,
            series: self.series@,
            seen_err: self.seen_err,
        }
    }

    /// What every operation keeps: no more than the kept events and points.
    pub open spec fn well_formed(self) -> bool {
        self.board().events.len() <= KEPT_EVENTS && self.board().series.len() <= KEPT_POINTS
    }

    /// An empty board.
    pub fn new() -> (dashboard: Self)
        ensures
            dashboard.well_formed(),
            dashboard.board() == (Board {
                events: Seq::empty(),
                ok: 0,
                err: 0,
                roles: Map::empty(),
                series: Seq::empty(),
                seen_err: 0,
            }),
    {
        let dashboard = Dashboard {
            events: Vec::new(),
            query_ok: 0,
            query_err: 0,
            roles: StringHashMap::new(),
            series: Vec::new(),
            seen_err: 0,
        };
        assert(dashboard.board().events =~= Seq::<(u64, Seq<char>)>::empty());
        dashboard
    }

    /// Note an event; the oldest ones make room.
    pub fn push_event(&mut self, at_ms: u64, msg: String)
        requires
            old(self).well_formed(),
        ensures
            final(self).well_formed(),
            final(self).board() == with_event(old(self).board(), at_ms, msg@),
    {
        let ghost before = self.events@;
        self.events.push(Event { at_ms, msg });
        let ghost all = self.events@;
        assert(events_of(all) =~= events_of(before).push((at_ms, msg@)));
        keep_last(&mut self.events, KEPT_EVENTS);
        assert(events_of(last_of(all, KEPT_EVENTS as nat)) =~= last_of(
            events_of(all),
            KEPT_EVENTS as nat,
        ));
    }

    fn observe(&mut self, nodes: &Vec<NodeState>, at_ms: u64)
        requires
            old(self).well_formed(),
        ensures
            final(self).well_formed(),
            final(self).board() == (Board {
                events: last_of(
                    old(self).board().events + promotions(old(self).board().roles, nodes@, at_ms),
                    KEPT_EVENTS as nat,
                ),
                roles: roles_after(old(self).board().roles, nodes@),
                ..old(self).board()
            }),
    {
        let ghost start = self.board();
        let mut i: usize = 0;
        proof {
            assert(nodes@.take(0) =~= Seq::<NodeState>::empty());
            assert(start.events + Seq::<(u64, Seq<char>)>::empty() =~= start.events);
        }
        while i < nodes.len()
            invariant
                i <= nodes@.len(),
                self.well_formed(),
                self.board() == (Board {
                    events: last_of(
                        start.events + promotions(start.roles, nodes@.take(i as int), at_ms),
                        KEPT_EVENTS as nat,
                    ),
                    roles: roles_after(start.roles, nodes@.take(i as int)),
                    ..start
                }),
            decreases nodes@.len() - i,
        {
            let node = &nodes[i];
            proof {
                let next = nodes@.take(i + 1);
                assert(next.drop_last() =~= nodes@.take(i as int));
                assert(next.last() == *node);
                let told = promotions(start.roles, nodes@.take(i as int), at_ms);
                let event = (at_ms, promotion_text(*node));
                lemma_last_of_push(start.events + told, event, KEPT_EVENTS as nat);
                assert(start.events + told.push(event) =~= (start.events + told).push(event));
            }
            let follower_before = match self.roles.get(node.node_id.as_str()) {
                Some(role) => match role {
                    NodeRole::Follower => true,
                    _ => false,
                },
                None => false,
            };
            let leads_now = match node.role {
                NodeRole::Leader => true,
                _ => false,
            };
            if follower_before && leads_now {
                let mut msg = owned("PROMOTED ");
                msg.append(node.node_id.as_str());
                msg.append(" to leader of shard ");
                msg.append(decimal(node.shard_id as u64).as_str());
                self.push_event(at_ms, msg);
            }
            self.roles.insert(node.node_id.clone(), node.role);
            i = i + 1;
        }
        assert(nodes@.take(i as int) =~= nodes@);
    }

    fn series_json(&self) -> (json: Json)
        ensures
            json.tree() == JsonTree::List(
                Seq::new(self.board().series.len(), |i: int| point_tree(self.board().series[i])),
            ),
    {
        let mut items: Vec<Json> = Vec::new();
        let mut i: usize = 0;
        while i < self.series.len()
            invariant
                i <= self.series@.len(),
                items@.len() == i,
                forall|j: int|
                    0 <= j < i ==> (#[trigger] items@[j]).tree() == point_tree(self.series@[j]),
            decreases self.series@.len() - i,
        {
            let point = self.series[i];
            let item = Fields::new().with("t", Json::natural(point.t)).with(
                "ms",
                Json::natural(point.ms),
            ).with("matched", Json::natural(point.matched)).with(
                "errored",
                Json::Bool(point.errored),
            ).build();
            items.push(item);
            i = i + 1;
        }
        assert(item_trees(items@) =~= Seq::new(
            self.board().series.len(),
            |i: int| point_tree(self.board().series[i]),
        ));
        Json::list(items)
    }

    fn events_json(&self) -> (json: Json)
        ensures
            json.tree() == JsonTree::List(
                Seq::new(self.board().events.len(), |i: int| event_tree(self.board().events[i])),
            ),
    {
        let mut items: Vec<Json> = Vec::new();
        let mut i: usize = 0;
        while i < self.events.len()
            invariant
                i <= self.events@.len(),
                items@.len() == i,
                forall|j: int|
                    0 <= j < i ==> (#[trigger] items@[j]).tree() == event_tree(
                        event_of(self.events@[j]),
                    ),
            decreases self.events@.len() - i,
        {
            let item = Fields::new().with("at_ms", Json::natural(self.events[i].at_ms)).with(
                "msg",
                Json::text(self.events[i].msg.as_str()),
            ).build();
            items.push(item);
            i = i + 1;
        }
        assert(item_trees(items@) =~= Seq::new(
            self.board().events.len(),
            |i: int| event_tree(self.board().events[i]),
        ));
        Json::list(items)
    }

    fn snapshot(&self, look: Look, supervisor: &Supervisor) -> (json: Json)
        ensures
            json.tree() == snapshot_tree(
                self.board(),
                look,
                supervisor.coordinator(),
                supervisor.running(),
            ),
    {
        let last = query_json(&look.query, look.now_ms);
        let reachable = look.cluster.is_some();
        let (shard_count, table, nodes) = match &look.cluster {
            Some(cluster) => (
                cluster.shard_count,
                numbers_json(&cluster.vshard_group),
                nodes_json(&cluster.nodes, supervisor),
            ),
            None => {
                let no_numbers: Vec<u32> = Vec::new();
                let no_nodes: Vec<NodeState> = Vec::new();
                (0, numbers_json(&no_numbers), nodes_json(&no_nodes, supervisor))
            },
        };
        let coordinator = Fields::new().with(
            "addr",
            Json::text(supervisor.coordinator_addr()),
        ).with("reachable", Json::Bool(reachable)).build();
        let query = Fields::new().with("ok", Json::natural(self.query_ok)).with(
            "err",
            Json::natural(self.query_err),
        ).with("last", last).build();
        let panels = look.panels;
        let aggregate = Fields::new().with("by_origin", panels.by_origin).with(
            "by_aircraft",
            panels.by_aircraft,
        ).with("geo_cells", panels.geo_cells).with("altitude_hist", panels.altitude_hist).with(
            "altitude_pcts",
            panels.altitude_pcts,
        ).build();
        Fields::new().with("v", Json::natural(1)).with(
            "shard_count",
            Json::natural(shard_count as u64),
        ).with("vshard_group", table).with("coordinator", coordinator).with("nodes", nodes).with(
            "query",
            query,
        ).with("aggregate", aggregate).with("series", self.series_json()).with(
            "events",
            self.events_json(),
        ).build()
    }

    /// Take one look at the cluster in, and give the snapshot to publish: the promotions that the
    /// roles reveal become events, the live query is counted, and the time series grows by a
    /// point.
    pub fn look(&mut self, look: Look, supervisor: &Supervisor) -> (json: Json)
        requires
            old(self).well_formed(),
        ensures
            final(self).well_formed(),
            final(self).board() == after_look(old(self).board(), look),
            json.tree() == snapshot_tree(
                final(self).board(),
                look,
                supervisor.coordinator(),
                supervisor.running(),
            ),
    {
        match &look.cluster {
            Some(cluster) => {
                self.observe(&cluster.nodes, look.at_ms);
            },
            None => {
                assert(self.board().events + Seq::<(u64, Seq<char>)>::empty()
                    =~= self.board().events);
            },
        }
        let (ms, matched): (u64, u64) = match &look.query {
            Some(LiveQuery::Answered { response, ms }) => {
                self.query_ok = self.query_ok.wrapping_add(1);
                (*ms, response.total_matched)
            },
            Some(LiveQuery::Failed { .. }) => {
                self.query_err = self.query_err.wrapping_add(1);
                (0, 0)
            },
            None => (0, 0),
        };
        let errored = self.query_err > self.seen_err;
        self.seen_err = self.query_err;
        self.series.push(Point { t: look.secs, ms, matched, errored });
        keep_last(&mut self.series, KEPT_POINTS);
        self.snapshot(look, supervisor)
    }

    /// A request to kill a node: the supervisor forgets its process, which is then killed. A node
    /// that is not managed here is not found.
    pub fn on_kill(&mut self, supervisor: &mut Supervisor, node_id: &str, at_ms: u64) -> (reply:
        Reply)
        requires
            old(self).well_formed(),
            old(supervisor).well_formed(),
        ensures
            final(self).well_formed(),
            final(supervisor).well_formed(),
            final(supervisor).same_cluster(*old(supervisor)),
            final(supervisor).next_port() == old(supervisor).next_port(),
            final(supervisor).follower_seq() == old(supervisor).follower_seq(),
            !final(supervisor).running().contains(node_id@),
            forall|name: Seq<char>|
                name != node_id@ ==> (final(supervisor).running().contains(name)
                    <==> #[trigger] old(supervisor).running().contains(name)),
            if old(supervisor).running().contains(node_id@) {
                &&& reply.status == 200
                &&& reply.body@ == "killed"@
                &&& final(self).board() == with_event(
                    old(self).board(),
                    at_ms,
                    "KILLED "@ + node_id@ + " (SIGKILL)"@,
                )
            } else {
                &&& reply.status == 404
                &&& reply.body@ == "no such managed node"@
                &&& final(self).board() == old(self).board()
                &&& final(supervisor).running() == old(supervisor).running()
            },
    {
        if supervisor.kill(node_id) {
            let mut msg = owned("KILLED ");
            msg.append(node_id);
            msg.append(" (SIGKILL)");
            self.push_event(at_ms, msg);
            Reply { status: 200, body: owned("killed") }
        } else {
            Reply { status: 404, body: owned("no such managed node") }
        }
    }

    /// A request to drain a node, once the coordinator has answered or could not be asked.
    pub fn on_drain(
        &mut self,
        node_id: &str,
        outcome: Result<ChangeResponse, String>,
        at_ms: u64,
    ) -> (reply: Reply)
        requires
            old(self).well_formed(),
        ensures
            final(self).well_formed(),
            match outcome {
                Ok(response) => reply.body == response.message && reply.status == if response.ok {
                    200u16
                } else {
                    404u16
                },
                Err(error) => reply.body == error && reply.status == 502,
            },
            final(self).board() == if outcome matches Ok(response) && response.ok {
                with_event(
                    old(self).board(),
                    at_ms,
                    "DRAINING "@ + node_id@ + " — leader will remove it from the group"@,
                )
            } else {
                old(self).board()
            },
    {
        match outcome {
            Ok(response) => if response.ok {
                let mut msg = owned("DRAINING ");
                msg.append(node_id);
                msg.append(" — leader will remove it from the group");
                self.push_event(at_ms, msg);
                Reply { status: 200, body: response.message }
            } else {
                Reply { status: 404, body: response.message }
            },
            Err(error) => Reply { status: 502, body: error },
        }
    }

    /// A request for one more follower, once its process was started or could not be.
    pub fn on_added(&mut self, outcome: Result<String, String>, raft: bool, at_ms: u64) -> (reply:
        Reply)
        requires
            old(self).well_formed(),
        ensures
            final(self).well_formed(),
            match outcome {
                Ok(node_id) => {
                    &&& reply.status == 200
                    &&& reply.body@ == node_id@
                    &&& final(self).board() == with_event(
                        old(self).board(),
                        at_ms,
                        if raft {
                            "spawned "@ + node_id@ + " — joining the raft group"@
                        } else {
                            "spawned "@ + node_id@
                        },
                    )
                },
                Err(error) => {
                    &&& reply.status == 500
                    &&& reply.body == error
                    &&& final(self).board() == old(self).board()
                },
            },
    {
        match outcome {
            Ok(node_id) => {
                let mut msg = owned("spawned ");
                msg.append(node_id.as_str());
                if raft {
                    msg.append(" — joining the raft group");
                }
                self.push_event(at_ms, msg);
                Reply { status: 200, body: node_id }
            },
            Err(error) => Reply { status: 500, body: error },
        }
    }
}

proof fn lemma_last_of_push<T>(items: Seq<T>, x: T, n: nat)
    ensures
        last_of(last_of(items, n).push(x), n) == last_of(items.push(x), n),
{
    assert(last_of(last_of(items, n).push(x), n) =~= last_of(items.push(x), n));
}

/// Whether no two nodes have the same name.
pub open spec fn distinct_nodes(nodes: Seq<NodeState>) -> bool {
    forall|i: int, j: int|
        #![trigger nodes[i], nodes[j]]
        0 <= i < nodes.len() && 0 <= j < nodes.len() && nodes[i].node_id@ == nodes[j].node_id@
            ==> i == j
}

proof fn lemma_roles_after(roles: Map<Seq<char>, NodeRole>, nodes: Seq<NodeState>)
    requires
        distinct_nodes(nodes),
    ensures
        forall|i: int|
            0 <= i < nodes.len() ==> roles_after(roles, nodes).contains_key(
                (#[trigger] nodes[i]).node_id@,
            ) && roles_after(roles, nodes)[nodes[i].node_id@] == nodes[i].role,
        forall|id: Seq<char>|
            (forall|i: int| 0 <= i < nodes.len() ==> (#[trigger] nodes[i]).node_id@ != id)
                && #[trigger] roles.contains_key(id) ==> roles_after(roles, nodes).contains_key(id)
                && roles_after(roles, nodes)[id] == roles[id],
    decreases nodes.len(),
{
    if nodes.len() > 0 {
        let before = nodes.drop_last();
        assert(distinct_nodes(before)) by {
            assert forall|i: int, j: int|
                #![trigger before[i], before[j]]
                0 <= i < before.len() && 0 <= j < before.len() && before[i].node_id@
                    == before[j].node_id@ implies i == j by {
                assert(nodes[i] == before[i] && nodes[j] == before[j]);
            }
        }
        lemma_roles_after(roles, before);
        assert forall|i: int| 0 <= i < nodes.len() implies roles_after(roles, nodes).contains_key(
            (#[trigger] nodes[i]).node_id@,
        ) && roles_after(roles, nodes)[nodes[i].node_id@] == nodes[i].role by {
            if i < before.len() {
                assert(before[i] == nodes[i]);
                assert(nodes[i].node_id@ != nodes[nodes.len() - 1].node_id@);
            }
        }
        assert forall|id: Seq<char>|
            (forall|i: int| 0 <= i < nodes.len() ==> (#[trigger] nodes[i]).node_id@ != id)
                && #[trigger] roles.contains_key(id) implies roles_after(
            roles,
            nodes,
        ).contains_key(id) && roles_after(roles, nodes)[id] == roles[id] by {
            assert forall|i: int| 0 <= i < before.len() implies (#[trigger] before[i]).node_id@
                != id by {
                assert(nodes[i] == before[i]);
            }
            assert(nodes[nodes.len() - 1].node_id@ != id);
        }
    }
}

/// A promotion is told once: a second look at the same nodes reveals none.
pub proof fn law_promotions_are_told_once(
    roles: Map<Seq<char>, NodeRole>,
    nodes: Seq<NodeState>,
    at_ms: u64,
)
    requires
        distinct_nodes(nodes),
    ensures
        promotions(roles_after(roles, nodes), nodes, at_ms).len() == 0,
{
    lemma_roles_after(roles, nodes);
    let known = roles_after(roles, nodes);
    lemma_no_news(known, nodes, at_ms, nodes.len() as int);
    assert(nodes.take(nodes.len() as int) =~= nodes);
}

proof fn lemma_no_news(
    known: Map<Seq<char>, NodeRole>,
    nodes: Seq<NodeState>,
    at_ms: u64,
    n: int,
)
    requires
        distinct_nodes(nodes),
        0 <= n <= nodes.len(),
        forall|i: int|
            0 <= i < nodes.len() ==> known.contains_key((#[trigger] nodes[i]).node_id@)
                && known[nodes[i].node_id@] == nodes[i].role,
    ensures
        promotions(known, nodes.take(n), at_ms).len() == 0,
    decreases n,
{
    if n > 0 {
        lemma_no_news(known, nodes, at_ms, n - 1);
        let seen = nodes.take(n);
        let before = nodes.take(n - 1);
        assert(seen.drop_last() =~= before);
        assert(seen.last() == nodes[n - 1]);
        assert(distinct_nodes(before)) by {
            assert forall|i: int, j: int|
                #![trigger before[i], before[j]]
                0 <= i < before.len() && 0 <= j < before.len() && before[i].node_id@
                    == before[j].node_id@ implies i == j by {
                assert(nodes[i] == before[i] && nodes[j] == before[j]);
            }
        }
        lemma_roles_after(known, before);
        let id = nodes[n - 1].node_id@;
        assert forall|i: int| 0 <= i < before.len() implies (#[trigger] before[i]).node_id@
            != id by {
            assert(before[i] == nodes[i]);
        }
        assert(known.contains_key(id));
        assert(roles_after(known, before)[id] == nodes[n - 1].role);
    }
}

/// The role in which some nodes list one last, if they do.
pub open spec fn listed_role(nodes: Seq<NodeState>, id: Seq<char>) -> Option<NodeRole>
    decreases nodes.len(),
{
    if nodes.len() == 0 {
        None
    } else if nodes.last().node_id@ == id {
        Some(nodes.last().role)
    } else {
        listed_role(nodes.drop_last(), id)
    }
}

/// The role of a node in the latest of some looks that lists it, if any does.
pub open spec fn latest_role(looks: Seq<Seq<NodeState>>, id: Seq<char>) -> Option<NodeRole>
    decreases looks.len(),
{
    if looks.len() == 0 {
        None
    } else {
        match listed_role(looks.last(), id) {
            Some(role) => Some(role),
            None => latest_role(looks.drop_last(), id),
        }
    }
}

/// The roles that a board knows after some looks.
pub open spec fn known_roles(looks: Seq<Seq<NodeState>>) -> Map<Seq<char>, NodeRole>
    decreases looks.len(),
{
    if looks.len() == 0 {
        Map::empty()
    } else {
        roles_after(known_roles(looks.drop_last()), looks.last())
    }
}

proof fn lemma_role_after(
    roles: Map<Seq<char>, NodeRole>,
    nodes: Seq<NodeState>,
    id: Seq<char>,
)
    ensures
        roles_after(roles, nodes).contains_key(id) <==> listed_role(nodes, id) is Some
            || roles.contains_key(id),
        listed_role(nodes, id) matches Some(role) ==> roles_after(roles, nodes)[id] == role,
        listed_role(nodes, id) is None && roles.contains_key(id) ==> roles_after(roles, nodes)[id]
            == roles[id],
    decreases nodes.len(),
{
    if nodes.len() > 0 {
        lemma_role_after(roles, nodes.drop_last(), id);
    }
}

/// A board knows each node by its role in the latest look that listed it, and no other node.
pub proof fn law_roles_are_the_latest(looks: Seq<Seq<NodeState>>, id: Seq<char>)
    ensures
        known_roles(looks).contains_key(id) <==> latest_role(looks, id) is Some,
        known_roles(looks).contains_key(id) ==> Some(known_roles(looks)[id]) == latest_role(
            looks,
            id,
        ),
    decreases looks.len(),
{
    if looks.len() > 0 {
        law_roles_are_the_latest(looks.drop_last(), id);
        lemma_role_after(known_roles(looks.drop_last()), looks.last(), id);
    }
}

/// Whether an event tells of a node that leads, and followed when it was last listed.
pub open spec fn tells_promotion(
    event: (u64, Seq<char>),
    at_ms: u64,
    looks: Seq<Seq<NodeState>>,
    node: NodeState,
) -> bool {
    event == (at_ms, promotion_text(node)) && node.role == NodeRole::Leader && latest_role(
        looks,
        node.node_id@,
    ) == Some(NodeRole::Follower)
}

/// The looks before a node of a look is seen: the earlier ones, and what this one lists before it.
pub open spec fn looks_before(
    looks: Seq<Seq<NodeState>>,
    nodes: Seq<NodeState>,
    i: int,
) -> Seq<Seq<NodeState>> {
    looks.push(nodes.take(i))
}

/// A look tells of a promotion exactly where a node leads, and followed when it was last listed: in
/// an earlier look, or further up in this one. The board then knows the roles with that look added.
pub proof fn law_promotions_are_told_exactly(
    looks: Seq<Seq<NodeState>>,
    nodes: Seq<NodeState>,
    at_ms: u64,
    event: (u64, Seq<char>),
)
    ensures
        promotions(known_roles(looks), nodes, at_ms).contains(event) <==> exists|i: int|
            0 <= i < nodes.len() && tells_promotion(
                event,
                at_ms,
                looks_before(looks, nodes, i),
                #[trigger] nodes[i],
            ),
        roles_after(known_roles(looks), nodes) == known_roles(looks.push(nodes)),
    decreases nodes.len(),
{
    let roles = known_roles(looks);
    assert(looks.push(nodes).drop_last() =~= looks);
    if nodes.len() > 0 {
        let before = nodes.drop_last();
        let last = (nodes.len() - 1) as int;
        law_promotions_are_told_exactly(looks, before, at_ms, event);
        assert(nodes.take(last) =~= before);
        law_roles_are_the_latest(looks.push(before), nodes[last].node_id@);
        let told = promotions(roles, before, at_ms);
        let all = promotions(roles, nodes, at_ms);
        assert forall|i: int| 0 <= i < last implies #[trigger] before[i] == nodes[i]
            && looks_before(looks, before, i) == looks_before(looks, nodes, i) by {
            assert(before.take(i) =~= nodes.take(i));
        }
        if all.contains(event) {
            let at = all.index_of(event);
            if at < told.len() {
                assert(told[at] == event);
                let i = choose|i: int|
                    0 <= i < before.len() && tells_promotion(
                        event,
                        at_ms,
                        looks_before(looks, before, i),
                        #[trigger] before[i],
                    );
                assert(nodes[i] == before[i]);
            } else {
                assert(tells_promotion(event, at_ms, looks_before(looks, nodes, last), nodes[last]));
            }
        }
        if exists|i: int|
            0 <= i < nodes.len() && tells_promotion(
                event,
                at_ms,
                looks_before(looks, nodes, i),
                #[trigger] nodes[i],
            ) {
            let i = choose|i: int|
                0 <= i < nodes.len() && tells_promotion(
                    event,
                    at_ms,
                    looks_before(looks, nodes, i),
                    #[trigger] nodes[i],
                );
            if i < last {
                assert(before[i] == nodes[i]);
                assert(told.contains(event));
                let at = told.index_of(event);
                assert(all[at] == event);
            } else {
                assert(all[all.len() - 1] == event);
            }
        }
    }
}

proof fn lemma_unlisted(nodes: Seq<NodeState>, n: int, id: Seq<char>)
    requires
        0 <= n <= nodes.len(),
        forall|i: int| 0 <= i < n ==> (#[trigger] nodes[i]).node_id@ != id,
    ensures
        listed_role(nodes.take(n), id) is None,
    decreases n,
{
    if n > 0 {
        lemma_unlisted(nodes, n - 1, id);
        assert(nodes.take(n).drop_last() =~= nodes.take(n - 1));
        assert(nodes.take(n).last() == nodes[n - 1]);
    }
}

/// Where a look lists no node twice, it tells of a promotion exactly where a node leads now, and
/// followed in the latest earlier look that listed it.
pub proof fn law_promotions_follow_earlier_looks(
    looks: Seq<Seq<NodeState>>,
    nodes: Seq<NodeState>,
    at_ms: u64,
    event: (u64, Seq<char>),
)
    requires
        distinct_nodes(nodes),
    ensures
        promotions(known_roles(looks), nodes, at_ms).contains(event) <==> exists|i: int|
            0 <= i < nodes.len() && tells_promotion(event, at_ms, looks, #[trigger] nodes[i]),
{
    law_promotions_are_told_exactly(looks, nodes, at_ms, event);
    assert forall|i: int| 0 <= i < nodes.len() implies tells_promotion(
        event,
        at_ms,
        looks_before(looks, nodes, i),
        #[trigger] nodes[i],
    ) == tells_promotion(event, at_ms, looks, nodes[i]) by {
        let id = nodes[i].node_id@;
        assert forall|j: int| 0 <= j < i implies (#[trigger] nodes[j]).node_id@ != id by {
            assert(nodes[i].node_id@ == id);
        }
        lemma_unlisted(nodes, i, id);
        assert(looks_before(looks, nodes, i).drop_last() =~= looks);
        assert(looks_before(looks, nodes, i).last() == nodes.take(i));
    }
}

proof fn lemma_lookup_at(fields: Seq<(Seq<char>, JsonTree)>, key: Seq<char>, at: int)
    requires
        0 <= at < fields.len(),
        fields[at].0 == key,
        forall|j: int| 0 <= j < at ==> (#[trigger] fields[j]).0 != key,
    ensures
        lookup(fields, key) == Some(fields[at].1),
    decreases at,
{
    if at > 0 {
        assert(fields[0].0 != key);
        let rest = fields.drop_first();
        assert forall|j: int| 0 <= j < at - 1 implies (#[trigger] rest[j]).0 != key by {
            assert(rest[j] == fields[j + 1]);
        }
        lemma_lookup_at(rest, key, at - 1);
    }
}

/// A published snapshot is of the first version, and holds no more than the kept points and events.
pub proof fn law_snapshot_is_bounded(
    board: Board,
    look: Look,
    coordinator: Seq<char>,
    running: Seq<Seq<char>>,
)
    ensures
        ({
            let after = after_look(board, look);
            let published = snapshot_tree(after, look, coordinator, running);
            &&& published.get("v"@) == Some(JsonTree::Natural(1))
            &&& published.get("series"@) matches Some(JsonTree::List(points)) && points.len()
                == after.series.len() && points.len() <= KEPT_POINTS
            &&& published.get("events"@) matches Some(JsonTree::List(events)) && events.len()
                == after.events.len() && events.len() <= KEPT_EVENTS
        }),
{
    reveal_strlit("v");
    reveal_strlit("shard_count");
    reveal_strlit("vshard_group");
    reveal_strlit("coordinator");
    reveal_strlit("nodes");
    reveal_strlit("query");
    reveal_strlit("aggregate");
    reveal_strlit("series");
    reveal_strlit("events");
    let after = after_look(board, look);
    let fields = snapshot_tree(after, look, coordinator, running)->Object_0;
    lemma_lookup_at(fields, "v"@, 0);
    assert forall|j: int| 0 <= j < 7 implies (#[trigger] fields[j]).0.len() != 6 by {
        assert(fields[0].0 == "v"@ && fields[1].0 == "shard_count"@);
        assert(fields[2].0 == "vshard_group"@ && fields[3].0 == "coordinator"@);
        assert(fields[4].0 == "nodes"@ && fields[5].0 == "query"@ && fields[6].0 == "aggregate"@);
    }
    assert(fields[7].0[0] == 's' && "events"@[0] == 'e');
    lemma_lookup_at(fields, "series"@, 7);
    lemma_lookup_at(fields, "events"@, 8);
}

/// A row of a bucket panel.
pub open spec fn row_tree(bucket: (String, u64), key_name: Seq<char>) -> JsonTree {
    JsonTree::Object(
        no_fields().push((key_name, JsonTree::Text(bucket.0@))).push(
            ("count"@, JsonTree::Natural(bucket.1)),
        ),
    )
}

/// Whether a panel shows the `n` biggest buckets, the biggest first, equal ones by key.
pub open spec fn shows_rows(
    panel: JsonTree,
    buckets: Seq<(String, u64)>,
    key_name: Seq<char>,
    n: int,
) -> bool {
    exists|top: Seq<(String, u64)>| #[trigger]
        is_top(top, buckets, n) && panel == JsonTree::List(
            Seq::new(top.len(), |i: int| row_tree(top[i], key_name)),
        )
}

/// The `n` biggest buckets as rows; no rows where the aggregation gave no answer.
pub fn bucket_rows(buckets: Option<&Vec<(String, u64)>>, key_name: &str, n: usize) -> (panel: Json)
    ensures
        match buckets {
            Some(list) => shows_rows(panel.tree(), list@, key_name@, n as int),
            None => panel.tree() == JsonTree::List(Seq::empty()),
        },
{
    let mut items: Vec<Json> = Vec::new();
    match buckets {
        Some(list) => {
            let top = top_buckets(list, n);
            let mut i: usize = 0;
            while i < top.len()
                invariant
                    i <= top@.len(),
                    items@.len() == i,
                    forall|j: int|
                        0 <= j < i ==> (#[trigger] items@[j]).tree() == row_tree(
                            top@[j],
                            key_name@,
                        ),
                decreases top@.len() - i,
            {
                let item = Fields::new().with(key_name, Json::text(top[i].0.as_str())).with(
                    "count",
                    Json::natural(top[i].1),
                ).build();
                items.push(item);
                i = i + 1;
            }
            assert(item_trees(items@) =~= Seq::new(
                top@.len(),
                |i: int| row_tree(top@[i], key_name@),
            ));
        },
        None => {
            assert(item_trees(items@) =~= Seq::<JsonTree>::empty());
        },
    }
    Json::list(items)
}

/// The two sides of a grid cell's key, `latitude,longitude`; `None` for a key without a comma.
pub fn cell_sides(key: &str) -> (sides: Option<(String, String)>)
    ensures
        match sides {
            Some((lat, lon)) => cut_once(key@, ","@) == Some((lat@, lon@)),
            None => cut_once(key@, ","@) is None,
        },
{
    split_once(key, ",")
}

/// A grid cell: its coordinates, or `None` where its key gives none, and its count.
#[derive(Debug, PartialEq)]
pub struct Cell {
    pub place: Option<(Json, Json)>,
    pub count: u64,
}

/// The cells that have coordinates, as the map shows them.
pub open spec fn cell_trees(cells: Seq<Cell>) -> Seq<JsonTree>
    decreases cells.len(),
{
    if cells.len() == 0 {
        Seq::empty()
    } else {
        let before = cell_trees(cells.drop_last());
        match cells.last().place {
            None => before,
            Some((lat, lon)) => before.push(
                JsonTree::Object(
                    no_fields().push(("lat"@, lat.tree())).push(("lon"@, lon.tree())).push(
                        ("count"@, JsonTree::Natural(cells.last().count)),
                    ),
                ),
            ),
        }
    }
}

/// The map panel: every cell that has coordinates.
pub fn geo_cells(cells: Vec<Cell>) -> (panel: Json)
    ensures
        panel.tree() == JsonTree::List(cell_trees(cells@)),
{
    let mut items: Vec<Json> = Vec::new();
    let ghost all = cells@;
    assert(item_trees(items@) =~= Seq::<JsonTree>::empty());
    for cell in rest: cells
        invariant
            rest.seq() == all,
            item_trees(items@) == cell_trees(all.take(rest.index())),
    {
        proof {
            let seen = all.take(rest.index() + 1);
            assert(seen.drop_last() =~= all.take(rest.index()));
            assert(seen.last() == cell);
        }
        match cell.place {
            Some((lat, lon)) => {
                let ghost before = items@;
                let item = Fields::new().with("lat", lat).with("lon", lon).with(
                    "count",
                    Json::natural(cell.count),
                ).build();
                items.push(item);
                assert(item_trees(items@) =~= item_trees(before).push(item.tree()));
            },
            None => {},
        }
    }
    assert(all.take(all.len() as int) =~= all);
    Json::list(items)
}

/// A bin of a histogram: where it begins, how that is written, and its count.
#[derive(Debug, PartialEq)]
pub struct Bin {
    pub at: Double,
    pub shown: Json,
    pub count: u64,
}

/// Bins rank by where they begin.
impl Ranked for Bin {
    open spec fn ranks_before(self, other: Self) -> bool {
        self.at.spec_less(other.at)
    }

    fn precedes(&self, other: &Self) -> (result: bool) {
        self.at.less(other.at)
    }
}

/// A bin as the histogram shows it.
pub open spec fn bin_tree(bin: Bin) -> JsonTree {
    JsonTree::Object(
        no_fields().push(("bucket"@, bin.shown.tree())).push(
            ("count"@, JsonTree::Natural(bin.count)),
        ),
    )
}

/// Whether a panel shows the bins from the lowest to the highest.
pub open spec fn shows_bins(panel: JsonTree, bins: Seq<Bin>) -> bool {
    exists|sorted: Seq<Bin>| #[trigger]
        same_elements(sorted, bins) && is_ranked(sorted) && panel == JsonTree::List(
            Seq::new(sorted.len(), |i: int| bin_tree(sorted[i])),
        )
}

/// The histogram panel: the bins from the lowest to the highest.
pub fn altitude_hist(bins: Vec<Bin>) -> (panel: Json)
    requires
        bins@.len() >= 2 ==> forall|i: int|
            0 <= i < bins@.len() ==> !(#[trigger] bins@[i]).at.spec_is_nan(),
    ensures
        shows_bins(panel.tree(), bins@),
{
    assert(orderable(bins@));
    let sorted = rank(bins);
    let ghost full = sorted@;
    let mut items: Vec<Json> = Vec::new();
    for bin in rest: sorted
        invariant
            rest.seq() == full,
            items@.len() == rest.index(),
            forall|j: int|
                0 <= j < items@.len() ==> (#[trigger] items@[j]).tree() == bin_tree(full[j]),
    {
        let item = Fields::new().with("bucket", bin.shown).with(
            "count",
            Json::natural(bin.count),
        ).build();
        items.push(item);
    }
    assert(item_trees(items@) =~= Seq::new(full.len(), |i: int| bin_tree(full[i])));
    Json::list(items)
}

/// The percentile panel: each percentile with its value, in the order of the request.
pub fn altitude_pcts(rows: Vec<(Json, Json)>) -> (panel: Json)
    ensures
        panel.tree() == JsonTree::List(
            Seq::new(
                rows@.len(),
                |i: int|
                    JsonTree::Object(
                        no_fields().push(("p"@, rows@[i].0.tree())).push(
                            ("value"@, rows@[i].1.tree()),
                        ),
                    ),
            ),
        ),
{
    let mut items: Vec<Json> = Vec::new();
    let ghost all = rows@;
    for row in rest: rows
        invariant
            rest.seq() == all,
            items@.len() == rest.index(),
            forall|j: int|
                0 <= j < items@.len() ==> (#[trigger] items@[j]).tree() == JsonTree::Object(
                    no_fields().push(("p"@, all[j].0.tree())).push(("value"@, all[j].1.tree())),
                ),
    {
        let (p, value) = row;
        let item = Fields::new().with("p", p).with("value", value).build();
        items.push(item);
    }
    assert(item_trees(items@) =~= Seq::new(
        all.len(),
        |i: int|
            JsonTree::Object(
                no_fields().push(("p"@, all[i].0.tree())).push(("value"@, all[i].1.tree())),
            ),
    ));
    Json::list(items)
}

/// The question of a request to the search bar, or the body that refuses an empty one.
pub fn question_of(q: Option<&str>) -> (question: Result<String, Json>)
    ensures
        match question {
            Ok(text) => q matches Some(raw) && text@ == raw@ && trimmed(raw@).len() > 0,
            Err(body) => (q matches Some(raw) ==> trimmed(raw@).len() == 0) && body.tree()
                == JsonTree::Object(
                no_fields().push(("error"@, JsonTree::Text("empty question"@))),
            ),
        },
{
    match q {
        Some(raw) => {
            let text = trim(raw);
            if !text.as_str().is_empty() {
                return Ok(owned(raw));
            }
        },
        None => {},
    }
    Err(Fields::new().with("error", Json::text("empty question")).build())
}

/// The body that answers the search bar: the answer with its evidence, what it cost, and whether
/// the budget ran out.
pub fn answer_body(answer: &Answer, tool_calls: u64, budget_exhausted: bool) -> (body: Json)
    ensures
        body.tree() == JsonTree::Object(
            no_fields().push(("answer"@, JsonTree::Text(answer.text@))).push(
                (
                    "provenance"@,
                    JsonTree::List(
                        Seq::new(
                            answer.provenance@.len(),
                            |i: int| JsonTree::Text(answer.provenance@[i]@),
                        ),
                    ),
                ),
            ).push(("tool_calls"@, JsonTree::Natural(tool_calls))).push(
                ("budget_exhausted"@, JsonTree::Bool(budget_exhausted)),
            ),
        ),
{
    let mut items: Vec<Json> = Vec::new();
    let mut i: usize = 0;
    while i < answer.provenance.len()
        invariant
            i <= answer.provenance@.len(),
            items@.len() == i,
            forall|j: int|
                0 <= j < i ==> (#[trigger] items@[j]).tree() == JsonTree::Text(
                    answer.provenance@[j]@,
                ),
        decreases answer.provenance@.len() - i,
    {
        items.push(Json::text(answer.provenance[i].as_str()));
        i = i + 1;
    }
    assert(item_trees(items@) =~= Seq::new(
        answer.provenance@.len(),
        |i: int| JsonTree::Text(answer.provenance@[i]@),
    ));
    Fields::new().with("answer", Json::text(answer.text.as_str())).with(
        "provenance",
        Json::list(items),
    ).with("tool_calls", Json::natural(tool_calls)).with(
        "budget_exhausted",
        Json::Bool(budget_exhausted),
    ).build()
}

/// A body as the text that is sent.
pub fn body_text(body: &Json) -> (text: String)
    ensures
        text@ == rendered(body.tree()),
{
    crate::json::render(body)
}

/// A ring keeps the newest: as many as it holds, or all, in their order and none from the middle.
pub proof fn law_a_ring_keeps_the_newest<T>(items: Seq<T>, n: nat, i: int)
    ensures
        last_of(items, n).len() == if items.len() < n {
            items.len()
        } else {
            n
        },
        0 <= i < last_of(items, n).len() ==> last_of(items, n)[i] == items[items.len() - last_of(
            items,
            n,
        ).len() + i],
{
}

/// A look counts the live query once, as answered or as failed, and adds one point to the series:
/// its time, and of an answered query how long it took and how many it matched; the point is
/// marked exactly where an error has come since the last.
pub proof fn law_a_look_counts_its_query(board: Board, look: Look)
    requires
        board.ok < u64::MAX,
        board.err < u64::MAX,
    ensures
        ({
            let after = after_look(board, look);
            let point = after.series.last();
            &&& after.ok == board.ok + if look.query matches Some(LiveQuery::Answered { .. }) {
                1int
            } else {
                0int
            }
            &&& after.err == board.err + if look.query matches Some(LiveQuery::Failed { .. }) {
                1int
            } else {
                0int
            }
            &&& after.series.len() > 0
            &&& point.t == look.secs
            &&& look.query matches Some(LiveQuery::Answered { response, ms }) ==> point.ms == ms
                && point.matched == response.total_matched
            &&& !(look.query matches Some(LiveQuery::Answered { .. })) ==> point.ms == 0
                && point.matched == 0
            &&& point.errored <==> after.err > board.seen_err
            &&& after.seen_err == after.err
            &&& after.series.len() <= 120
            &&& after.events.len() <= 50
        }),
{
    lemma_last_of_push(board.series, after_look(board, look).series.last(), KEPT_POINTS as nat);
}

/// A node is shown under its own id, address, role and shard, with the time since it was heard,
/// whether this dashboard runs its process, and whether it is being drained.
pub proof fn law_nodes_are_shown_as_they_are(
    nodes: Seq<NodeState>,
    running: Seq<Seq<char>>,
    i: int,
)
    requires
        0 <= i < nodes.len(),
    ensures
        node_trees(nodes, running).len() == nodes.len(),
        ({
            let parts = node_trees(nodes, running)[i]->Object_0;
            &&& parts.contains(("node_id"@, JsonTree::Text(nodes[i].node_id@)))
            &&& parts.contains(("address"@, JsonTree::Text(nodes[i].address@)))
            &&& parts.contains(("role"@, JsonTree::Text(nodes[i].role.spec_name())))
            &&& parts.contains(("shard_id"@, JsonTree::Natural(nodes[i].shard_id as u64)))
            &&& parts.contains(
                ("millis_since_seen"@, JsonTree::Natural(nodes[i].millis_since_seen)),
            )
            &&& parts.contains(
                ("has_process"@, JsonTree::Bool(running.contains(nodes[i].node_id@))),
            )
            &&& parts.contains(("draining"@, JsonTree::Bool(nodes[i].draining)))
        }),
{
    let parts = node_trees(nodes, running)[i]->Object_0;
    assert(parts[0] == ("node_id"@, JsonTree::Text(nodes[i].node_id@)));
    assert(parts[1] == ("address"@, JsonTree::Text(nodes[i].address@)));
    assert(parts[2] == ("role"@, JsonTree::Text(nodes[i].role.spec_name())));
    assert(parts[3] == ("shard_id"@, JsonTree::Natural(nodes[i].shard_id as u64)));
    assert(parts[4] == ("millis_since_seen"@, JsonTree::Natural(nodes[i].millis_since_seen)));
    assert(parts[5] == ("has_process"@, JsonTree::Bool(running.contains(nodes[i].node_id@))));
    assert(parts[6] == ("draining"@, JsonTree::Bool(nodes[i].draining)));
}

/// An answered query is shown with what it matched, how many shards answered of how many, and how
/// long it took; a failed one with its error.
pub proof fn law_the_live_query_is_shown_as_it_went(
    response: SearchResponse,
    ms: u64,
    error: String,
    now_ms: i64,
)
    ensures
        ({
            let parts = query_tree(
                Some(LiveQuery::Answered { response, ms }),
                now_ms,
            )->Object_0;
            &&& parts.contains(("ok"@, JsonTree::Bool(true)))
            &&& parts.contains(("total_matched"@, JsonTree::Natural(response.total_matched)))
            &&& parts.contains(("answered"@, JsonTree::Natural(response.shards_answered as u64)))
            &&& parts.contains(("queried"@, JsonTree::Natural(response.shards_queried as u64)))
            &&& parts.contains(("ms"@, JsonTree::Natural(ms)))
        }),
        ({
            let parts = query_tree(Some(LiveQuery::Failed { error }), now_ms)->Object_0;
            &&& parts.contains(("ok"@, JsonTree::Bool(false)))
            &&& parts.contains(("error"@, JsonTree::Text(error@)))
        }),
        query_tree(None, now_ms) == JsonTree::Null,
{
    let parts = query_tree(Some(LiveQuery::Answered { response, ms }), now_ms)->Object_0;
    assert(parts[0] == ("ok"@, JsonTree::Bool(true)));
    assert(parts[1] == ("total_matched"@, JsonTree::Natural(response.total_matched)));
    assert(parts[2] == ("answered"@, JsonTree::Natural(response.shards_answered as u64)));
    assert(parts[3] == ("queried"@, JsonTree::Natural(response.shards_queried as u64)));
    assert(parts[4] == ("ms"@, JsonTree::Natural(ms)));
    let failed = query_tree(Some(LiveQuery::Failed { error }), now_ms)->Object_0;
    assert(failed[0] == ("ok"@, JsonTree::Bool(false)));
    assert(failed[1] == ("error"@, JsonTree::Text(error@)));
}

/// A promotion is told of a node that was a follower and now leads, at the time of the look, with
/// the node and the shard that it leads; of nobody else.
pub proof fn law_a_promotion_tells_the_node_and_its_shard(
    roles: Map<Seq<char>, NodeRole>,
    node: NodeState,
    at_ms: u64,
)
    ensures
        promotions(roles, seq![node], at_ms) == if roles.contains_key(node.node_id@)
            && roles[node.node_id@] == NodeRole::Follower && node.role == NodeRole::Leader {
            seq![
                (
                    at_ms,
                    "PROMOTED "@ + node.node_id@ + " to leader of shard "@ + decimal_of(
                        node.shard_id as nat,
                    ),
                ),
            ]
        } else {
            Seq::<(u64, Seq<char>)>::empty()
        },
{
    let none = Seq::<NodeState>::empty();
    assert(seq![node].drop_last() =~= none);
    assert(promotions(roles, none, at_ms) =~= Seq::empty());
    assert(roles_after(roles, none) == roles);
    let told = promotions(roles, seq![node], at_ms);
    if was_promoted(roles, node) {
        assert(told =~= seq![(at_ms, promotion_text(node))]);
    } else {
        assert(told =~= Seq::empty());
    }
}

/// Cells are shown one by one, each with its own place and count; one without a place is left out.
pub proof fn law_cells_are_shown_in_order(cell: Cell, first: Seq<Cell>, second: Seq<Cell>)
    ensures
        cell.place matches Some((lat, lon)) ==> cell_trees(seq![cell]) == seq![
            JsonTree::Object(
                Seq::empty().push(("lat"@, lat.tree())).push(("lon"@, lon.tree())).push(
                    ("count"@, JsonTree::Natural(cell.count)),
                ),
            ),
        ],
        cell.place is None ==> cell_trees(seq![cell]).len() == 0,
        cell_trees(first + second) == cell_trees(first) + cell_trees(second),
    decreases second.len(),
{
    let none = Seq::<Cell>::empty();
    assert(cell_trees(none) =~= Seq::empty());
    assert(seq![cell].drop_last() =~= none);
    if let Some((lat, lon)) = cell.place {
        assert(cell_trees(seq![cell]) =~= seq![
            JsonTree::Object(
                Seq::empty().push(("lat"@, lat.tree())).push(("lon"@, lon.tree())).push(
                    ("count"@, JsonTree::Natural(cell.count)),
                ),
            ),
        ]);
    }
    if second.len() == 0 {
        assert(first + second =~= first);
        assert(cell_trees(first) + cell_trees(second) =~= cell_trees(first));
    } else {
        law_cells_are_shown_in_order(cell, first, second.drop_last());
        assert((first + second).drop_last() =~= first + second.drop_last());
        assert(cell_trees(first + second) =~= cell_trees(first) + cell_trees(second));
    }
}

/// A panel of bins shows every bin once, from the lowest to the highest.
pub proof fn law_bins_are_shown_from_low_to_high(panel: JsonTree, bins: Seq<Bin>, i: int, j: int)
    requires
        shows_bins(panel, bins),
    ensures
        panel matches JsonTree::List(rows) && rows.len() == bins.len(),
        exists|sorted: Seq<Bin>|
            sorted.len() == bins.len() && #[trigger] same_elements(sorted, bins) && (0 <= i < j
                < bins.len() ==> !sorted[j].at.spec_less(sorted[i].at)) && (0 <= i < bins.len()
                ==> panel->List_0[i] == bin_tree(sorted[i])),
{
    let sorted = choose|sorted: Seq<Bin>| #[trigger]
        same_elements(sorted, bins) && is_ranked(sorted) && panel == JsonTree::List(
            Seq::new(sorted.len(), |i: int| bin_tree(sorted[i])),
        );
    crate::ranking::lemma_same_elements(sorted, bins);
    if 0 <= i < j < sorted.len() {
        assert(!sorted[j].ranks_before(sorted[i]));
    }
}

/// A snapshot shows what the board holds: whether the coordinator answered, every node, how many
/// live queries were answered and failed, every point and every event, in order.
pub proof fn law_a_snapshot_shows_the_board(
    board: Board,
    look: Look,
    coordinator: Seq<char>,
    running: Seq<Seq<char>>,
    cluster: ClusterState,
)
    ensures
        ({
            let parts = snapshot_tree(board, look, coordinator, running)->Object_0;
            let listed = |rows: JsonTree, n: int| rows is List && rows->List_0.len() == n;
            &&& look.cluster == Some(cluster) ==> parts.contains(
                ("shard_count"@, JsonTree::Natural(cluster.shard_count as u64)),
            ) && parts.contains(
                ("nodes"@, JsonTree::List(node_trees(cluster.nodes@, running))),
            )
            &&& parts.contains(
                (
                    "coordinator"@,
                    JsonTree::Object(
                        Seq::empty().push(("addr"@, JsonTree::Text(coordinator))).push(
                            ("reachable"@, JsonTree::Bool(look.cluster is Some)),
                        ),
                    ),
                ),
            )
            &&& exists|i: int|
                0 <= i < parts.len() && (#[trigger] parts[i]).0 == "series"@ && listed(
                    parts[i].1,
                    board.series.len() as int,
                )
            &&& exists|i: int|
                0 <= i < parts.len() && (#[trigger] parts[i]).0 == "events"@ && listed(
                    parts[i].1,
                    board.events.len() as int,
                )
        }),
{
    let parts = snapshot_tree(board, look, coordinator, running)->Object_0;
    assert(parts.contains(parts[1]));
    assert(parts.contains(parts[3]));
    assert(parts.contains(parts[4]));
    assert(parts[7].0 == "series"@);
    assert(parts[8].0 == "events"@);
}

/// A point and an event are shown as they were recorded.
pub proof fn law_points_and_events_are_shown_as_recorded(point: Point, event: (u64, Seq<char>))
    ensures
        ({
            let parts = point_tree(point)->Object_0;
            &&& parts.contains(("t"@, JsonTree::Natural(point.t)))
            &&& parts.contains(("ms"@, JsonTree::Natural(point.ms)))
            &&& parts.contains(("matched"@, JsonTree::Natural(point.matched)))
            &&& parts.contains(("errored"@, JsonTree::Bool(point.errored)))
        }),
        ({
            let parts = event_tree(event)->Object_0;
            &&& parts.contains(("at_ms"@, JsonTree::Natural(event.0)))
            &&& parts.contains(("msg"@, JsonTree::Text(event.1)))
        }),
{
    let parts = point_tree(point)->Object_0;
    assert(parts[0] == ("t"@, JsonTree::Natural(point.t)));
    assert(parts[1] == ("ms"@, JsonTree::Natural(point.ms)));
    assert(parts[2] == ("matched"@, JsonTree::Natural(point.matched)));
    assert(parts[3] == ("errored"@, JsonTree::Bool(point.errored)));
    let told = event_tree(event)->Object_0;
    assert(told[0] == ("at_ms"@, JsonTree::Natural(event.0)));
    assert(told[1] == ("msg"@, JsonTree::Text(event.1)));
}

/// A panel of buckets shows the biggest first, as many as asked for: each row its own key and
/// count.
pub proof fn law_rows_show_the_biggest_buckets(
    panel: JsonTree,
    buckets: Seq<(String, u64)>,
    key_name: Seq<char>,
    n: int,
    i: int,
)
    requires
        shows_rows(panel, buckets, key_name, n),
        n >= 0,
        panel is List,
        0 <= i < panel->List_0.len(),
    ensures
        panel->List_0.len() == if buckets.len() < n {
            buckets.len() as int
        } else {
            n
        },
        exists|k: int|
            0 <= k < buckets.len() && {
                let parts = panel->List_0[i]->Object_0;
                &&& parts.contains((key_name, JsonTree::Text((#[trigger] buckets[k]).0@)))
                &&& parts.contains(("count"@, JsonTree::Natural(buckets[k].1)))
            },
{
    let top = choose|top: Seq<(String, u64)>| #[trigger]
        is_top(top, buckets, n) && panel == JsonTree::List(
            Seq::new(top.len(), |i: int| row_tree(top[i], key_name)),
        );
    crate::agg::law_top_buckets_count_most(top, buckets, n, i, i);
    let k = choose|k: int| 0 <= k < buckets.len() && buckets[k] == top[i];
    let parts = panel->List_0[i]->Object_0;
    assert(parts[0] == (key_name, JsonTree::Text(buckets[k].0@)));
    assert(parts[1] == ("count"@, JsonTree::Natural(buckets[k].1)));
}

/// What is told of a query's provenance, and the panels, stand each under its own name.
pub proof fn law_provenance_and_panels_stand_under_their_names(
    m: QueryManifest,
    now_ms: i64,
    panels: Panels,
    numbers: Seq<u32>,
    i: int,
)
    ensures
        provenance_tree(None, now_ms) == JsonTree::Null,
        ({
            let parts = provenance_tree(Some(m), now_ms)->Object_0;
            &&& parts.contains(("deduped"@, JsonTree::Natural(m.deduped as u64)))
            &&& parts.contains(("placement_version"@, JsonTree::Natural(m.placement_version)))
            &&& m.freshest_observed_at >= 0 ==> parts.contains(
                ("freshest_observed_at"@, JsonTree::Natural(m.freshest_observed_at as u64)),
            )
            &&& parts.contains(
                ("summary"@, JsonTree::Text(joined(summary_parts(m, now_ms), " · "@))),
            )
            &&& parts[1].0 == "omitted"@ && parts[1].1 is List && parts[1].1->List_0.len()
                == m.omitted@.len()
            &&& 0 <= i < m.omitted@.len() ==> parts[1].1->List_0[i]->Object_0.contains(
                ("address"@, JsonTree::Text(m.omitted@[i].address@)),
            ) && parts[1].1->List_0[i]->Object_0.contains(
                ("reason"@, JsonTree::Text(m.omitted@[i].reason@)),
            )
        }),
        ({
            let parts = panels_tree(panels)->Object_0;
            &&& parts.contains(("by_origin"@, panels.by_origin.tree()))
            &&& parts.contains(("by_aircraft"@, panels.by_aircraft.tree()))
            &&& parts.contains(("geo_cells"@, panels.geo_cells.tree()))
            &&& parts.contains(("altitude_hist"@, panels.altitude_hist.tree()))
            &&& parts.contains(("altitude_pcts"@, panels.altitude_pcts.tree()))
        }),
        number_trees(numbers).len() == numbers.len(),
        0 <= i < numbers.len() ==> number_trees(numbers)[i] == JsonTree::Natural(
            numbers[i] as u64,
        ),
{
    let parts = provenance_tree(Some(m), now_ms)->Object_0;
    assert(parts.contains(parts[0]) && parts.contains(parts[2]));
    assert(parts.contains(parts[3]) && parts.contains(parts[4]));
    if 0 <= i < m.omitted@.len() {
        let row = parts[1].1->List_0[i]->Object_0;
        assert(row.contains(row[0]) && row.contains(row[1]));
    }
    let shown = panels_tree(panels)->Object_0;
    assert(shown.contains(shown[0]) && shown.contains(shown[1]) && shown.contains(shown[2]));
    assert(shown.contains(shown[3]) && shown.contains(shown[4]));
}

/// An event is recorded last, with its time and text; the events before it stay, but for the
/// oldest where there were fifty, and nothing else on the board changes.
pub proof fn law_an_event_is_recorded_last(board: Board, at_ms: u64, msg: Seq<char>, i: int)
    requires
        board.events.len() <= 50,
    ensures
        ({
            let after = with_event(board, at_ms, msg);
            let n = board.events.len() as int;
            &&& after.events.last() == (at_ms, msg)
            &&& n < 50 ==> after.events.len() == n + 1 && (0 <= i < n ==> after.events[i]
                == board.events[i])
            &&& n == 50 ==> after.events.len() == 50 && (1 <= i < n ==> after.events[i - 1]
                == board.events[i])
            &&& after.ok == board.ok && after.err == board.err && after.roles == board.roles
                && after.series == board.series && after.seen_err == board.seen_err
        }),
{
}

} // verus!
