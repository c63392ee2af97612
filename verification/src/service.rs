//! The decisions of the `Coordinator` service: who may call what, what is asked of which shard,
//! and what a caller is told.

use vstd::prelude::*;
use vstd::string::*;

use crate::agg::{merge_partials, reported, Folded};
use crate::auth::{verdict, Auth, AuthCode, AuthError, Scope};
use crate::control::{Command, ControlPlane, ProposeError};
use crate::double::Double;
use crate::fanout::{
    accounts_for, all_hits, build_manifest, freshest, is_page, merge_fanout, total_of, Fanout,
};
use crate::filter::{names_first_fault, validate, well_shaped, FilterError};
use crate::registry::{
    addresses_of, has_leader, leads, lists_node, members_in, next_version, reassign_refusal,
    reassignable, registered, registration_message, role_of, shows_all, takes_over, with_leader,
    with_marker, Member, Registry,
};
use crate::text::{decimal, decimal_of, owned, texts};
use crate::wire::{
    AggKind, AggregateResponse, Digest, Filter, NodeRole, NodeState, OmittedShard,
    RegisterNodeRequest, RegisterNodeResponse, SearchHit, SearchResponse,
};

verus! {

/// The kind of a failed call.
#[derive(Clone, Copy, Debug, PartialEq, Eq, Structural)]
pub enum Code {
    Unauthenticated,
    PermissionDenied,
    InvalidArgument,
    Unavailable,
}

/// Why a query is refused before any shard is asked.
#[derive(Debug, PartialEq)]
pub enum Refusal {
    /// The caller's token does not allow it.
    Token(AuthError),
    /// The filter makes no sense.
    BadFilter(FilterError),
}

impl Refusal {
    /// The kind of the refusal.
    pub open spec fn spec_code(self) -> Code {
        match self {
            Refusal::Token(error) => match error.spec_code() {
                AuthCode::Unauthenticated => Code::Unauthenticated,
                AuthCode::PermissionDenied => Code::PermissionDenied,
            },
            Refusal::BadFilter(_) => Code::InvalidArgument,
        }
    }

    /// The kind of the refusal.
    pub fn code(&self) -> (code: Code)
        ensures
            code == self.spec_code(),
    {
        match self {
            Refusal::Token(error) => match error.code() {
                AuthCode::Unauthenticated => Code::Unauthenticated,
                AuthCode::PermissionDenied => Code::PermissionDenied,
            },
            Refusal::BadFilter(_) => Code::InvalidArgument,
        }
    }

    /// The text of the refusal, where `min` and `max` are the texts of an empty range's bounds.
    pub fn message(&self, min: &str, max: &str) -> (text: String)
        ensures
            text@ == match *self {
                Refusal::Token(error) => error.spec_message(),
                Refusal::BadFilter(error) => error.spec_message(min@, max@),
            },
    {
        match self {
            Refusal::Token(error) => error.message(),
            Refusal::BadFilter(error) => error.message(min, max),
        }
    }
}

/// What a query asks of the cluster: the leaders, under which placement.
#[derive(Debug, PartialEq)]
pub struct QueryPlan {
    pub leaders: Vec<String>,
    pub placement_version: u64,
}

impl QueryPlan {
    /// How many shards are asked.
    pub fn shards_queried(&self) -> (count: u32)
        ensures
            count == self.leaders@.len() as u32,
    {
        self.leaders.len() as u32
    }

    /// The answer to a search or a vector search, from what the leaders answered.
    pub fn finish_search(&self, fanout: Fanout, limit: u32, elapsed_ms: u64) -> (merged:
        SearchResponse)
        requires
            total_of(fanout.responses@) <= u64::MAX,
        ensures
            is_page(merged.hits@, freshest(all_hits(fanout.responses@)), limit as int),
            merged.total_matched == total_of(fanout.responses@),
            merged.shard_id@ == "coordinator"@,
            merged.shards_queried == self.leaders@.len() as u32,
            merged.shards_answered == fanout.responses@.len() as u32,
            merged.manifest matches Some(m) && m.omitted == fanout.omitted && accounts_for(
                m,
                merged.hits@,
                fanout.responses@,
                self.leaders@.len() as u32,
                self.placement_version,
                elapsed_ms,
            ),
    {
        merge_fanout(
            fanout,
            limit as usize,
            self.shards_queried(),
            self.placement_version,
            elapsed_ms,
        )
    }

    /// The answer to an aggregation, from the merged partials of the shards that answered. It
    /// carries the same coverage as a search does: partial coverage means that the aggregate
    /// covers only the shards that answered.
    pub fn finish_aggregate(
        &self,
        kind: AggKind,
        folded: Folded,
        shards_answered: u32,
        omitted: Vec<OmittedShard>,
        sketch: Digest,
        has_data: bool,
        requested: &Vec<Double>,
        values: &Vec<Double>,
        elapsed_ms: u64,
    ) -> (response: AggregateResponse)
        requires
            requested@.len() == values@.len(),
        ensures
            response.partial matches Some(partial) && {
                &&& partial.kind == kind
                &&& partial.count == folded.count
                &&& partial.buckets == folded.buckets
                &&& partial.digest == if kind == AggKind::Percentiles {
                    Some(sketch)
                } else {
                    None
                }
            },
            response.percentiles@ == reported(kind, has_data, requested@, values@),
            response.manifest matches Some(m) && {
                &&& m.shards_queried == self.leaders@.len() as u32
                &&& m.shards_answered == shards_answered
                &&& m.omitted == omitted
                &&& m.deduped == 0
                &&& m.placement_version == self.placement_version
                &&& m.elapsed_ms == elapsed_ms
                &&& m.freshest_observed_at == 0
                &&& m.stalest_observed_at == 0
            },
    {
        let (partial, percentiles) = merge_partials(
            kind,
            folded,
            sketch,
            has_data,
            requested,
            values,
        );
        let no_hits: Vec<SearchHit> = Vec::new();
        let manifest = build_manifest(
            &no_hits,
            self.shards_queried(),
            shards_answered,
            omitted,
            0,
            self.placement_version,
            elapsed_ms,
        );
        AggregateResponse { partial: Some(partial), percentiles, manifest: Some(manifest) }
    }
}

/// The answer to a heartbeat: whether the node is known, and the role it now holds.
#[derive(Clone, Copy, Debug, PartialEq, Eq, Structural)]
pub struct HeartbeatResponse {
    pub known: bool,
    pub current_role: NodeRole,
}

/// The cluster as the coordinator sees it.
#[derive(Debug, PartialEq)]
pub struct ClusterState {
    pub shard_count: u32,
    pub nodes: Vec<NodeState>,
    pub vshard_group: Vec<u32>,
}

/// The answer to an operator's change: whether it was made, and what to tell the operator.
#[derive(Debug, PartialEq)]
pub struct ChangeResponse {
    pub ok: bool,
    pub message: String,
}

/// What an operator's call leads to.
#[derive(Debug, PartialEq)]
pub enum Change {
    /// The answer is known.
    Done(ChangeResponse),
    /// The command is to be committed through the state group; `finish_drain` or
    /// `finish_reassign` then says what to answer.
    Propose(Command),
}

/// What follows a proposal to the state group.
#[derive(Debug, PartialEq)]
pub enum Finish {
    /// Tell the caller.
    Answer(ChangeResponse),
    /// Send the whole call, with the caller's credential, to the leader at this address.
    Forward(String),
    /// Fail the call as unavailable, with this message.
    Unavailable(String),
}

/// What is told of a node that was marked draining.
pub open spec fn drained_text(node_id: Seq<char>) -> Seq<char> {
    "'"@ + node_id + "' marked draining; its group leader will remove it"@
}

/// What is told of a node that nobody knows.
pub open spec fn unknown_text(node_id: Seq<char>) -> Seq<char> {
    "unknown node '"@ + node_id + "'"@
}

/// What is told of a virtual shard that moved.
pub open spec fn moved_text(vshard: u32, group: u32) -> Seq<char> {
    "vshard "@ + decimal_of(vshard as nat) + " -> group "@ + decimal_of(group as nat)
}

fn drained(node_id: &str) -> (response: ChangeResponse)
    ensures
        response.ok,
        response.message@ == drained_text(node_id@),
{
    let mut message = owned("'");
    message.append(node_id);
    message.append("' marked draining; its group leader will remove it");
    ChangeResponse { ok: true, message }
}

fn unknown(node_id: &str) -> (response: ChangeResponse)
    ensures
        !response.ok,
        response.message@ == unknown_text(node_id@),
{
    let mut message = owned("unknown node '");
    message.append(node_id);
    message.append("'");
    ChangeResponse { ok: false, message }
}

fn moved(vshard: u32, group: u32) -> (response: ChangeResponse)
    ensures
        response.ok,
        response.message@ == moved_text(vshard, group),
{
    let mut message = owned("vshard ");
    message.append(decimal(vshard as u64).as_str());
    message.append(" -> group ");
    message.append(decimal(group as u64).as_str());
    ChangeResponse { ok: true, message }
}

/// What a proposal leads to, where `done` is told once the command is committed.
pub open spec fn concludes(
    finish: Finish,
    outcome: Result<(), ProposeError>,
    done: Seq<char>,
) -> bool {
    match (outcome, finish) {
        (Ok(()), Finish::Answer(response)) => response.ok && response.message@ == done,
        (Err(ProposeError::Leader(addr)), Finish::Forward(to)) => to == addr,
        (Err(ProposeError::Unavailable(error)), Finish::Unavailable(message)) => message == error,
        _ => false,
    }
}

fn conclude(outcome: Result<(), ProposeError>, done: ChangeResponse) -> (finish: Finish)
    requires
        done.ok,
    ensures
        concludes(finish, outcome, done.message@),
{
    match outcome {
        Ok(()) => Finish::Answer(done),
        Err(ProposeError::Leader(addr)) => Finish::Forward(addr),
        Err(ProposeError::Unavailable(error)) => Finish::Unavailable(error),
    }
}

/// What follows a proposal to mark a node draining.
pub fn finish_drain(node_id: &str, outcome: Result<(), ProposeError>) -> (finish: Finish)
    ensures
        concludes(finish, outcome, drained_text(node_id@)),
{
    conclude(outcome, drained(node_id))
}

/// What follows a proposal to move a virtual shard.
pub fn finish_reassign(vshard: u32, group: u32, outcome: Result<(), ProposeError>) -> (finish:
    Finish)
    ensures
        concludes(finish, outcome, moved_text(vshard, group)),
{
    conclude(outcome, moved(vshard, group))
}

/// The message for a leader of the state group that could not be reached.
pub fn leader_unreachable(addr: &str, error: &str) -> (message: String)
    ensures
        message@ == "control leader at "@ + addr@ + " unreachable: "@ + error@,
{
    let mut message = owned("control leader at ");
    message.append(addr);
    message.append(" unreachable: ");
    message.append(error);
    message
}

/// The coordinator over its registry. In a state group the operator's changes are committed
/// through the group; alone, the coordinator makes them itself.
pub struct CoordinatorService {
    registry: Registry,
    control: Option<ControlPlane>,
    auth: Auth,
}

/// The header of a request as text, if there is one.
pub open spec fn header_text(authorization: Option<&str>) -> Option<Seq<char>> {
    match authorization {
        Some(header) => Some(header@),
        None => None,
    }
}

/// Whether `response` and `after` come of a node that registers at `now`: as the registry takes
/// it, and whoever is taken has been heard.
pub open spec fn joins(
    before: Registry,
    req: RegisterNodeRequest,
    now: u64,
    response: RegisterNodeResponse,
    after: Registry,
) -> bool {
    let role = NodeRole::spec_from_wire(req.role);
    &&& response.message@ == registration_message(req, before.spec_shard_count())
    &&& response.cluster_size == before.spec_shard_count()
    &&& response.accepted <==> req.shard_id < before.spec_shard_count() && role
        != NodeRole::Unspecified
    &&& after.leaders() == if response.accepted && role == NodeRole::Leader {
        with_leader(before.leaders(), registered(req))
    } else {
        before.leaders()
    }
    &&& after.followers() == if response.accepted && role == NodeRole::Follower {
        before.followers().push(registered(req))
    } else {
        before.followers()
    }
    &&& after.seen() == if response.accepted {
        before.seen().insert(req.node_id@, now)
    } else {
        before.seen()
    }
    &&& after.spec_shard_count() == before.spec_shard_count()
    &&& after.vshards() == before.vshards()
    &&& after.draining() == before.draining()
    &&& after.spec_placement_version() == before.spec_placement_version()
}

/// Whether `answer` and `after` come of a node that reports at `now`: a listed one has been heard,
/// and one that its raft group elected leads its shard from now on.
pub open spec fn hears(
    before: Registry,
    node_id: Seq<char>,
    raft_leader: bool,
    now: u64,
    answer: (HeartbeatResponse, Option<u32>),
    after: Registry,
) -> bool {
    let role = role_of(before, node_id);
    &&& answer.0.known == (role is Some)
    &&& answer.0.current_role == match role {
        None => NodeRole::Unspecified,
        Some(held) => if raft_leader {
            NodeRole::Leader
        } else {
            held
        },
    }
    &&& answer.1 is Some <==> raft_leader && role == Some(NodeRole::Follower)
    &&& after.seen() == if role is Some {
        before.seen().insert(node_id, now)
    } else {
        before.seen()
    }
    &&& after.spec_shard_count() == before.spec_shard_count()
    &&& after.vshards() == before.vshards()
    &&& after.draining() == before.draining()
    &&& after.spec_placement_version() == before.spec_placement_version()
    &&& answer.1 is None ==> after.leaders() == before.leaders() && after.followers()
        == before.followers()
    &&& answer.1 matches Some(id) ==> takes_over(
        node_id,
        id,
        before.leaders(),
        before.followers(),
        after.leaders(),
        after.followers(),
    )
}

impl CoordinatorService {
    /// The registry of the cluster.
    pub closed spec fn spec_registry(self) -> Registry {
        self.registry
    }

    /// The state group that this coordinator is a replica of, if any.
    pub closed spec fn control(self) -> Option<ControlPlane> {
        self.control
    }

    /// The token policy.
    pub closed spec fn auth(self) -> Auth {
        self.auth
    }

    /// What every call keeps.
    pub open spec fn well_formed(self) -> bool {
        self.spec_registry().well_formed()
    }

    /// What the token policy decides for a request.
    pub open spec fn admits(self, authorization: Option<&str>, needed: Scope) -> Result<
        (),
        AuthError,
    > {
        verdict(
            self.auth().spec_enabled(),
            self.auth().tokens(),
            header_text(authorization),
            needed,
        )
    }

    /// Whether `result` answers a caller who asks for the state of the cluster: readers and
    /// operators are shown every node and the placement, others are refused.
    pub open spec fn tells_state(
        self,
        authorization: Option<&str>,
        now: u64,
        result: Result<ClusterState, AuthError>,
    ) -> bool {
        match (self.admits(authorization, Scope::Read), result) {
            (Ok(()), Ok(state)) => {
                &&& state.shard_count == self.spec_registry().spec_shard_count()
                &&& shows_all(
                    state.nodes@,
                    self.spec_registry().leaders() + self.spec_registry().followers(),
                    self.spec_registry(),
                    now,
                )
                &&& state.vshard_group@ == self.spec_registry().vshards()
            },
            (Err(refusal), Err(error)) => error == refusal,
            _ => false,
        }
    }

    /// Whether `result` plans a query: for readers and operators with a filter that makes sense,
    /// over every leader.
    pub open spec fn plans(
        self,
        authorization: Option<&str>,
        filter: Option<&Filter>,
        result: Result<QueryPlan, Refusal>,
    ) -> bool {
        match (self.admits(authorization, Scope::Read), result) {
            (Err(refusal), Err(Refusal::Token(error))) => error == refusal,
            (Ok(()), Err(Refusal::BadFilter(error))) => filter matches Some(f) && !well_shaped(*f)
                && names_first_fault(error, *f),
            (Ok(()), Ok(plan)) => {
                &&& filter matches Some(f) ==> well_shaped(*f)
                &&& texts(plan.leaders@) == addresses_of(self.spec_registry().leaders())
                &&& plan.placement_version == self.spec_registry().spec_placement_version()
            },
            _ => false,
        }
    }

    /// Whether `result` and `after` answer an operator who drains a node: without a state group
    /// the node is marked at once, with one the command is proposed.
    pub open spec fn drains(
        self,
        authorization: Option<&str>,
        node_id: Seq<char>,
        result: Result<Change, AuthError>,
        after: CoordinatorService,
    ) -> bool {
        &&& after.control() == self.control()
        &&& after.auth() == self.auth()
        &&& after.spec_registry().same_view(self.spec_registry())
        &&& after.spec_registry().vshards() == self.spec_registry().vshards()
        &&& after.spec_registry().spec_placement_version()
            == self.spec_registry().spec_placement_version()
        &&& after.spec_registry().draining() == if result is Ok && self.control() is None
            && self.spec_registry().knows(node_id) {
            with_marker(self.spec_registry().draining(), node_id)
        } else {
            self.spec_registry().draining()
        }
        &&& match (self.admits(authorization, Scope::Operator), result) {
            (Err(refusal), Err(error)) => error == refusal,
            (Ok(()), Ok(Change::Done(response))) => if self.spec_registry().knows(node_id) {
                self.control() is None && response.ok && response.message@ == drained_text(node_id)
            } else {
                !response.ok && response.message@ == unknown_text(node_id)
            },
            (Ok(()), Ok(Change::Propose(command))) => {
                &&& self.control() is Some
                &&& self.spec_registry().knows(node_id)
                &&& command matches Command::DrainNode { node_id: id } && id@ == node_id
            },
            _ => false,
        }
    }

    /// Whether `result` and `after` answer an operator who moves a virtual shard to a group:
    /// without a state group it is moved at once, with one the command is proposed.
    pub open spec fn moves(
        self,
        authorization: Option<&str>,
        vshard: u32,
        group: u32,
        result: Result<Change, AuthError>,
        after: CoordinatorService,
    ) -> bool {
        let moved = result is Ok && self.control() is None && reassignable(
            self.spec_registry(),
            vshard,
            group,
        );
        &&& after.control() == self.control()
        &&& after.auth() == self.auth()
        &&& after.spec_registry().same_view(self.spec_registry())
        &&& after.spec_registry().draining() == self.spec_registry().draining()
        &&& after.spec_registry().vshards() == if moved {
            self.spec_registry().vshards().update(vshard as int, group)
        } else {
            self.spec_registry().vshards()
        }
        &&& after.spec_registry().spec_placement_version() == if moved {
            next_version(self.spec_registry().spec_placement_version())
        } else {
            self.spec_registry().spec_placement_version()
        }
        &&& match (self.admits(authorization, Scope::Operator), result) {
            (Err(refusal), Err(error)) => error == refusal,
            (Ok(()), Ok(Change::Done(response))) => if reassignable(
                self.spec_registry(),
                vshard,
                group,
            ) {
                self.control() is None && response.ok && response.message@ == moved_text(
                    vshard,
                    group,
                )
            } else {
                !response.ok && response.message@ == reassign_refusal(
                    self.spec_registry(),
                    vshard,
                    group,
                )
            },
            (Ok(()), Ok(Change::Propose(command))) => {
                &&& self.control() is Some
                &&& reassignable(self.spec_registry(), vshard, group)
                &&& command == Command::ReassignVShard { vshard, group }
            },
            _ => false,
        }
    }

    /// A coordinator on its own, with checks switched off.
    pub fn new(registry: Registry) -> (service: Self)
        ensures
            service.spec_registry() == registry,
            service.control() is None,
            !service.auth().spec_enabled(),
    {
        CoordinatorService { registry, control: None, auth: Auth::default() }
    }

    /// A coordinator that is a replica of a state group, with checks switched off.
    pub fn with_control(registry: Registry, control: ControlPlane) -> (service: Self)
        ensures
            service.spec_registry() == registry,
            service.control() == Some(control),
            !service.auth().spec_enabled(),
    {
        CoordinatorService { registry, control: Some(control), auth: Auth::default() }
    }

    /// The coordinator with a token policy.
    pub fn with_auth(self, auth: Auth) -> (service: Self)
        ensures
            service.spec_registry() == self.spec_registry(),
            service.control() == self.control(),
            service.auth() == auth,
    {
        CoordinatorService { registry: self.registry, control: self.control, auth }
    }

    /// The registry.
    pub fn registry(&self) -> (registry: &Registry)
        ensures
            *registry == self.spec_registry(),
    {
        &self.registry
    }

    /// Put another registry in the place of the current one, which is returned.
    pub fn replace_registry(&mut self, registry: Registry) -> (former: Registry)
        ensures
            final(self).spec_registry() == registry,
            final(self).control() == old(self).control(),
            final(self).auth() == old(self).auth(),
            former == old(self).spec_registry(),
    {
        let mut former = registry;
        std::mem::swap(&mut self.registry, &mut former);
        former
    }

    /// A node registers; one that is accepted counts as heard from.
    pub fn register_node(&mut self, req: RegisterNodeRequest, now: u64) -> (response:
        RegisterNodeResponse)
        requires
            old(self).well_formed(),
        ensures
            final(self).well_formed(),
            final(self).control() == old(self).control(),
            final(self).auth() == old(self).auth(),
            joins(
                old(self).spec_registry(),
                req,
                now,
                response,
                final(self).spec_registry(),
            ),
    {
        let node_id = req.node_id.clone();
        let response = self.registry.register(req);
        if response.accepted {
            proof {
                let member = registered(req);
                let leaders = self.registry.leaders();
                let followers = self.registry.followers();
                if member.node.role == NodeRole::Leader {
                    lemma_with_leader_lists(old(self).spec_registry().leaders(), member);
                } else {
                    assert(followers[followers.len() - 1] == member);
                }
            }
            let _ = self.registry.heartbeat(node_id.as_str(), now);
        }
        response
    }

    /// The addresses of a shard's followers.
    pub fn list_replicas(&self, shard_id: u32) -> (addresses: Vec<String>)
        ensures
            texts(addresses@) == addresses_of(
                members_in(self.spec_registry().followers(), shard_id),
            ),
    {
        self.registry.follower_addresses(shard_id)
    }

    /// A node reports that it is alive, and whether its raft group elected it. An elected leader
    /// takes over the routing of its shard, which is returned where it changed: raft did the
    /// arbitration.
    pub fn heartbeat(&mut self, node_id: &str, raft_leader: bool, now: u64) -> (answer: (
        HeartbeatResponse,
        Option<u32>,
    ))
        requires
            old(self).well_formed(),
        ensures
            final(self).well_formed(),
            final(self).control() == old(self).control(),
            final(self).auth() == old(self).auth(),
            hears(
                old(self).spec_registry(),
                node_id@,
                raft_leader,
                now,
                answer,
                final(self).spec_registry(),
            ),
    {
        match self.registry.heartbeat(node_id, now) {
            None => (
                HeartbeatResponse { known: false, current_role: NodeRole::Unspecified },
                None,
            ),
            Some(role) => {
                if raft_leader {
                    let shard = self.registry.report_raft_leader(node_id);
                    (HeartbeatResponse { known: true, current_role: NodeRole::Leader }, shard)
                } else {
                    (HeartbeatResponse { known: true, current_role: role }, None)
                }
            },
        }
    }

    /// The members of a shard.
    pub fn list_shard_members(&self, shard_id: u32, now: u64) -> (members: Vec<NodeState>)
        ensures
            shows_all(
                members@,
                members_in(self.spec_registry().leaders(), shard_id) + members_in(
                    self.spec_registry().followers(),
                    shard_id,
                ),
                self.spec_registry(),
                now,
            ),
    {
        self.registry.members_of(shard_id, now)
    }

    /// The group of each virtual shard.
    pub fn get_v_shard_assignments(&self) -> (table: Vec<u32>)
        ensures
            table@ == self.spec_registry().vshards(),
    {
        self.registry.vshard_assignments()
    }

    /// The whole cluster, for a caller that may read.
    pub fn get_cluster_state(&self, authorization: Option<&str>, now: u64) -> (result: Result<
        ClusterState,
        AuthError,
    >)
        ensures
            self.tells_state(authorization, now, result),
    {
        match self.auth.require(authorization, Scope::Read) {
            Err(error) => Err(error),
            Ok(()) => Ok(
                ClusterState {
                    shard_count: self.registry.shard_count(),
                    nodes: self.registry.snapshot(now),
                    vshard_group: self.registry.vshard_assignments(),
                },
            ),
        }
    }

    /// What a search, a vector search or an aggregation asks of the cluster: the current leaders,
    /// for a caller that may read and a filter that makes sense.
    pub fn plan_query(&self, authorization: Option<&str>, filter: Option<&Filter>) -> (result:
        Result<QueryPlan, Refusal>)
        ensures
            self.plans(authorization, filter, result),
    {
        match self.auth.require(authorization, Scope::Read) {
            Err(error) => {
                return Err(Refusal::Token(error));
            },
            Ok(()) => {},
        }
        match filter {
            Some(f) => match validate(f) {
                Err(error) => {
                    return Err(Refusal::BadFilter(error));
                },
                Ok(()) => {},
            },
            None => {},
        }
        Ok(
            QueryPlan {
                leaders: self.registry.leader_addresses(),
                placement_version: self.registry.placement_version(),
            },
        )
    }

    /// Mark a node draining, for an operator. A replica of a state group checks that its own view
    /// knows the node, and proposes the marker, so that it survives this coordinator; a
    /// coordinator on its own marks the node itself.
    pub fn drain_node(&mut self, authorization: Option<&str>, node_id: &str) -> (result: Result<
        Change,
        AuthError,
    >)
        ensures
            old(self).drains(authorization, node_id@, result, *final(self)),
    {
        match self.auth.require(authorization, Scope::Operator) {
            Err(error) => {
                return Err(error);
            },
            Ok(()) => {},
        }
        if self.control.is_some() {
            if !self.registry.knows_node(node_id) {
                return Ok(Change::Done(unknown(node_id)));
            }
            return Ok(Change::Propose(Command::DrainNode { node_id: owned(node_id) }));
        }
        if self.registry.mark_draining(node_id) {
            Ok(Change::Done(drained(node_id)))
        } else {
            Ok(Change::Done(unknown(node_id)))
        }
    }

    /// Move a virtual shard to another group, for an operator. A replica of a state group checks
    /// the request against the table, which is the same on every replica, and proposes the move;
    /// a coordinator on its own makes it.
    pub fn reassign_v_shard(&mut self, authorization: Option<&str>, vshard: u32, group: u32) -> (
    result: Result<Change, AuthError>)
        ensures
            old(self).moves(authorization, vshard, group, result, *final(self)),
    {
        match self.auth.require(authorization, Scope::Operator) {
            Err(error) => {
                return Err(error);
            },
            Ok(()) => {},
        }
        if self.control.is_some() {
            return match self.registry.validate_reassign(vshard, group) {
                Err(message) => Ok(Change::Done(ChangeResponse { ok: false, message })),
                Ok(()) => Ok(Change::Propose(Command::ReassignVShard { vshard, group })),
            };
        }
        match self.registry.reassign_vshard(vshard, group) {
            Ok(()) => Ok(Change::Done(moved(vshard, group))),
            Err(message) => Ok(Change::Done(ChangeResponse { ok: false, message })),
        }
    }
}

proof fn lemma_with_leader_lists(leaders: Seq<Member>, member: Member)
    ensures
        lists_node(with_leader(leaders, member), member.node.node_id@),
{
    let after = with_leader(leaders, member);
    if has_leader(leaders, member.shard_id) {
        let at = choose|at: int| leads(leaders, member.shard_id, at);
        assert(after[at] == member);
    } else {
        assert(after[leaders.len() as int] == member);
    }
}

/// A refused call tells the caller why: who did not say who they are is unauthenticated, who may
/// not is denied, and a filter that makes no sense is an invalid argument.
pub proof fn law_refusals_carry_their_code(refusal: Refusal)
    ensures
        refusal.spec_code() == Code::Unauthenticated <==> refusal == Refusal::Token(
            AuthError::MissingToken,
        ) || refusal == Refusal::Token(AuthError::UnknownToken),
        refusal.spec_code() == Code::PermissionDenied <==> (refusal matches Refusal::Token(
            AuthError::ScopeRequired(_),
        )),
        refusal.spec_code() == Code::InvalidArgument <==> refusal is BadFilter,
        refusal.spec_code() != Code::Unavailable,
{
}

/// A committed change is answered as done, one that another replica must take is sent there, and
/// one that cannot be committed is told as unavailable.
pub proof fn law_changes_end_as_they_were_committed(
    finish: Finish,
    outcome: Result<(), ProposeError>,
    done: Seq<char>,
)
    requires
        concludes(finish, outcome, done),
    ensures
        outcome is Ok ==> (finish matches Finish::Answer(response) && response.ok
            && response.message@ == done),
        outcome matches Err(ProposeError::Leader(addr)) ==> finish == Finish::Forward(addr),
        outcome matches Err(ProposeError::Unavailable(error)) ==> finish == Finish::Unavailable(
            error,
        ),
        finish is Answer ==> outcome is Ok,
{
}

/// A reader's token opens no change: with it neither a node is drained nor a virtual shard moved,
/// whatever the call names, and the caller is told which scope it takes.
pub proof fn law_readers_change_nothing(
    service: CoordinatorService,
    after: CoordinatorService,
    header: &str,
    token: Seq<char>,
    node_id: Seq<char>,
    vshard: u32,
    group: u32,
    result: Result<Change, AuthError>,
)
    requires
        service.auth().spec_enabled(),
        header@ == "Bearer "@ + token,
        service.auth().tokens().contains_key(token),
        service.auth().tokens()[token] == Scope::Read,
        service.drains(Some(header), node_id, result, after) || service.moves(
            Some(header),
            vshard,
            group,
            result,
            after,
        ),
    ensures
        result == Err::<Change, AuthError>(AuthError::ScopeRequired(Scope::Operator)),
        after.spec_registry().draining() == service.spec_registry().draining(),
        after.spec_registry().vshards() == service.spec_registry().vshards(),
        after.spec_registry().spec_placement_version()
            == service.spec_registry().spec_placement_version(),
{
    crate::auth::law_a_token_opens_what_its_scope_covers(
        service.auth().tokens(),
        token,
        header@,
        Scope::Operator,
    );
}

/// Where tokens are asked for, a caller without a known one is shown nothing and changes nothing.
pub proof fn law_strangers_are_turned_away(
    service: CoordinatorService,
    after: CoordinatorService,
    header: &str,
    token: Seq<char>,
    node_id: Seq<char>,
    now: u64,
    filter: Option<&Filter>,
    plan: Result<QueryPlan, Refusal>,
    state: Result<ClusterState, AuthError>,
    change: Result<Change, AuthError>,
)
    requires
        service.auth().spec_enabled(),
        header@ == "Bearer "@ + token,
        !service.auth().tokens().contains_key(token),
    ensures
        service.plans(Some(header), filter, plan) ==> plan == Err::<QueryPlan, Refusal>(
            Refusal::Token(AuthError::UnknownToken),
        ),
        service.plans(None, filter, plan) ==> plan == Err::<QueryPlan, Refusal>(
            Refusal::Token(AuthError::MissingToken),
        ),
        service.tells_state(Some(header), now, state) ==> state == Err::<ClusterState, AuthError>(
            AuthError::UnknownToken,
        ),
        service.drains(Some(header), node_id, change, after) ==> change == Err::<
            Change,
            AuthError,
        >(AuthError::UnknownToken) && after.spec_registry().draining()
            == service.spec_registry().draining(),
{
    crate::auth::law_a_token_opens_what_its_scope_covers(
        service.auth().tokens(),
        token,
        header@,
        Scope::Read,
    );
    crate::auth::law_a_token_opens_what_its_scope_covers(
        service.auth().tokens(),
        token,
        header@,
        Scope::Operator,
    );
}

/// Where no state group has to agree, an operator's change takes effect at once: a known node is
/// marked, a virtual shard within range moved, and the answer says so. With a group the change is
/// proposed and nothing is touched yet.
pub proof fn law_operators_changes_take_effect(
    service: CoordinatorService,
    after: CoordinatorService,
    header: &str,
    token: Seq<char>,
    node_id: Seq<char>,
    vshard: u32,
    group: u32,
    result: Result<Change, AuthError>,
)
    requires
        service.auth().spec_enabled(),
        header@ == "Bearer "@ + token,
        service.auth().tokens().contains_key(token),
        service.auth().tokens()[token] == Scope::Operator,
    ensures
        service.drains(Some(header), node_id, result, after) ==> {
            let known = service.spec_registry().knows(node_id);
            &&& result is Ok
            &&& known && service.control() is None ==> after.spec_registry().draining().contains(
                node_id,
            ) && (result->Ok_0 matches Change::Done(response) && response.ok)
            &&& known && service.control() is Some ==> (result->Ok_0 matches Change::Propose(
                Command::DrainNode { node_id: id },
            ) && id@ == node_id) && after.spec_registry().draining()
                == service.spec_registry().draining()
            &&& !known ==> (result->Ok_0 matches Change::Done(response) && !response.ok)
                && after.spec_registry().draining() == service.spec_registry().draining()
        },
        service.moves(Some(header), vshard, group, result, after) ==> {
            let fits = vshard < service.spec_registry().vshards().len() && group
                < service.spec_registry().spec_shard_count();
            &&& result is Ok
            &&& fits && service.control() is None ==> after.spec_registry().vshards()[vshard as int]
                == group && (service.spec_registry().spec_placement_version() < u64::MAX
                ==> after.spec_registry().spec_placement_version()
                == service.spec_registry().spec_placement_version() + 1) && (
            result->Ok_0 matches Change::Done(response) && response.ok)
            &&& fits && service.control() is Some ==> result->Ok_0 == Change::Propose(
                Command::ReassignVShard { vshard, group },
            ) && after.spec_registry().vshards() == service.spec_registry().vshards()
            &&& !fits ==> (result->Ok_0 matches Change::Done(response) && !response.ok)
                && after.spec_registry().vshards() == service.spec_registry().vshards()
        },
{
    crate::auth::law_a_token_opens_what_its_scope_covers(
        service.auth().tokens(),
        token,
        header@,
        Scope::Operator,
    );
    crate::registry::law_a_drain_marker_sticks(
        service.spec_registry().draining(),
        node_id,
        node_id,
    );
}

/// A query goes to every leader, each at its own address.
pub proof fn law_queries_go_to_every_leader(
    service: CoordinatorService,
    authorization: Option<&str>,
    filter: Option<&Filter>,
    plan: QueryPlan,
    i: int,
)
    requires
        service.plans(authorization, filter, Ok(plan)),
        0 <= i < service.spec_registry().leaders().len(),
    ensures
        plan.leaders@.len() == service.spec_registry().leaders().len(),
        plan.leaders@[i]@ == service.spec_registry().leaders()[i].node.address@,
        plan.placement_version == service.spec_registry().spec_placement_version(),
        filter matches Some(f) ==> well_shaped(*f),
{
    let told = texts(plan.leaders@);
    assert(told.len() == plan.leaders@.len());
    assert(told.len() == addresses_of(service.spec_registry().leaders()).len());
    assert(told[i] == plan.leaders@[i]@);
}

/// Whoever joins has been heard: a sweep takes a new node out only once the timeout has passed
/// since it joined. Who is not taken leaves the registry as it was.
pub proof fn law_who_joins_has_been_heard(
    before: Registry,
    req: RegisterNodeRequest,
    now: u64,
    response: RegisterNodeResponse,
    after: Registry,
    later: u64,
    timeout: u64,
    member: Member,
)
    requires
        joins(before, req, now, response, after),
    ensures
        response.accepted ==> after.seen().contains_key(req.node_id@) && after.seen()[req.node_id@]
            == now,
        response.accepted && member.node.node_id == req.node_id && later <= now + timeout
            ==> !crate::registry::is_silent(after.seen(), member, later, timeout),
        !response.accepted ==> after.leaders() == before.leaders() && after.followers()
            == before.followers() && after.seen() == before.seen(),
        response.accepted <==> req.shard_id < before.spec_shard_count() && (req.role == 1
            || req.role == 2),
{
}

/// A report is answered with the role that the node holds after it: an unlisted node has none and
/// changes nothing, a node that was elected is a leader, and any other keeps its role. A listed
/// node has been heard at that time.
pub proof fn law_reports_are_answered_with_the_role(
    before: Registry,
    node_id: Seq<char>,
    raft_leader: bool,
    now: u64,
    answer: (HeartbeatResponse, Option<u32>),
    after: Registry,
)
    requires
        hears(before, node_id, raft_leader, now, answer, after),
    ensures
        answer.0.known <==> before.knows(node_id),
        !answer.0.known ==> answer.0.current_role == NodeRole::Unspecified && after.seen()
            == before.seen() && after.leaders() == before.leaders() && after.followers()
            == before.followers(),
        answer.0.known ==> after.seen().contains_key(node_id) && after.seen()[node_id] == now,
        answer.0.known && raft_leader ==> answer.0.current_role == NodeRole::Leader,
        answer.0.known && !raft_leader ==> Some(answer.0.current_role) == role_of(before, node_id)
            && after.leaders() == before.leaders() && after.followers() == before.followers(),
        answer.1 is Some <==> raft_leader && role_of(before, node_id) == Some(NodeRole::Follower),
{
}

} // verus!
