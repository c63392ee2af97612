use aether::auth::{Auth, AuthCode, AuthError, Scope};
use aether::control::{Command, ControlPlane, ProposeError};
use aether::agg::fold_partials;
use aether::double::Double;
use aether::fanout::{scatter_gather, Attempt};
use aether::registry::Registry;
use aether::service::{
    finish_drain, finish_reassign, leader_unreachable, Change, Code, CoordinatorService, Finish,
    Refusal,
};
use aether::wire::{
    AggKind, AggregatePartial, Digest, Filter, FilterCondition, NodeRole, RegisterNodeRequest,
    SearchResponse, Test,
};

fn node(node_id: &str, shard_id: u32, role: i32) -> RegisterNodeRequest {
    RegisterNodeRequest { node_id: node_id.into(), address: format!("{node_id}:1"), shard_id, role }
}

fn service() -> CoordinatorService {
    let mut s = CoordinatorService::new(Registry::new(2).with_vshards(4));
    assert!(s.register_node(node("l0", 0, 1), 100).accepted);
    assert!(s.register_node(node("l1", 1, 1), 100).accepted);
    assert!(s.register_node(node("f0", 0, 2), 100).accepted);
    s
}

fn guarded() -> CoordinatorService {
    service().with_auth(Auth::parse("read-token read\noperator-token operator\n").unwrap())
}

fn grouped() -> CoordinatorService {
    let control = ControlPlane::from_env(Some("1"), Some("1=a:1,2=b:2")).unwrap().unwrap();
    CoordinatorService::with_control(Registry::new(2).with_vshards(4), control)
}

#[test]
fn scopes_are_enforced_on_client_facing_calls() {
    let mut s = guarded();
    let read = Some("Bearer read-token");
    let operator = Some("Bearer operator-token");
    assert!(s.get_cluster_state(read, 0).is_ok(), "a read token reads the cluster state");
    assert!(s.plan_query(read, None).is_ok(), "a read token queries");
    let denied = s.drain_node(read, "l0").unwrap_err();
    assert_eq!(denied.code(), AuthCode::PermissionDenied, "a read token does not drain");
    assert!(!s.registry().is_draining("l0"));
    assert_eq!(s.reassign_v_shard(read, 0, 1), Err(AuthError::ScopeRequired(Scope::Operator)));

    // Authorization passes for an operator; the node just is not registered.
    let Ok(Change::Done(response)) = s.drain_node(operator, "n") else { panic!("refused") };
    assert_eq!((response.ok, response.message.as_str()), (false, "unknown node 'n'"));

    let refused = s.plan_query(None, None).unwrap_err();
    assert_eq!(refused.code(), Code::Unauthenticated);
    assert_eq!(refused.message("", ""), "missing bearer token");
    assert_eq!(s.get_cluster_state(Some("Bearer garbage"), 0).unwrap_err().code(), AuthCode::Unauthenticated);
}

#[test]
fn a_bad_filter_is_refused_before_any_shard_is_asked() {
    let bad = Filter {
        conditions: vec![FilterCondition {
            field: "altitude".into(),
            test: Some(Test::Equals("high".into())),
        }],
    };
    let refusal = service().plan_query(None, Some(&bad)).unwrap_err();
    assert_eq!(refusal.code(), Code::InvalidArgument);
    assert!(refusal.message("", "").contains("altitude"));
    assert!(matches!(refusal, Refusal::BadFilter(_)));
    let denied = guarded().plan_query(Some("Bearer nobody"), Some(&bad)).unwrap_err();
    assert!(matches!(denied, Refusal::Token(AuthError::UnknownToken)), "the token is checked first");
}

fn answer(total: u64) -> SearchResponse {
    SearchResponse {
        hits: vec![],
        total_matched: total,
        shard_id: "s".into(),
        shards_queried: 0,
        shards_answered: 0,
        manifest: None,
    }
}

#[test]
fn a_dead_shard_is_named_with_a_reason_in_the_manifest() {
    let s = service();
    let plan = s.plan_query(None, None).unwrap();
    assert_eq!(plan.leaders, vec!["l0:1", "l1:1"]);
    let fanout = scatter_gather(vec![
        ("l0:1".into(), Attempt::Answered(answer(3))),
        ("l1:1".into(), Attempt::Failed),
    ]);
    let merged = plan.finish_search(fanout, 10, 17);
    assert_eq!((merged.total_matched, merged.shards_queried, merged.shards_answered), (3, 2, 1));
    let m = merged.manifest.unwrap();
    assert_eq!((m.omitted[0].address.as_str(), m.omitted[0].reason.as_str()), ("l1:1", "unreachable"));
    assert_eq!(m.elapsed_ms, 17);
}

#[test]
fn an_aggregate_carries_its_coverage() {
    let plan = service().plan_query(None, None).unwrap();
    let partial = AggregatePartial {
        kind: AggKind::Count,
        count: 5,
        buckets: vec![],
        digest: None,
    };
    let response = plan.finish_aggregate(
        AggKind::Count,
        fold_partials(vec![partial]),
        1,
        vec![],
        Digest { centroid_mean: vec![], centroid_weight: vec![] },
        false,
        &vec![Double { bits: 0 }],
        &vec![Double { bits: 0 }],
        9,
    );
    assert_eq!(response.partial.unwrap().count, 5);
    let m = response.manifest.unwrap();
    assert_eq!((m.shards_queried, m.shards_answered, m.elapsed_ms), (2, 1, 9));
    assert_eq!((m.freshest_observed_at, m.deduped), (0, 0));
}

#[test]
fn a_heartbeat_tells_the_role_and_a_raft_leader_takes_the_shard_over() {
    let mut s = service();
    let (r, moved) = s.heartbeat("f0", false, 200);
    assert_eq!((r.known, r.current_role, moved), (true, NodeRole::Follower, None));
    let (r, moved) = s.heartbeat("f0", true, 300);
    assert_eq!((r.current_role, moved), (NodeRole::Leader, Some(0)));
    assert_eq!(s.list_replicas(0), vec!["l0:1"]);
    let (r, moved) = s.heartbeat("f0", true, 400);
    assert_eq!((r.current_role, moved), (NodeRole::Leader, None));
    let (r, _) = s.heartbeat("ghost", true, 400);
    assert_eq!((r.known, r.current_role), (false, NodeRole::Unspecified));
    assert_eq!(s.list_shard_members(0, 450)[0].millis_since_seen, 50);
}

#[test]
fn the_cluster_state_shows_every_node_and_the_placement() {
    let state = service().get_cluster_state(None, 150).unwrap();
    assert_eq!((state.shard_count, state.nodes.len()), (2, 3));
    assert_eq!(state.nodes[2].millis_since_seen, 50);
    assert_eq!(state.vshard_group, vec![0, 1, 0, 1]);
}

#[test]
fn a_coordinator_on_its_own_makes_changes_itself() {
    let mut s = service();
    let Ok(Change::Done(r)) = s.drain_node(None, "f0") else { panic!("not done") };
    assert_eq!((r.ok, r.message.as_str()), (true, "'f0' marked draining; its group leader will remove it"));
    assert!(s.registry().is_draining("f0"));
    let Ok(Change::Done(r)) = s.reassign_v_shard(None, 0, 1) else { panic!("not done") };
    assert_eq!((r.ok, r.message.as_str()), (true, "vshard 0 -> group 1"));
    assert_eq!(s.get_v_shard_assignments(), vec![1, 1, 0, 1]);
    let Ok(Change::Done(r)) = s.reassign_v_shard(None, 9, 1) else { panic!("not done") };
    assert_eq!((r.ok, r.message.as_str()), (false, "vshard 9 out of range for V=4"));
}

#[test]
fn a_replica_proposes_changes_to_its_group() {
    let mut s = grouped();
    let Ok(Change::Done(r)) = s.drain_node(None, "f0") else { panic!("not done") };
    assert!(!r.ok, "an unknown node is not proposed");
    s.register_node(node("f0", 0, 2), 1);
    assert_eq!(
        s.drain_node(None, "f0"),
        Ok(Change::Propose(Command::DrainNode { node_id: "f0".into() }))
    );
    assert!(!s.registry().is_draining("f0"), "nothing changes before the group commits");
    assert_eq!(
        s.reassign_v_shard(None, 0, 1),
        Ok(Change::Propose(Command::ReassignVShard { vshard: 0, group: 1 }))
    );
    assert_eq!(s.get_v_shard_assignments(), vec![0, 1, 0, 1]);
    let Ok(Change::Done(r)) = s.reassign_v_shard(None, 0, 5) else { panic!("not done") };
    assert_eq!(r.message, "group 5 out of range for N=2");
}

#[test]
fn what_follows_a_proposal_depends_on_its_outcome() {
    let Finish::Answer(r) = finish_drain("n", Ok(())) else { panic!("no answer") };
    assert_eq!((r.ok, r.message.as_str()), (true, "'n' marked draining; its group leader will remove it"));
    assert_eq!(finish_drain("n", Err(ProposeError::Leader("b:2".into()))), Finish::Forward("b:2".into()));
    assert_eq!(
        finish_reassign(1, 2, Err(ProposeError::Unavailable("down".into()))),
        Finish::Unavailable("down".into())
    );
    let Finish::Answer(r) = finish_reassign(1, 2, Ok(())) else { panic!("no answer") };
    assert_eq!(r.message, "vshard 1 -> group 2");
    assert_eq!(leader_unreachable("b:2", "refused"), "control leader at b:2 unreachable: refused");
}

#[test]
fn a_registry_can_be_lent_and_returned() {
    let mut s = service();
    let lent = s.replace_registry(Registry::new(0));
    assert_eq!(lent.leaders_registered(), 2);
    s.replace_registry(lent);
    assert_eq!(s.registry().leaders_registered(), 2);
}
