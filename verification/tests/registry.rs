use aether::registry::Registry;
use aether::wire::{NodeRole, RegisterNodeRequest};

fn wire(role: NodeRole) -> i32 {
    match role {
        NodeRole::Unspecified => 0,
        NodeRole::Leader => 1,
        NodeRole::Follower => 2,
    }
}

fn req(node_id: &str, shard_id: u32, role: NodeRole) -> RegisterNodeRequest {
    RegisterNodeRequest {
        node_id: node_id.to_string(),
        address: format!("127.0.0.1:600{shard_id}"),
        shard_id,
        role: wire(role),
    }
}

#[test]
fn accepts_leader_in_range_and_reports_n() {
    let mut reg = Registry::new(3);
    let resp = reg.register(req("n0", 0, NodeRole::Leader));
    assert!(resp.accepted);
    assert_eq!(resp.cluster_size, 3);
    assert_eq!(reg.leaders_registered(), 1);
    assert_eq!(resp.message, "registered shard 0 as Leader");
}

#[test]
fn rejects_shard_id_out_of_range() {
    let mut reg = Registry::new(3);
    let resp = reg.register(req("bad", 5, NodeRole::Leader));
    assert!(!resp.accepted);
    assert_eq!(resp.cluster_size, 3);
    assert_eq!(reg.leaders_registered(), 0);
    assert_eq!(resp.message, "shard_id 5 out of range for N=3");
}

#[test]
fn rejects_unspecified_role() {
    let mut reg = Registry::new(1);
    let resp = reg.register(req("n0", 0, NodeRole::Unspecified));
    assert!(!resp.accepted);
    assert_eq!(resp.message, "role unspecified");
}

#[test]
fn all_shards_have_leader_when_every_shard_led() {
    let mut reg = Registry::new(2);
    assert!(!reg.all_shards_have_leader());
    reg.register(req("n0", 0, NodeRole::Leader));
    reg.register(req("n1", 1, NodeRole::Leader));
    assert!(reg.all_shards_have_leader());
    assert_eq!(reg.leader_addresses().len(), 2);
}

#[test]
fn re_registering_a_shard_leader_replaces_it() {
    // Models failover: a promoted node re-registers as the shard's leader.
    let mut reg = Registry::new(1);
    reg.register(req("old", 0, NodeRole::Leader));
    let mut newer = req("new", 0, NodeRole::Leader);
    newer.address = "127.0.0.1:9999".to_string();
    reg.register(newer);
    assert_eq!(reg.leaders_registered(), 1);
    assert_eq!(reg.leader_addresses(), vec!["127.0.0.1:9999".to_string()]);
}

#[test]
fn followers_are_tracked_separately() {
    let mut reg = Registry::new(1);
    reg.register(req("leader", 0, NodeRole::Leader));
    reg.register(req("follower", 0, NodeRole::Follower));
    assert_eq!(reg.leaders_registered(), 1); // a follower is not a leader
}

#[test]
fn follower_addresses_lists_only_that_shards_followers() {
    let mut reg = Registry::new(2);
    let mut f0 = req("f0", 0, NodeRole::Follower);
    f0.address = "127.0.0.1:7000".to_string();
    reg.register(f0);
    let mut f1 = req("f1", 1, NodeRole::Follower);
    f1.address = "127.0.0.1:7001".to_string();
    reg.register(f1);

    assert_eq!(reg.follower_addresses(0), vec!["127.0.0.1:7000".to_string()]);
    assert_eq!(reg.follower_addresses(1), vec!["127.0.0.1:7001".to_string()]);
    assert!(reg.follower_addresses(0).len() == 1);
}

#[test]
fn a_silent_leader_is_reaped_and_its_follower_promoted() {
    let mut reg = Registry::new(2);
    for (id, shard, role) in [
        ("l0", 0, NodeRole::Leader),
        ("l1", 1, NodeRole::Leader),
        ("f0", 0, NodeRole::Follower),
        ("g0", 0, NodeRole::Follower),
    ] {
        reg.register(req(id, shard, role));
        reg.heartbeat(id, 1000);
    }
    for id in ["l1", "f0", "g0"] {
        reg.heartbeat(id, 20_000);
    }
    let removed = reg.reap_dead(20_000, 15_000);
    assert_eq!(removed.len(), 1);
    assert_eq!((removed[0].node_id.as_str(), removed[0].role), ("l0", NodeRole::Leader));
    assert!(!reg.all_shards_have_leader());
    assert_eq!(reg.promote_orphaned_shards(), vec![(0, "f0".to_string())]);
    assert!(reg.all_shards_have_leader());
    assert_eq!(reg.follower_addresses(0).len(), 1);
    assert_eq!(reg.heartbeat("f0", 21_000), Some(NodeRole::Leader), "it learns of its promotion");
    assert!(reg.promote_orphaned_shards().is_empty());
}

#[test]
fn a_node_at_the_timeout_is_still_alive() {
    let mut reg = Registry::new(1);
    reg.register(req("l0", 0, NodeRole::Leader));
    reg.heartbeat("l0", 1000);
    assert!(reg.reap_dead(16_000, 15_000).is_empty());
    assert_eq!(reg.reap_dead(16_001, 15_000).len(), 1);
}

#[test]
fn a_raft_report_swaps_leader_and_follower() {
    let mut reg = Registry::new(1);
    reg.register(req("a", 0, NodeRole::Leader));
    reg.register(req("b", 0, NodeRole::Follower));
    assert_eq!(reg.report_raft_leader("b"), Some(0));
    assert_eq!(reg.heartbeat("b", 1), Some(NodeRole::Leader));
    assert_eq!(reg.heartbeat("a", 1), Some(NodeRole::Follower));
    assert_eq!(reg.report_raft_leader("b"), None, "it already leads");
    assert_eq!(reg.report_raft_leader("ghost"), None);
}

#[test]
fn placement_moves_within_the_table_only() {
    let mut reg = Registry::new(2).with_vshards(5);
    assert_eq!(reg.vshard_assignments(), vec![0, 1, 0, 1, 0]);
    let before = reg.placement_version();
    assert_eq!(reg.reassign_vshard(0, 1), Ok(()));
    assert_eq!(reg.vshard_assignments(), vec![1, 1, 0, 1, 0]);
    assert_eq!(reg.placement_version(), before + 1);
    assert_eq!(reg.reassign_vshard(5, 0), Err("vshard 5 out of range for V=5".to_string()));
    assert_eq!(reg.reassign_vshard(1, 2), Err("group 2 out of range for N=2".to_string()));
    assert_eq!(reg.placement_version(), before + 1);
}

#[test]
fn drains_are_remembered_and_shown() {
    let mut reg = Registry::new(1);
    reg.register(req("a", 0, NodeRole::Leader));
    assert!(!reg.mark_draining("ghost"));
    assert!(reg.mark_draining("a"));
    assert!(reg.mark_draining("a"));
    reg.apply_drain_marker("elsewhere");
    assert_eq!(reg.authority().1, vec!["a".to_string(), "elsewhere".to_string()]);
    let shown = reg.snapshot(5);
    assert!(shown[0].draining && shown[0].millis_since_seen == 0);
    reg.set_authority(vec![0], vec![]);
    assert!(!reg.is_draining("a"));
    assert_eq!(reg.vshard_assignments(), vec![0]);
}

#[test]
fn members_of_a_shard_are_its_leader_and_its_followers() {
    let mut reg = Registry::new(2);
    reg.register(req("l1", 1, NodeRole::Leader));
    reg.register(req("f0", 0, NodeRole::Follower));
    reg.register(req("f1", 1, NodeRole::Follower));
    reg.heartbeat("f1", 10);
    let members = reg.members_of(1, 35);
    let names: Vec<&str> = members.iter().map(|m| m.node_id.as_str()).collect();
    assert_eq!(names, vec!["l1", "f1"]);
    assert_eq!(members[1].millis_since_seen, 25);
    assert_eq!(members[1].role, NodeRole::Follower);
}
