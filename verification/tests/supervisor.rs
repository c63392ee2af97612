use aether::supervisor::{Launch, Supervisor};

fn var<'a>(launch: &'a Launch, key: &str) -> &'a str {
    launch.env.iter().find(|(k, _)| k == key).map(|(_, v)| v.as_str()).unwrap_or("")
}

#[test]
fn the_initial_topology_is_a_leader_and_a_follower_per_shard() {
    let mut s = Supervisor::new(2, "127.0.0.1:50050".into());
    let launches = s.spawn_initial_topology();
    let names: Vec<&str> = launches.iter().map(|l| l.node_id.as_str()).collect();
    assert_eq!(names, vec!["shard0-leader", "shard0-f0", "shard1-leader", "shard1-f0"]);
    let ports: Vec<&str> = launches.iter().map(|l| var(l, "AETHER_SHARD_ADDR")).collect();
    assert_eq!(ports, vec!["127.0.0.1:50051", "127.0.0.1:50052", "127.0.0.1:50053", "127.0.0.1:50054"]);
    assert_eq!(launches[2].program, "shard-node");
    assert_eq!((var(&launches[2], "AETHER_ROLE"), var(&launches[3], "AETHER_ROLE")), ("leader", "follower"));
    assert_eq!(var(&launches[3], "AETHER_SHARD_INDEX"), "1");
    assert_eq!(var(&launches[3], "AETHER_SHARD_COUNT"), "2");
    assert_eq!(var(&launches[3], "AETHER_COORDINATOR_ADDR"), "127.0.0.1:50050");
    assert_eq!(var(&launches[3], "AETHER_NODE_ID"), "shard1-f0");
    assert_eq!((var(&launches[3], "AETHER_HEARTBEAT_SECS"), var(&launches[3], "AETHER_POLL_SECS")), ("2", "10"));

    let more = s.add_follower(1);
    assert_eq!((more.node_id.as_str(), var(&more, "AETHER_SHARD_ADDR")), ("shard1-f1", "127.0.0.1:50055"));
    assert_eq!(s.add_follower(0).node_id, "shard0-f2");
}

#[test]
fn the_coordinator_fails_over_snappily() {
    let c = Supervisor::new(3, "a:1".into()).spawn_coordinator();
    assert_eq!((c.node_id.as_str(), c.program.as_str()), ("coordinator", "coordinator"));
    assert_eq!(
        c.env,
        vec![
            ("AETHER_COORDINATOR_ADDR".to_string(), "a:1".to_string()),
            ("AETHER_SHARD_COUNT".to_string(), "3".to_string()),
            ("AETHER_LIVENESS_TIMEOUT_SECS".to_string(), "6".to_string()),
        ]
    );
}

#[test]
fn only_managed_processes_are_killed() {
    let mut s = Supervisor::new(1, "a:1".into());
    for name in ["x", "y", "z", "x"] {
        s.started(name);
    }
    assert_eq!(s.managed(), vec!["x", "y", "z"]);
    assert!(s.kill("y"));
    assert!(!s.kill("y"));
    assert_eq!(s.managed(), vec!["x", "z"]);
    assert!(s.manages("z") && !s.manages("y"));
    assert_eq!(s.kill_all(), vec!["x", "z"]);
    assert!(s.managed().is_empty());
    assert_eq!(s.coordinator_addr(), "a:1");
}

#[test]
fn no_two_nodes_share_a_port_or_a_name() {
    let mut s = Supervisor::new(40, "127.0.0.1:50050".into());
    let mut launches = s.spawn_initial_topology();
    launches.push(s.add_follower(3));
    launches.push(s.add_follower(3));
    for (i, a) in launches.iter().enumerate() {
        for b in &launches[..i] {
            assert_ne!(var(a, "AETHER_SHARD_ADDR"), var(b, "AETHER_SHARD_ADDR"));
            assert_ne!(a.node_id, b.node_id);
        }
    }
}
