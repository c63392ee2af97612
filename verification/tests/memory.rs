use aether::memory::{MemoryStore, WriteError};

const HR: u64 = 3600;

#[test]
fn writes_are_attributed_and_recallable_within_a_namespace() {
    let mut m = MemoryStore::new(10);
    m.remember("agent-a", "user prefers metric units", "agent-a", HR, 1000).unwrap();
    m.remember("agent-a", "user is in Berlin", "agent-a", HR, 2000).unwrap();
    let hits = m.recall("agent-a", "units", 5, 3000);
    assert_eq!(hits.len(), 1);
    assert_eq!(hits[0].writer, "agent-a");
    assert!(hits[0].text.contains("metric"));
}

#[test]
fn namespaces_are_isolated() {
    let mut m = MemoryStore::new(10);
    m.remember("agent-a", "secret from a", "agent-a", HR, 1000).unwrap();
    m.remember("agent-b", "secret from b", "agent-b", HR, 1000).unwrap();
    // A recall in one namespace never sees the other's entries.
    let a = m.recall("agent-a", "secret", 5, 2000);
    assert_eq!(a.len(), 1);
    assert!(a[0].text.contains("from a"));
    assert_eq!(m.recall("agent-a", "", 0, 2000).len(), 1, "namespace a holds exactly its own");
}

#[test]
fn quota_rejection_is_loud_and_ttl_frees_it() {
    let mut m = MemoryStore::new(2);
    m.remember("ns", "one", "w", 1, 0).unwrap();
    m.remember("ns", "two", "w", 1, 0).unwrap();
    // The third write by the same writer is refused, with the quota named.
    let err = m.remember("ns", "three", "w", 1, 0).unwrap_err();
    assert_eq!(err, WriteError::QuotaExceeded { writer: "w".into(), quota: 2 });
    // A different writer has its own quota.
    assert!(m.remember("ns", "other", "w2", 1, 0).is_ok());
    // After the one-second lifetime the writer's entries expire, and the quota is free again.
    assert!(m.remember("ns", "later", "w", 1, 2000).is_ok(), "TTL should free the quota");
}

#[test]
fn ttl_expiry_removes_from_recall_and_sweep_counts_it() {
    let mut m = MemoryStore::new(10);
    m.remember("ns", "ephemeral", "w", 1, 0).unwrap(); // expires at 1000ms
    assert_eq!(m.recall("ns", "ephemeral", 5, 500).len(), 1, "live before TTL");
    assert_eq!(m.recall("ns", "ephemeral", 5, 1500).len(), 0, "gone after TTL");
    assert_eq!(m.sweep(1500), 1, "sweep evicts the expired entry");
    assert_eq!(m.len("ns", 1500), 0);
}

#[test]
fn malformed_writes_are_refused() {
    let mut m = MemoryStore::new(10);
    assert!(matches!(m.remember("", "t", "w", 0, 0), Err(WriteError::Malformed(_))));
    assert!(matches!(m.remember("ns", "", "w", 0, 0), Err(WriteError::Malformed(_))));
    assert!(matches!(m.remember("ns", "t", "", 0, 0), Err(WriteError::Malformed(_))));
}

#[test]
fn more_overlap_ranks_first_and_then_the_freshest() {
    let mut m = MemoryStore::new(10);
    m.remember("ns", "metric units", "w", 0, 1).unwrap();
    m.remember("ns", "metric units in Berlin", "w", 0, 2).unwrap();
    m.remember("ns", "BERLIN", "w", 0, 3).unwrap();
    let found = m.recall("ns", "metric berlin", 0, 10);
    let texts: Vec<&str> = found.iter().map(|e| e.text.as_str()).collect();
    assert_eq!(texts, vec!["metric units in Berlin", "BERLIN", "metric units"]);
    assert_eq!(m.recall("ns", "metric berlin", 2, 10).len(), 2);
    assert!(m.recall("elsewhere", "metric", 0, 10).is_empty());
}

#[test]
fn ids_are_handed_out_in_turn_and_a_lifetime_of_zero_never_ends() {
    let mut m = MemoryStore::new(10);
    assert_eq!(m.remember("a", "t", "w", 0, 0), Ok(0));
    assert_eq!(m.remember("b", "t", "w", 0, 0), Ok(1));
    assert_eq!(m.len("a", u64::MAX), 1);
    assert_eq!(m.sweep(u64::MAX), 0);
}

#[test]
fn the_end_of_a_lifetime_is_exclusive() {
    let mut m = MemoryStore::new(1);
    m.remember("ns", "t", "w", 1, 500).unwrap();
    assert_eq!(m.len("ns", 1499), 1);
    assert_eq!(m.len("ns", 1500), 0);
    assert!(m.remember("ns", "u", "w", 1, 1499).is_err());
    assert!(m.remember("ns", "u", "w", 1, 1500).is_ok());
}

#[test]
fn a_second_sweep_drops_nothing_and_recalls_stay_as_they_were() {
    let mut m = MemoryStore::new(10);
    m.remember("ns", "metric units", "w", 1, 0).unwrap();
    m.remember("ns", "metric system", "w", HR, 0).unwrap();
    m.remember("other", "metric", "w", 1, 0).unwrap();
    let recalled = |m: &MemoryStore| -> Vec<u64> {
        m.recall("ns", "metric", 0, 1500).iter().map(|e| e.id).collect()
    };
    let before = recalled(&m);
    assert_eq!(before, vec![1]);
    assert_eq!(m.sweep(1500), 2);
    assert_eq!(recalled(&m), before);
    assert_eq!(m.sweep(1500), 0);
}

#[test]
fn a_refused_write_changes_no_recall_and_a_write_adds_one_entry() {
    let mut m = MemoryStore::new(1);
    m.remember("ns", "metric units", "w", 0, 0).unwrap();
    let listed = |m: &MemoryStore, namespace: &str| -> Vec<(u64, String)> {
        m.recall(namespace, "", 0, 10).iter().map(|e| (e.id, e.text.clone())).collect()
    };
    assert!(m.remember("ns", "metric system", "w", 0, 1).is_err());
    assert!(m.remember("", "metric system", "w", 0, 1).is_err());
    assert_eq!(listed(&m, "ns"), vec![(0, "metric units".to_string())]);
    let id = m.remember("other", "metric", "v", 0, 2).unwrap();
    assert!(id > 0);
    assert_eq!(listed(&m, "other"), vec![(id, "metric".to_string())]);
    assert_eq!(listed(&m, "ns"), vec![(0, "metric units".to_string())]);
}
