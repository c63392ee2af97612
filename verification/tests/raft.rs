use aether::control::{Command, ControlApp};
use aether::raft_log::{Applied, Entry, EntryPayload, LogId, LogStore, Membership, Payload, Vote};
use aether::registry::Registry;
use aether::snapshot::{
    newest_key, newest_snapshot, object_key, snapshot_index, snapshot_name, superseded,
};
use aether::state_machine::{
    raft_config, snapshot_file, StateMachineApp, StateMachineStore,
};
use aether::wire::RegisterNodeRequest;

fn id(index: u64) -> LogId {
    LogId { term: 1, node_id: 1, index }
}

fn entry(index: u64, bytes: &[u8]) -> Entry {
    Entry { log_id: id(index), payload: EntryPayload::Normal(Payload(bytes.to_vec())) }
}

fn members() -> Membership {
    Membership { configs: vec![vec![1, 2]], nodes: vec![(1, "a:1".into()), (2, "b:2".into())] }
}

fn indexes(entries: &[Entry]) -> Vec<u64> {
    entries.iter().map(|e| e.log_id.index).collect()
}

#[test]
fn appended_entries_are_read_back() {
    let mut log = LogStore::default();
    assert_eq!(log.get_log_state().last, None);
    log.append(vec![entry(1, b"a"), entry(2, b"b"), entry(3, b"c")]);
    assert_eq!(log.try_get_log_entries(2, Some(3)), vec![entry(2, b"b")]);
    assert_eq!(indexes(&log.try_get_log_entries(0, None)), vec![1, 2, 3]);
    assert_eq!(log.get_log_state().last, Some(id(3)));
    log.append(vec![entry(2, b"again")]);
    assert_eq!(log.try_get_log_entries(2, Some(3)), vec![entry(2, b"again")], "the later write wins");
}

#[test]
fn truncation_drops_the_tail_and_purging_the_head() {
    let mut log = LogStore::default();
    log.append((1..=5).map(|i| entry(i, b"x")).collect());
    log.truncate(id(4));
    assert_eq!(indexes(&log.try_get_log_entries(0, None)), vec![1, 2, 3]);
    log.purge(id(2));
    assert_eq!(indexes(&log.try_get_log_entries(0, None)), vec![3]);
    let state = log.get_log_state();
    assert_eq!((state.last_purged, state.last), (Some(id(2)), Some(id(3))));
    log.purge(id(3));
    assert_eq!(log.get_log_state().last, Some(id(3)), "an empty log ends where it was purged");
}

#[test]
fn votes_and_commits_are_remembered() {
    let mut log = LogStore::default();
    assert_eq!((log.read_vote(), log.read_committed()), (None, None));
    let vote = Vote { term: 3, node_id: 2, committed: true };
    log.save_vote(vote);
    log.save_committed(Some(id(4)));
    assert_eq!((log.read_vote(), log.read_committed()), (Some(vote), Some(id(4))));
}

/// A key-value application: payloads are "key=value" texts, state is a list of pairs.
#[derive(Default)]
struct KvApp(Vec<(String, String)>);

impl StateMachineApp for KvApp {
    type State = Vec<(String, String)>;
    type Kept = ();

    fn apply(&mut self, payload: &Vec<u8>) -> u32 {
        let text = String::from_utf8_lossy(payload).to_string();
        let Some((k, v)) = text.split_once('=') else { return 0 };
        self.0.retain(|(key, _)| key != k);
        self.0.push((k.to_string(), v.to_string()));
        1
    }

    fn snapshot_bytes(&self) -> Vec<u8> {
        bincode::serialize(&self.0).unwrap()
    }

    fn restore(&mut self, bytes: &Vec<u8>) -> u32 {
        self.0 = bincode::deserialize(bytes).unwrap_or_default();
        self.0.len() as u32
    }

    fn unit(&self) -> &'static str {
        "keys"
    }
}

impl KvApp {
    fn get(&self, key: &str) -> Option<&str> {
        self.0.iter().find(|(k, _)| k == key).map(|(_, v)| v.as_str())
    }
}

#[test]
fn a_second_application_runs_on_the_same_machine_and_restores_from_its_file() {
    let mut sm = StateMachineStore::new(KvApp::default());
    assert!(sm.needs_cold_boot());
    let replies = sm.apply(vec![
        Entry { log_id: id(1), payload: EntryPayload::Membership(members()) },
        entry(2, b"region=us-east-2"),
        entry(3, b"groups=2"),
        entry(4, b"region=eu-west-1"),
        entry(5, b"nonsense"),
        Entry { log_id: id(6), payload: EntryPayload::Blank },
    ]);
    assert_eq!(replies, vec![Applied(0), Applied(1), Applied(1), Applied(1), Applied(0), Applied(0)]);
    assert_eq!(sm.app().get("region"), Some("eu-west-1"));
    assert_eq!(sm.app().0.len(), 2);
    assert!(sm.get_current_snapshot().is_none());

    let snapshot = sm.build_snapshot();
    assert_eq!(snapshot.meta.last_log_id, Some(id(6)));
    assert_eq!(snapshot.meta.last_membership.membership, members());
    assert_eq!(sm.get_current_snapshot(), Some(snapshot.clone()));
    let (name, bytes) = snapshot_file(&snapshot);
    assert_eq!(name, "snap-00000000000000000006.bin");

    let mut fresh = StateMachineStore::new(KvApp::default());
    assert_eq!(fresh.restore_file(&bytes), Some(2));
    assert_eq!(fresh.app().get("region"), Some("eu-west-1"));
    assert_eq!(fresh.applied_state().0, Some(id(6)));
    assert_eq!(fresh.applied_state().1.membership, members());
    assert!(!fresh.needs_cold_boot());
    assert_eq!(fresh.restore_file(&vec![1, 2, 3]), None, "a torn file is skipped");
    assert_eq!(fresh.app().0.len(), 2);
    assert_eq!(fresh.app().unit(), "keys");
}

/// Counts payloads; its records have no noun of their own.
struct Tally(u32);

impl StateMachineApp for Tally {
    type State = u32;
    type Kept = ();

    fn apply(&mut self, _payload: &Vec<u8>) -> u32 {
        self.0 += 1;
        1
    }

    fn snapshot_bytes(&self) -> Vec<u8> {
        self.0.to_le_bytes().to_vec()
    }

    fn restore(&mut self, bytes: &Vec<u8>) -> u32 {
        self.0 = u32::from_le_bytes([bytes[0], bytes[1], bytes[2], bytes[3]]);
        self.0
    }
}

#[test]
fn a_durable_opening_tries_the_disk_then_the_object_then_nothing() {
    let file = |value: &[u8]| {
        let mut sm = StateMachineStore::new(KvApp::default());
        sm.apply(vec![entry(7, value)]);
        snapshot_file(&sm.build_snapshot()).1
    };
    let (disk, object) = (file(b"tier=disk"), file(b"tier=object"));
    let torn = vec![1, 2, 3];

    let open = |newest| StateMachineStore::with_snapshot_dir(KvApp::default(), newest);
    let (mut sm, restored) = open(Some(&disk));
    assert_eq!((restored, sm.open_durable(Some(&object))), (Some(1), None));
    assert_eq!(sm.app().get("tier"), Some("disk"));
    for missing in [None, Some(&torn)] {
        let (mut sm, restored) = open(missing);
        assert_eq!((restored, sm.open_durable(Some(&object))), (None, Some(1)));
        assert_eq!(sm.app().get("tier"), Some("object"));
        assert_eq!(sm.applied_state().0, Some(id(7)));
    }
    let (mut sm, restored) = open(None);
    assert_eq!((restored, sm.open_durable(Some(&torn)), sm.open_durable(None)), (None, None, None));
    assert!(sm.needs_cold_boot());
}

#[test]
fn a_restart_resumes_from_the_snapshot_and_the_tail() {
    let mut sm = StateMachineStore::new(Tally(0));
    sm.apply(vec![entry(1, b"x"), entry(2, b"y")]);
    let (_, bytes) = snapshot_file(&sm.build_snapshot());
    sm.apply(vec![entry(3, b"z")]);

    let mut restarted = StateMachineStore::new(Tally(0));
    assert_eq!(restarted.restore_file(&bytes), Some(2));
    restarted.apply(vec![entry(3, b"z")]);
    assert_eq!(restarted.app().0, sm.app().0);
    assert_eq!(restarted.applied_state(), sm.applied_state());
    assert_eq!(restarted.app().unit(), "entries");
}

#[test]
fn batches_do_not_matter() {
    let entries = || vec![entry(1, b"a=1"), entry(2, b"b=2"), entry(3, b"a=3")];
    let mut whole = StateMachineStore::new(KvApp::default());
    whole.apply(entries());
    let mut parts = StateMachineStore::new(KvApp::default());
    for e in entries() {
        parts.apply(vec![e]);
    }
    assert_eq!(whole.app().0, parts.app().0);
    assert_eq!(whole.applied_state(), parts.applied_state());
}

#[test]
fn successive_snapshots_have_different_names() {
    let mut sm = StateMachineStore::new(KvApp::default());
    sm.apply(vec![entry(1, b"a=1")]);
    let first = sm.build_snapshot().meta.snapshot_id;
    let second = sm.build_snapshot().meta.snapshot_id;
    assert!(first != second);
}

#[test]
fn snapshot_files_list_oldest_first() {
    assert_eq!(snapshot_name(7), "snap-00000000000000000007.bin");
    assert!(snapshot_name(9) < snapshot_name(10) && snapshot_name(10) < snapshot_name(u64::MAX));
    assert_eq!(snapshot_index("snap-00000000000000000042.bin"), Some(42));
    for name in ["snap-.bin", "snap-1.tmp", "other-1.bin", "snap-x.bin"] {
        assert_eq!(snapshot_index(name), None, "{name}");
    }
    let names: Vec<String> = vec!["junk".into(), snapshot_name(9), snapshot_name(10), snapshot_name(3)];
    assert_eq!(newest_snapshot(&names), Some(2));
    assert_eq!(newest_snapshot(&vec!["junk".to_string()]), None);
    assert!(superseded(&snapshot_name(9), &snapshot_name(10)));
    assert!(!superseded(&snapshot_name(10), &snapshot_name(10)) && !superseded("junk", &snapshot_name(10)));
    assert_eq!(object_key("group-0", &snapshot_name(1)), "group-0/snap-00000000000000000001.bin");
    let keys = vec!["g/snap-2".to_string(), "g/snap-9".to_string(), "g/snap-5".to_string()];
    assert_eq!(newest_key(&keys), Some(1));
    assert_eq!(newest_key(&vec![]), None);
}

#[test]
fn the_raft_timing_is_fixed_but_for_the_snapshot_cadence() {
    let t = raft_config(None);
    assert_eq!((t.heartbeat_interval, t.election_timeout_min, t.election_timeout_max), (100, 300, 600));
    assert_eq!(t.snapshot_logs, None);
    assert_eq!(raft_config(Some("64")).snapshot_logs, Some(64));
    assert_eq!(raft_config(Some("0")).snapshot_logs, None);
    assert_eq!(raft_config(Some("often")).snapshot_logs, None);
}

#[test]
fn intent_committed_to_one_replica_reaches_another_by_snapshot() {
    let registry = || Registry::new(2).with_vshards(4);
    let mut sm = StateMachineStore::new(ControlApp(registry()));
    let replies = sm.apply(vec![
        entry(1, &Command::ReassignVShard { vshard: 0, group: 1 }.encode()),
        entry(2, &Command::DrainNode { node_id: "n7".into() }.encode()),
        entry(3, &Command::ReassignVShard { vshard: 9, group: 1 }.encode()),
        entry(4, b"?"),
    ]);
    assert_eq!(replies, vec![Applied(1), Applied(1), Applied(1), Applied(0)]);
    assert_eq!(sm.app().0.vshard_assignments(), vec![1, 1, 0, 1]);
    assert!(sm.app().0.is_draining("n7"));
    assert_eq!(sm.app().unit(), "authority records");

    let snapshot = sm.build_snapshot();
    let mut other = StateMachineStore::new(ControlApp(registry()));
    assert_eq!(other.install_snapshot(snapshot), 5);
    assert_eq!(other.app().0.authority(), sm.app().0.authority());
    // Bytes that hold no intent leave an empty one.
    let ControlApp(mut kept) = other.replace_app(ControlApp(Registry::new(2)));
    let mut app = ControlApp(registry());
    assert_eq!(app.restore(&vec![7]), 0);
    assert!(app.0.vshard_assignments().is_empty());
    kept.reassign_vshard(1, 0).unwrap();
    assert_eq!(kept.vshard_assignments(), vec![1, 0, 0, 1]);
}

#[test]
fn commands_travel_as_a_tagged_pair_or_text() {
    let bytes = Command::ReassignVShard { vshard: 3, group: 258 }.encode();
    assert_eq!(bytes, vec![0, 0, 0, 0, 3, 0, 0, 0, 2, 1, 0, 0]);
    assert_eq!(Command::decode(&bytes), Some(Command::ReassignVShard { vshard: 3, group: 258 }));
    let bytes = Command::DrainNode { node_id: "ab".into() }.encode();
    assert_eq!(bytes, vec![1, 0, 0, 0, 2, 0, 0, 0, 0, 0, 0, 0, 97, 98]);
    assert_eq!(Command::decode(&bytes), Some(Command::DrainNode { node_id: "ab".into() }));
    assert_eq!(Command::decode(&vec![2, 0, 0, 0]), None);
}

#[test]
fn commands_change_intent_and_leave_the_view_of_the_cluster() {
    let mut registry = Registry::new(2).with_vshards(4);
    let node = RegisterNodeRequest { node_id: "n1".into(), address: "a:1".into(), shard_id: 0, role: 1 };
    assert!(registry.register(node).accepted);
    let version = registry.placement_version();
    let mut sm = StateMachineStore::new(ControlApp(registry));
    sm.apply(vec![
        entry(1, &Command::ReassignVShard { vshard: 0, group: 1 }.encode()),
        entry(2, &Command::ReassignVShard { vshard: 9, group: 1 }.encode()),
        entry(3, &Command::DrainNode { node_id: "n1".into() }.encode()),
        entry(4, b"?"),
    ]);
    let snapshot = sm.build_snapshot();
    sm.install_snapshot(snapshot);
    let ControlApp(registry) = sm.replace_app(ControlApp(Registry::new(0)));
    assert_eq!(registry.placement_version(), version + 2);
    assert!(registry.knows_node("n1"));
}
