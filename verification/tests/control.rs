use aether::control::{ControlConfigError, ControlPlane, ProposeError, WriteOutcome};

fn plane(id: &str, peers: &str) -> Result<Option<ControlPlane>, ControlConfigError> {
    ControlPlane::from_env(Some(id), Some(peers))
}

#[test]
fn without_both_settings_there_is_no_group() {
    assert_eq!(ControlPlane::from_env(None, None), Ok(None));
    assert_eq!(ControlPlane::from_env(Some("1"), None), Ok(None));
    assert_eq!(ControlPlane::from_env(None, Some("1=a:1")), Ok(None));
}

#[test]
fn the_smallest_id_bootstraps_the_group() {
    let peers = "3=c:3, 1 = a:1 ,2=b:2,,1=a:9";
    let one = plane("1", peers).unwrap().unwrap();
    assert!(one.bootstraps);
    assert_eq!(one.peers.len(), 3);
    assert!(one.peers.contains(&(1, "a:9".to_string())), "the later address wins");
    assert!(!plane("2", peers).unwrap().unwrap().bootstraps);
    assert!(!plane("3", peers).unwrap().unwrap().bootstraps);
}

#[test]
fn every_configuration_error_is_named() {
    let e = plane("one", "1=a:1").unwrap_err();
    assert_eq!(e, ControlConfigError::BadId("one".into()));
    assert_eq!(e.message("invalid digit found in string"), "invalid digit found in string");
    let e = plane("1", "1=a:1,b:2").unwrap_err();
    assert_eq!(e.message(""), "bad AETHER_CONTROL_PEERS entry: b:2");
    let e = plane("1", "x=a:1").unwrap_err();
    assert_eq!(e, ControlConfigError::BadPeerId("x".into()));
    assert_eq!(e.message("invalid digit found in string"), "invalid digit found in string");
    let e = plane("4", "1=a:1").unwrap_err();
    assert_eq!(e.message(""), "AETHER_CONTROL_ID 4 is not in AETHER_CONTROL_PEERS");
}

#[test]
fn a_proposal_commits_is_forwarded_or_fails() {
    let me = plane("1", "1=a:1,2=b:2").unwrap().unwrap();
    assert_eq!(me.propose(WriteOutcome::Committed), Ok(()));
    let failed = |leader_id, leader_addr: Option<&str>| WriteOutcome::Failed {
        leader_id,
        leader_addr: leader_addr.map(String::from),
        error: "no quorum".into(),
    };
    assert_eq!(me.propose(failed(Some(2), Some("b:2"))), Err(ProposeError::Leader("b:2".into())));
    assert_eq!(me.propose(failed(None, Some("b:2"))), Err(ProposeError::Leader("b:2".into())));
    let unavailable = Err(ProposeError::Unavailable("control group cannot commit: no quorum".into()));
    assert_eq!(me.propose(failed(Some(2), None)), unavailable);
    let unavailable = Err(ProposeError::Unavailable("control group cannot commit: no quorum".into()));
    assert_eq!(me.propose(failed(Some(1), Some("a:1"))), unavailable, "never forwarded to itself");
}
