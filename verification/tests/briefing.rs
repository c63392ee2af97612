use aether::briefing::{
    brief_and_send, compose, questions, Allowlist, Answer, BriefingSettings, DryRunEmailer, Emailer,
};

fn answers() -> Vec<Answer> {
    questions()
        .iter()
        .map(|q| Answer { text: format!("about {q}"), provenance: vec![] })
        .collect()
}

#[test]
fn allowlist_is_fail_closed_and_case_insensitive() {
    let a = Allowlist::new(vec!["Ops@Aether.io".into(), " ".into()]);
    assert!(a.allows("ops@aether.io"));
    assert!(a.allows("OPS@AETHER.IO"));
    assert!(!a.allows("evil@example.com"));
    assert!(Allowlist::default().allows("anyone@anywhere").eq(&false), "empty allowlist permits nothing");
}

#[test]
fn blank_entries_permit_nothing() {
    let a = Allowlist::new(vec!["  ".into(), "".into()]);
    assert!(a.is_empty());
    assert!(!a.allows(""));
    assert!(Allowlist::from_env(None).is_empty());
    let a = Allowlist::from_env(Some(" Ops@Aether.io ,,b@c "));
    assert!(a.allows("ops@aether.io") && a.allows("B@C") && !a.allows("d@e"));
}

#[test]
fn folding_reaches_beyond_ascii() {
    let a = Allowlist::new(vec!["ÄRGER@x".into()]);
    assert!(a.allows("ärger@X"));
}

#[test]
fn a_briefing_carries_questions_answers_and_evidence() {
    let asked = vec!["one?".to_string(), "two?".to_string()];
    let given = vec![
        Answer { text: "yes".into(), provenance: vec!["a".into(), "b".into()] },
        Answer { text: "no".into(), provenance: vec!["c".into()] },
    ];
    let briefing = compose(&asked, &given);
    assert_eq!(briefing.subject, "Aether cluster briefing");
    assert_eq!(briefing.provenance, vec!["a", "b", "c"]);
    assert!(briefing.body.contains("Q: one?\nyes\n\nQ: two?\nno\n\n"));
    assert!(briefing.body.ends_with("  [1] a\n  [2] b\n  [3] c\n"));
    let bare = compose(&questions(), &answers());
    assert!(bare.provenance.is_empty() && !bare.body.contains("evidence"));
}

#[test]
fn only_allowlisted_recipients_are_mailed() {
    let allow = Allowlist::new(vec!["ops@aether.io".into()]);
    let mut emailer = DryRunEmailer::default();
    let briefing = compose(&questions(), &answers());
    let recipients = vec!["ops@aether.io".to_string(), "attacker@evil.com".to_string()];
    let errors = brief_and_send(&briefing, &recipients, &allow, &mut emailer).unwrap_err();
    assert_eq!(errors, vec!["recipient not allowlisted: attacker@evil.com"]);
    assert_eq!(
        emailer.sent,
        vec![("ops@aether.io".to_string(), "Aether cluster briefing".to_string())]
    );
    let delivered =
        brief_and_send(&briefing, &vec!["Ops@Aether.IO".to_string()], &allow, &mut emailer).unwrap();
    assert_eq!(delivered, vec!["Ops@Aether.IO"]);
}

#[test]
fn an_empty_list_mails_nobody() {
    let mut emailer = DryRunEmailer::default();
    let briefing = compose(&questions(), &answers());
    let result = brief_and_send(
        &briefing,
        &vec!["ops@aether.io".to_string()],
        &Allowlist::default(),
        &mut emailer,
    );
    assert!(result.is_err(), "an empty allowlist permits no email");
    assert!(emailer.sent.is_empty());
}

struct Broken;

impl Emailer for Broken {
    fn send(&mut self, _to: &str, _subject: &str, _body: &str) -> Result<(), String> {
        Err("no route".to_string())
    }
}

#[test]
fn a_failed_send_is_an_error() {
    let allow = Allowlist::new(vec!["a@b".into()]);
    let briefing = compose(&questions(), &answers());
    let errors =
        brief_and_send(&briefing, &vec!["a@b".to_string()], &allow, &mut Broken).unwrap_err();
    assert_eq!(errors, vec!["send to a@b failed: no route"]);
}

#[test]
fn the_dry_run_is_the_default() {
    let s = BriefingSettings::from_env(None, None, None);
    assert_eq!((s.recipients.len(), s.cadence_secs, s.send), (0, 0, false));
    let s = BriefingSettings::from_env(Some("a@b, ,c@d"), Some("60"), Some("send"));
    assert_eq!(s.recipients, vec!["a@b", "c@d"]);
    assert_eq!((s.cadence_secs, s.send), (60, true));
    assert!(!BriefingSettings::from_env(None, None, Some("Send")).send);
}

#[test]
fn the_standing_questions_are_asked_every_cycle() {
    assert_eq!(
        questions(),
        vec![
            "how many flights are there?",
            "which aircraft types are flying?",
            "what are the altitude percentiles?",
            "is the cluster healthy?",
        ]
    );
}
