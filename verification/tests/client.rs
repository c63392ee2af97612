use aether::client::{
    coordinator_addrs, manifest_summary, next_dial, parse_addr_list, parse_filter_args, range_sides,
    ArgError, Dial, Reading,
};
use aether::double::Double;
use aether::wire::{NumericRange, OmittedShard, QueryManifest, Test};

#[test]
fn addr_lists_parse_with_trim_and_fallback() {
    assert_eq!(parse_addr_list("a:1, b:2 ,c:3", "d:4"), vec!["a:1", "b:2", "c:3"]);
    assert_eq!(parse_addr_list("", "d:4"), vec!["d:4"]);
    assert_eq!(parse_addr_list(" , ,", "d:4"), vec!["d:4"]);
}

#[test]
fn the_address_list_wins_over_the_single_address() {
    assert_eq!(coordinator_addrs(Some("a:1,b:2"), Some("c:3"), "d:4"), vec!["a:1", "b:2"]);
    assert_eq!(coordinator_addrs(None, Some("c:3"), "d:4"), vec!["c:3"]);
    assert_eq!(coordinator_addrs(None, None, "d:4"), vec!["d:4"]);
    assert_eq!(coordinator_addrs(Some(" "), Some("c:3"), "d:4"), vec!["d:4"]);
}

#[test]
fn a_dead_first_address_fails_over_and_an_all_dead_list_names_every_address() {
    let addrs = vec!["dead:1".to_string(), "live:2".to_string()];
    assert_eq!(next_dial(&addrs, 0), Dial::Try("dead:1".into()));
    assert_eq!(next_dial(&addrs, 1), Dial::Try("live:2".into()));
    assert_eq!(
        next_dial(&addrs, 2),
        Dial::GiveUp("no coordinator reachable (tried: dead:1, live:2)".into())
    );
}

fn manifest() -> QueryManifest {
    QueryManifest {
        shards_queried: 3,
        shards_answered: 3,
        omitted: vec![],
        deduped: 0,
        freshest_observed_at: 0,
        stalest_observed_at: 0,
        elapsed_ms: 12,
        placement_version: 4,
    }
}

#[test]
fn a_full_answer_has_a_short_summary() {
    assert_eq!(manifest_summary(&manifest(), 0), "answered 3/3 shards · placement v4 · 12ms");
}

#[test]
fn a_degraded_answer_says_what_is_missing_and_why() {
    let mut m = manifest();
    m.shards_answered = 1;
    m.omitted = vec![
        OmittedShard { address: "a:1".into(), reason: "timeout".into() },
        OmittedShard { address: "b:2".into(), reason: "unreachable".into() },
    ];
    m.deduped = 2;
    m.freshest_observed_at = 10_000;
    assert_eq!(
        manifest_summary(&m, 14_999),
        "answered 1/3 shards · omitted: a:1 (timeout), b:2 (unreachable) · 2 cross-shard duplicates dropped · freshest 4s old · placement v4 · 12ms"
    );
    // A clock that runs behind gives a negative age, cut towards zero.
    assert!(manifest_summary(&m, 8_001).contains("freshest -1s old"));
    m.freshest_observed_at = i64::MAX;
    assert!(manifest_summary(&m, i64::MIN).contains("freshest -9223372036854775s old"));
}

fn read(arg: &str) -> Reading {
    match range_sides(arg) {
        None => Reading { min: None, max: None },
        Some((lo, hi)) => Reading {
            min: lo.parse::<f64>().ok().map(|x| Double { bits: x.to_bits() }),
            max: hi.parse::<f64>().ok().map(|x| Double { bits: x.to_bits() }),
        },
    }
}

#[test]
fn filter_arguments_become_conditions() {
    let args: Vec<String> =
        ["origin=France", "altitude=1000..", "velocity=..2.5", "on_ground=false", "callsign=a=b"]
            .into_iter()
            .map(String::from)
            .collect();
    let readings = args.iter().map(|a| read(a)).collect();
    let filter = parse_filter_args(&args, &readings).unwrap().unwrap();
    let d = |x: f64| Some(Double { bits: x.to_bits() });
    let tests: Vec<(&str, Test)> = filter
        .conditions
        .into_iter()
        .zip(["origin", "altitude", "velocity", "on_ground", "callsign"])
        .map(|(c, name)| {
            assert_eq!(c.field, name);
            (name, c.test.unwrap())
        })
        .collect();
    assert_eq!(tests[0].1, Test::Equals("France".into()));
    assert_eq!(tests[1].1, Test::Range(NumericRange { min: d(1000.0), max: None }));
    assert_eq!(tests[2].1, Test::Range(NumericRange { min: None, max: d(2.5) }));
    assert_eq!(tests[3].1, Test::Is(false));
    assert_eq!(tests[4].1, Test::Equals("a=b".into()));
}

#[test]
fn no_arguments_make_no_filter() {
    assert_eq!(parse_filter_args(&vec![], &vec![]), Ok(None));
}

#[test]
fn bad_arguments_are_named() {
    let refuse = |arg: &str| parse_filter_args(&vec![arg.to_string()], &vec![read(arg)]).unwrap_err();
    let e = refuse("origin");
    assert_eq!(e, ArgError::NoEquals { arg: "origin".into() });
    assert_eq!(e.message(), "filter 'origin' must look like field=value or field=min..max");
    let e = refuse("altitude=1..high");
    assert_eq!(e.message(), "'high' is not a number in 'altitude=1..high'");
    let e = refuse("altitude=low..high");
    assert_eq!(e.message(), "'low' is not a number in 'altitude=low..high'");
}
