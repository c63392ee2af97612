use aether::double::Double;
use aether::hybrid::rrf_fuse;
use aether::wire::{FlightDocument, SearchHit};

fn hit(icao24: &str) -> SearchHit {
    SearchHit {
        document: Some(FlightDocument { icao24: icao24.into(), ..Default::default() }),
        score: Double { bits: 0f64.to_bits() },
        provenance: None,
    }
}

fn icao24_of(h: &SearchHit) -> String {
    h.icao24()
}

fn ids(hits: &[SearchHit]) -> Vec<String> {
    hits.iter().map(icao24_of).collect()
}

fn score(h: &SearchHit) -> f64 {
    f64::from_bits(h.score.bits)
}

#[test]
fn a_doc_ranked_by_both_beats_a_doc_ranked_by_one() {
    // "b" is #2 in keyword and #1 in vector; "a" is #1 in keyword only. Agreement wins.
    let keyword = vec![hit("a"), hit("b"), hit("c")];
    let vector = vec![hit("b"), hit("d")];
    let fused = rrf_fuse(keyword, vector, 0);
    assert_eq!(fused[0].document.as_ref().unwrap().icao24, "b", "agreed-upon doc ranks first");
    // b: 1/(60+2) + 1/(60+1); a: 1/(60+1). So b > a.
    let b = score(fused.iter().find(|h| icao24_of(h) == "b").unwrap());
    let a = score(fused.iter().find(|h| icao24_of(h) == "a").unwrap());
    assert!(b > a);
}

#[test]
fn union_of_both_lists_is_returned() {
    let keyword = vec![hit("a"), hit("b")];
    let vector = vec![hit("b"), hit("c")];
    let mut got = ids(&rrf_fuse(keyword, vector, 0));
    got.sort();
    assert_eq!(got, vec!["a", "b", "c"], "fusion returns the union, deduped");
}

#[test]
fn limit_truncates_the_fused_list() {
    let keyword = vec![hit("a"), hit("b"), hit("c")];
    let vector = vec![hit("d")];
    assert_eq!(rrf_fuse(keyword, vector, 2).len(), 2);
}

#[test]
fn empty_inputs_are_fine() {
    assert!(rrf_fuse(vec![], vec![], 10).is_empty());
}

#[test]
fn scores_are_the_reciprocal_rank_sums_to_the_last_bit() {
    let fused = rrf_fuse(vec![hit("a"), hit("b"), hit("c")], vec![hit("b"), hit("d")], 0);
    let expected = |id: &str| -> f64 {
        match id {
            "a" => 1.0 / (60.0 + 0.0 + 1.0),
            "b" => 1.0 / (60.0 + 1.0 + 1.0) + 1.0 / (60.0 + 0.0 + 1.0),
            "c" => 1.0 / (60.0 + 2.0 + 1.0),
            _ => 1.0 / (60.0 + 1.0 + 1.0),
        }
    };
    for h in &fused {
        assert_eq!(score(h).to_bits(), expected(&icao24_of(h)).to_bits());
    }
    assert_eq!(ids(&fused), vec!["b", "a", "d", "c"]);
}

#[test]
fn long_lists_score_to_the_last_bit() {
    let names: Vec<String> = (0..500).map(|i| format!("{i:04}")).collect();
    let keyword = names.iter().map(|s| hit(s)).collect();
    let vector = names.iter().rev().map(|s| hit(s)).collect();
    for h in rrf_fuse(keyword, vector, 0) {
        let i: usize = icao24_of(&h).parse().unwrap();
        let sum = 1.0 / (60.0 + i as f64 + 1.0) + 1.0 / (60.0 + (499 - i) as f64 + 1.0);
        assert_eq!(score(&h).to_bits(), sum.to_bits());
    }
}

#[test]
fn hits_without_an_aircraft_earn_nothing_and_keep_their_places() {
    let fused = rrf_fuse(vec![hit(""), hit(""), hit("a")], vec![hit(""), hit("a")], 0);
    assert_eq!(ids(&fused), vec!["a"]);
    assert_eq!(score(&fused[0]), 1.0 / 63.0 + 1.0 / 62.0);
}
