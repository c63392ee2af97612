use aether::embed::{HashEmbedder, EMBED_DIM};
use aether::shard::fnv1a_64;
use aether::tokens::tokenize;

/// The buckets scaled to unit length.
fn embed(text: &str) -> Vec<f32> {
    let mut v: Vec<f32> = HashEmbedder.buckets(text).iter().map(|x| *x as f32).collect();
    let norm: f32 = v.iter().map(|x| x * x).sum::<f32>().sqrt();
    if norm > 0.0 {
        for x in &mut v {
            *x /= norm;
        }
    }
    v
}

fn dot(a: &[f32], b: &[f32]) -> f32 {
    a.iter().zip(b).map(|(x, y)| x * y).sum()
}

#[test]
fn embedding_is_deterministic_and_normalized() {
    let a = embed("Boeing 737 SFO JFK");
    let b = embed("Boeing 737 SFO JFK");
    assert_eq!(a, b);
    assert_eq!(a.len(), EMBED_DIM);
    let norm: f32 = a.iter().map(|x| x * x).sum::<f32>().sqrt();
    assert!((norm - 1.0).abs() < 1e-5, "norm was {norm}");
}

#[test]
fn shared_tokens_mean_higher_similarity() {
    let boeing_737 = embed("Boeing 737");
    let boeing_777 = embed("Boeing 777");
    let airbus = embed("Airbus A320");

    let same_maker = dot(&boeing_737, &boeing_777);
    let cross_maker = dot(&boeing_737, &airbus);
    assert!(
        same_maker > cross_maker,
        "expected shared-token similarity ({same_maker}) > disjoint ({cross_maker})"
    );
}

#[test]
fn empty_text_embeds_to_zero_vector_without_panic() {
    let v = embed("   ");
    assert_eq!(v.len(), EMBED_DIM);
    assert!(v.iter().all(|x| *x == 0.0));
}

#[test]
fn every_token_falls_into_its_hashed_bucket() {
    let text = "Boeing 737, boeing 777";
    let mut expected = vec![0i32; EMBED_DIM];
    for token in tokenize(text) {
        let hash = fnv1a_64(token.as_bytes());
        let sign = if (hash >> 63) == 1 { 1 } else { -1 };
        expected[(hash % EMBED_DIM as u64) as usize] += sign;
    }
    assert_eq!(HashEmbedder.buckets(text), expected);
    assert_eq!(HashEmbedder.dim(), EMBED_DIM);
}

#[test]
fn the_order_of_tokens_does_not_matter() {
    assert_eq!(HashEmbedder.buckets("a b c a"), HashEmbedder.buckets("c a A, b"));
}

#[test]
fn tokens_are_lower_case_alphanumeric_runs() {
    assert_eq!(tokenize("Boeing-737, SFO→JFK!"), vec!["boeing", "737", "sfo", "jfk"]);
    assert_eq!(tokenize("Żółć ÅNGSTRÖM"), vec!["żółć", "ångström"]);
    assert!(tokenize(" ,. ").is_empty());
}

#[test]
fn a_text_without_tokens_has_no_direction() {
    assert_eq!(HashEmbedder.buckets(" -- ,. "), vec![0; EMBED_DIM]);
    assert_eq!(HashEmbedder.buckets(""), vec![0; EMBED_DIM]);
}
