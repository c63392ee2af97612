use aether::json::{Fields, Json};
use aether::onnx::{
    encode_text, find_finish_fault, framed, model_input, pooled_offsets, Encoded, TextEncoder,
    MAX_TOKENS, ONNX_EMBED_DIM,
};
use aether::snapshot::{bucket_exists, ObjectStore};

const WORDS: &str = r#"{ "type": "WordLevel", "vocab": { "[UNK]": 0, "boeing": 7, "airbus": 9, "[CLS]": 2, "[SEP]": 3 }, "unk_token": "[UNK]" }"#;
const SPACES: &str = r#"{ "type": "Whitespace" }"#;

/// A tokenizer file: fields that differ from a plain one, by name.
fn file_with(fields: &[(&str, &str)]) -> String {
    let plain = [
        ("version", "\"1.0\""),
        ("truncation", "null"),
        ("padding", "null"),
        ("added_tokens", "[]"),
        ("normalizer", "null"),
        ("pre_tokenizer", SPACES),
        ("post_processor", "null"),
        ("decoder", "null"),
        ("model", WORDS),
    ];
    let written: Vec<String> = plain
        .iter()
        .map(|(name, value)| {
            let given = fields.iter().find(|(n, _)| n == name).map_or(*value, |(_, v)| *v);
            format!("\"{name}\": {given}")
        })
        .collect();
    format!("{{ {} }}", written.join(", "))
}

/// A tokenizer file with some words, and the truncation, padding and post-processor given.
fn file(truncation: &str, padding: &str, processor: &str) -> String {
    file_with(&[("truncation", truncation), ("padding", padding), ("post_processor", processor)])
}

/// An added token with the properties given.
fn added(content: &str, properties: &[&str]) -> String {
    let flag = |name: &str| format!("\"{name}\": {}", properties.contains(&name));
    let flags: Vec<String> =
        ["single_word", "lstrip", "rstrip", "normalized", "special"].iter().map(|n| flag(n)).collect();
    format!(r#"{{ "id": 50, "content": "{content}", {} }}"#, flags.join(", "))
}

/// The ids of a text, with the tokenizer of a file that is fit for it.
fn ids(file: &str, text: &str) -> Vec<i64> {
    encode_text(&TextEncoder::from_text(file).unwrap(), text).unwrap().ids
}

/// A template post-processor: the pieces for one text, and the special tokens.
fn template(single: &str, special_tokens: &str) -> String {
    format!(
        r#"{{ "type": "TemplateProcessing", "single": [{single}], "pair": [{A}], "special_tokens": {{ {special_tokens} }} }}"#
    )
}

const A: &str = r#"{ "Sequence": { "id": "A", "type_id": 0 } }"#;
const B: &str = r#"{ "Sequence": { "id": "B", "type_id": 1 } }"#;
const CLS: &str = r#"{ "SpecialToken": { "id": "[CLS]", "type_id": 0 } }"#;
const CLS_TOKEN: &str = r#""[CLS]": { "id": "[CLS]", "ids": [2], "tokens": ["[CLS]"] }"#;

fn refusal(file: String) -> Option<String> {
    TextEncoder::from_text(&file).err()
}

/// Why texts cannot be encoded, with the tokenizer of a file that is accepted.
fn fault(file: String) -> Option<String> {
    encode_text(&TextEncoder::from_text(&file).unwrap(), "airbus").err()
}

#[test]
fn a_text_is_encoded_and_framed() {
    let encoder = TextEncoder::from_text(&file("null", "null", "null")).unwrap();
    let input = encode_text(&encoder, "airbus zeppelin boeing").unwrap();
    assert_eq!(input.width, 3);
    assert_eq!(input.ids, vec![9, 0, 7]);
    assert_eq!(input.mask, vec![1, 1, 1]);
    assert_eq!(input.type_ids, vec![0, 0, 0]);
}

#[test]
fn the_special_tokens_and_the_padding_of_the_file_are_added() {
    let padding = r#"{ "strategy": { "Fixed": 4 }, "direction": "Right", "pad_to_multiple_of": null, "pad_id": 5, "pad_type_id": 0, "pad_token": "[PAD]" }"#;
    let processor = template(&format!("{CLS}, {A}"), CLS_TOKEN);
    let encoder = TextEncoder::from_text(&file("null", padding, &processor)).unwrap();
    let input = encode_text(&encoder, "boeing airbus").unwrap();
    assert_eq!((input.width, input.ids, input.mask), (4, vec![2, 7, 9, 5], vec![1, 1, 1, 0]));
}

#[test]
fn a_text_is_cut_whatever_truncation_the_file_asks_for() {
    let truncation = r#"{ "direction": "Left", "max_length": 2, "strategy": "LongestFirst", "stride": 9 }"#;
    let processor = template(&format!("{CLS}, {A}"), CLS_TOKEN);
    let encoder = TextEncoder::from_text(&file(truncation, "null", &processor)).unwrap();
    let input = encode_text(&encoder, &format!("airbus {}", "boeing ".repeat(300))).unwrap();
    assert_eq!((input.width, input.ids.len()), (MAX_TOKENS, 256));
    assert_eq!((input.ids[0], input.ids[1], input.ids[2]), (2, 9, 7));
}

#[test]
fn a_file_that_is_no_tokenizer_is_refused() {
    assert_eq!(refusal("{".into()), Some("tokenizer file is not JSON".into()));
    assert_eq!(refusal(format!("{} x", file("null", "null", "null"))), Some("tokenizer file is not JSON".into()));
    assert_eq!(refusal("{ \"decoder\": { ".into()), Some("tokenizer file is not JSON".into()));
    assert!(refusal("{\"model\": 3}".into()).is_some());
    assert!(refusal(file_with(&[("version", "\"2.0\"")])).is_some());
}

#[test]
fn a_tokenizer_that_adds_too_many_tokens_is_refused() {
    let ids = |n: usize| vec!["2"; n].join(", ");
    let tokens = |n: usize| vec!["\"[CLS]\""; n].join(", ");
    let token = |n: usize| format!(r#""[CLS]": {{ "id": "[CLS]", "ids": [{}], "tokens": [{}] }}"#, ids(n), tokens(n));
    let processor = |n: usize| template(&format!("{CLS}, {A}"), &token(n));
    assert_eq!(
        refusal(file("null", "null", &processor(257))),
        Some("tokenizer adds more tokens than there is room for".into())
    );
    let encoder = TextEncoder::from_text(&file("null", "null", &processor(256))).unwrap();
    assert_eq!(encode_text(&encoder, "airbus").unwrap().width, 256);
}

#[test]
fn a_tokenizer_that_cannot_take_a_single_text_fails_to_encode() {
    let told = Some("tokenizer cannot process a single text".to_string());
    assert_eq!(fault(file("null", "null", &template(&format!("{A}, {B}"), ""))), told);
    assert_eq!(fault(file("null", "null", &template(&format!("{CLS}, {A}"), ""))), told);
    let twice = |first: &str| {
        let (one, two) = (template(first, CLS_TOKEN), template(A, CLS_TOKEN));
        format!(r#"{{ "type": "Sequence", "processors": [{one}, {two}] }}"#)
    };
    assert_eq!(fault(file("null", "null", &twice(&format!("{CLS}, {A}, {CLS}")))), told);
    assert_eq!(ids(&file("null", "null", &twice(A)), "airbus"), vec![9]);
    assert_eq!(ids(&file("null", "null", &twice(&format!("{A}, {CLS}"))), "airbus"), vec![9]);
}

#[test]
fn a_description_is_judged_by_its_parts() {
    let padding = |fixed: u64| {
        let strategy = Fields::new().with("Fixed", Json::natural(fixed)).build();
        Fields::new().with("strategy", strategy).build()
    };
    let judge = |padding: Json| find_finish_fault(&Json::list(vec![Json::Null, Json::Null, padding]));
    assert_eq!(judge(Json::Null), None);
    assert_eq!(judge(padding(128)), None);
    assert_eq!(judge(padding(u64::MAX)), Some("tokenizer pads too far".into()));
    assert_eq!(find_finish_fault(&Json::Null), Some("tokenizer is not described".into()));
    assert_eq!(find_finish_fault(&Json::list(vec![])), Some("tokenizer is not described".into()));
}

#[test]
fn a_normalizer_that_is_precompiled_or_replaces_loosely_is_refused() {
    let told = Some("tokenizer has a normalizer that is not supported".to_string());
    let refused = |normalizer: &str| refusal(file_with(&[("normalizer", normalizer)]));
    let nested = |inner: &str| format!(r#"{{ "type": "Sequence", "normalizers": [{{ "type": "Lowercase" }}, {inner}] }}"#);
    for bad in [
        r#"{ "type": "Precompiled" }"#,
        r#"{ "type": "Precompiled", "precompiled_charsmap": "" }"#,
        r#"{ "type": "Odd", "precompiled_charsmap": "AAAA" }"#,
        r#"{ "type": "Replace", "pattern": { "Regex": "^" }, "content": "x" }"#,
        r#"{ "type": "Replace", "pattern": { "String": "" }, "content": "x" }"#,
        r#"{ "type": "Prepend", "prepend": "" }"#,
        r#"[{ "Regex": "^" }, "x"]"#,
    ] {
        assert_eq!(refused(bad), told, "{bad}");
        assert_eq!(refused(&nested(&nested(bad))), told, "{bad}");
    }
    let fine = nested(r#"{ "type": "Replace", "pattern": { "String": "jet" }, "content": "bus" }"#);
    assert_eq!(ids(&file_with(&[("normalizer", &fine)]), "AIRJET boeing"), vec![9, 7]);
    let bert = r#"{ "type": "BertNormalizer", "clean_text": true, "handle_chinese_chars": true, "strip_accents": null, "lowercase": true }"#;
    assert_eq!(ids(&file_with(&[("normalizer", bert)]), "AIRBÜS Boeing"), vec![9, 7]);
}

#[test]
fn a_repeated_field_does_not_hide_what_is_refused() {
    let plain = file_with(&[]);
    let twice = plain.replacen("\"normalizer\": null", "\"normalizer\": { \"type\": \"Precompiled\" }, \"normalizer\": null", 1);
    assert_eq!(ids(&twice, "airbus"), vec![9]);
    let hidden = plain.replacen("\"normalizer\": null", "\"normalizer\": null, \"normalizer\": { \"type\": \"Precompiled\" }", 1);
    assert!(refusal(hidden).is_some());
}

#[test]
fn a_merge_that_cannot_be_cut_at_the_prefix_is_refused() {
    let told = Some("tokenizer has a merge that does not fit its prefix".to_string());
    let model = |prefix: &str, merges: &str| {
        format!(
            r###"{{ "type": "BPE", "continuing_subword_prefix": {prefix}, "vocab": {{ "a": 1, "b": 2, "ab": 3, "é": 4, "##b": 5 }}, "merges": {merges} }}"###
        )
    };
    let refused = |prefix: &str, merges: &str| refusal(file_with(&[("model", &model(prefix, merges))]));
    assert_eq!(refused("\"###\"", r#"[["a", "b"]]"#), told);
    assert_eq!(refused("\"###\"", r#"["a b"]"#), told);
    assert_eq!(refused("\"#\"", r#"[["a", "é"]]"#), told);
    assert_eq!(ids(&file_with(&[("model", &model("null", r#"[["a", "b"]]"#))]), "ab"), vec![3]);
    assert_eq!(ids(&file_with(&[("model", &model("\"##\"", r#"["a ##b"]"#))]), "ab"), vec![3]);
}

#[test]
fn a_regular_expression_is_refused() {
    let told = Some("tokenizer has a regular expression".to_string());
    let split = |pattern: &str| format!(r#"{{ "type": "Split", "pattern": {pattern}, "behavior": "Removed", "invert": false }}"#);
    let regex = split(r#"{ "Regex": "x" }"#);
    assert_eq!(refusal(file_with(&[("pre_tokenizer", &regex)])), told);
    let decoder = r#"{ "type": "Sequence", "decoders": [{ "type": "Replace", "pattern": { "Regex": "x" }, "content": "" }] }"#;
    assert_eq!(refusal(file_with(&[("decoder", decoder)])), told);
    let text = split(r#"{ "String": "-" }"#);
    assert_eq!(ids(&file_with(&[("pre_tokenizer", &text)]), "airbus-boeing"), vec![9, 7]);
}

#[test]
fn a_token_id_that_leaves_no_room_is_refused() {
    let model = r#"{ "type": "WordLevel", "vocab": { "[UNK]": 0, "top": 4294967295 }, "unk_token": "[UNK]" }"#;
    let tokens = format!("[{}, {}]", added("top", &["special"]), added("more", &["special"]));
    assert_eq!(
        refusal(file_with(&[("model", model), ("added_tokens", &tokens)])),
        Some("tokenizer has too large a token id".into())
    );
    assert_eq!(ids(&file_with(&[("model", model)]), "top"), vec![4294967295]);
}

#[test]
fn pieces_of_no_length_fail_to_encode() {
    let told = Some("tokenizer cuts texts into pieces of no length".to_string());
    let of_length = |n: usize| format!(r#"{{ "type": "FixedLength", "length": {n} }}"#);
    let sequence = |n: usize| format!(r#"{{ "type": "Sequence", "pretokenizers": [{SPACES}, {}] }}"#, of_length(n));
    assert_eq!(fault(file_with(&[("pre_tokenizer", &of_length(0))])), told);
    assert_eq!(fault(file_with(&[("pre_tokenizer", &sequence(0))])), told);
    assert_eq!(ids(&file_with(&[("pre_tokenizer", &sequence(6))]), "airbusboeing"), vec![9, 7]);
}

#[test]
fn added_tokens_that_tear_a_text_fail_to_encode() {
    let with = |tokens: &[String]| {
        let list = format!("[{}]", tokens.join(", "));
        file_with(&[("added_tokens", &list), ("normalizer", r#"{ "type": "StripAccents" }"#)])
    };
    let both = [added("A", &["rstrip"]), added(" ", &["lstrip"])];
    assert_eq!(fault(with(&both)), Some("tokenizer strips spaces on both sides of added tokens".into()));
    let told = Some("tokenizer has an added token that normalizes to nothing".to_string());
    assert_eq!(fault(with(&[added("\u{301}", &["normalized"])])), told);
    assert_eq!(ids(&with(&[added("jét", &["normalized"])]), "airbus jét boeing"), vec![9, 5, 7]);
    assert_eq!(ids(&with(&[added("<m>", &["special", "lstrip"])]), "airbus <m>boeing"), vec![9, 5, 7]);
}

#[test]
fn an_empty_text_still_has_a_row() {
    let input = model_input(&Encoded { ids: vec![], mask: vec![], type_ids: vec![] });
    assert_eq!((input.width, input.ids.len()), (1, 0));
    let input = model_input(&Encoded { ids: vec![u32::MAX], mask: vec![1], type_ids: vec![2] });
    assert_eq!((input.width, input.ids[0], input.type_ids[0]), (1, u32::MAX as i64, 2));
}

#[test]
fn a_failed_encoding_keeps_its_error() {
    assert_eq!(framed(Err("no such token".into())), Err("no such token".into()));
    let input = framed(Ok(Encoded { ids: vec![4, 5], mask: vec![1, 0], type_ids: vec![0, 0] })).unwrap();
    assert_eq!((input.width, input.ids, input.mask), (2, vec![4, 5], vec![1, 0]));
}

#[test]
fn only_tokens_under_the_mask_are_pooled() {
    assert_eq!((ONNX_EMBED_DIM, MAX_TOKENS), (384, 256));
    assert_eq!(pooled_offsets(&vec![1, 0, 1, 1, 0]), vec![0, 768, 1152]);
    assert!(pooled_offsets(&vec![0, 0]).is_empty());
}

#[test]
fn the_object_store_is_opt_in() {
    assert_eq!(ObjectStore::from_env(None, Some("p"), None, None), None);
    let store = ObjectStore::from_env(Some("b"), None, None, None).unwrap();
    assert_eq!((store.prefix.as_str(), store.region.as_str()), ("snapshots", "us-east-1"));
    assert!(!store.path_style());
    assert_eq!(store.key("snap-1.bin"), "snapshots/snap-1.bin");
    let store = ObjectStore::from_env(Some("b"), Some("g0"), Some("http://minio"), Some("eu")).unwrap();
    assert!(store.path_style());
    assert_eq!(store.key("x"), "g0/x");
    assert!(bucket_exists("service error: BucketAlreadyOwnedByYou, sorry"));
    assert!(bucket_exists("BucketAlreadyExists"));
    assert!(!bucket_exists("AccessDenied"));
}
