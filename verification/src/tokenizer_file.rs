//! Which tokenizer files can be used: what a file must not hold for its tokenizer to be built, and
//! for texts to be encoded with it.

use vstd::prelude::*;
use vstd::utf8::{encode_utf8, is_char_boundary};

use crate::json::{field_trees, item_trees, lemma_object_tree, text_at, Json, JsonTree};
use crate::text::{chars_of, cut_once, owned, same, split_once};
use crate::tokens::is_ascii_alphanumeric;

verus! {

/// How deep components are followed into each other. JSON text does not nest deeper.
pub const MAX_NESTING: usize = 128;

/// A component and all components inside it, each before its own; `None` where they nest too deep.
/// The field `key` of a component lists those right inside it.
pub open spec fn components(c: JsonTree, key: Seq<char>, depth: nat) -> Option<Seq<JsonTree>>
    decreases depth, 0nat,
{
    match c.get(key) {
        Some(value) => match value.as_list() {
            Some(items) => if depth == 0 {
                None
            } else {
                match components_in(items, key, (depth - 1) as nat) {
                    Some(inner) => Some(seq![c] + inner),
                    None => None,
                }
            },
            None => Some(seq![c]),
        },
        None => Some(seq![c]),
    }
}

/// The components of a list, and all components inside them.
pub open spec fn components_in(items: Seq<JsonTree>, key: Seq<char>, depth: nat) -> Option<
    Seq<JsonTree>,
>
    decreases depth, items.len() + 1,
{
    if items.len() == 0 {
        Some(Seq::empty())
    } else {
        match (
            components_in(items.drop_last(), key, depth),
            components(items.last(), key, depth),
        ) {
            (Some(before), Some(last)) => Some(before + last),
            _ => None,
        }
    }
}

/// What values behind references hold.
pub open spec fn referred_trees(values: Seq<&Json>) -> Seq<JsonTree> {
    values.map_values(|j: &Json| j.tree())
}

spec fn found(list: Option<Vec<&Json>>, trees: Option<Seq<JsonTree>>) -> bool {
    match (list, trees) {
        (Some(l), Some(t)) => referred_trees(l@) == t,
        (None, None) => true,
        _ => false,
    }
}

fn collect<'a>(c: &'a Json, key: &str, depth: usize) -> (list: Option<Vec<&'a Json>>)
    ensures
        found(list, components(c.tree(), key@, depth as nat)),
    decreases depth, 0nat,
{
    let mut list: Vec<&'a Json> = Vec::new();
    list.push(c);
    assert(referred_trees(list@) =~= seq![c.tree()]);
    match c.get(key) {
        Some(value) => match value.as_list() {
            Some(items) => {
                if depth == 0 {
                    return None;
                }
                match collect_in(items, key, depth - 1) {
                    Some(inner) => {
                        let mut rest = inner;
                        let ghost more = rest@;
                        list.append(&mut rest);
                        assert(referred_trees(list@) =~= seq![c.tree()] + referred_trees(more));
                        Some(list)
                    },
                    None => None,
                }
            },
            None => Some(list),
        },
        None => Some(list),
    }
}

fn collect_in<'a>(items: &'a Vec<Json>, key: &str, depth: usize) -> (list: Option<Vec<&'a Json>>)
    ensures
        found(list, components_in(item_trees(items@), key@, depth as nat)),
    decreases depth, 1nat,
{
    let ghost trees = item_trees(items@);
    let mut list: Option<Vec<&'a Json>> = Some(Vec::new());
    assert(referred_trees(list->0@) =~= Seq::<JsonTree>::empty());
    let mut i: usize = 0;
    while i < items.len()
        invariant
            i <= items@.len(),
            trees == item_trees(items@),
            found(list, components_in(trees.take(i as int), key@, depth as nat)),
        decreases items@.len() - i,
    {
        proof {
            let seen = trees.take(i + 1);
            assert(seen.drop_last() =~= trees.take(i as int));
            assert(seen.last() == items@[i as int].tree());
        }
        list = match (list, collect(&items[i], key, depth)) {
            (Some(before), Some(inner)) => {
                let mut all = before;
                let mut more = inner;
                let ghost (front, back) = (all@, more@);
                all.append(&mut more);
                assert(referred_trees(all@) =~= referred_trees(front) + referred_trees(back));
                Some(all)
            },
            _ => None,
        };
        i = i + 1;
    }
    assert(trees.take(i as int) =~= trees);
    list
}

/// The text that a pattern looks for, for a pattern that is no regular expression.
pub open spec fn pattern_text(c: JsonTree) -> Option<Seq<char>> {
    match (c.get2("pattern"@, "Regex"@), c.get2("pattern"@, "String"@)) {
        (None, Some(text)) => text.as_text(),
        _ => None,
    }
}

fn read_pattern(c: &Json) -> (text: Option<&str>)
    ensures
        match text {
            Some(t) => pattern_text(c.tree()) == Some(t@),
            None => pattern_text(c.tree()) is None,
        },
{
    match (c.get2("pattern", "Regex"), c.get2("pattern", "String")) {
        (None, Some(text)) => text.as_text(),
        _ => None,
    }
}

/// Whether a component is written as an object, or as null where there is none.
pub open spec fn named_fields(c: JsonTree) -> bool {
    c is Object || c is Null
}

fn has_named_fields(c: &Json) -> (result: bool)
    ensures
        result == named_fields(c.tree()),
{
    match c {
        Json::Object(_) => true,
        Json::Null => true,
        _ => false,
    }
}

/// Whether a component has named fields, and no pattern or one that is no regular expression.
pub open spec fn plain(c: JsonTree) -> bool {
    named_fields(c) && (c.get("pattern"@) is Some ==> pattern_text(c) is Some)
}

fn is_plain(c: &Json) -> (result: bool)
    ensures
        result == plain(c.tree()),
{
    has_named_fields(c) && (c.get("pattern").is_none() || read_pattern(c).is_some())
}

/// Whether a field is missing or holds a text that is not empty.
pub open spec fn absent_or_text(value: Option<JsonTree>) -> bool {
    match value {
        Some(v) => v.as_text() is Some && v.as_text()->0.len() > 0,
        None => true,
    }
}

/// Whether a normalizer keeps each character of its output tied to a character of its input: it has
/// named fields, is not precompiled, replaces no empty text and no regular expression, and prepends
/// no empty text.
pub open spec fn normalizes_soundly(c: JsonTree) -> bool {
    &&& named_fields(c)
    &&& text_at(c, "type"@) != Some("Precompiled"@)
    &&& c.get("precompiled_charsmap"@) is None
    &&& c.get("pattern"@) is Some ==> pattern_text(c) is Some && pattern_text(c)->0.len() > 0
    &&& absent_or_text(c.get("prepend"@))
}

fn is_sound_normalizer(c: &Json) -> (result: bool)
    ensures
        result == normalizes_soundly(c.tree()),
{
    let precompiled = match c.text_at("type") {
        Some(kind) => same(kind, "Precompiled"),
        None => false,
    };
    let pattern = match c.get("pattern") {
        Some(_) => match read_pattern(c) {
            Some(text) => !text.is_empty(),
            None => false,
        },
        None => true,
    };
    let prepend = match c.get("prepend") {
        Some(value) => match value.as_text() {
            Some(text) => !text.is_empty(),
            None => false,
        },
        None => true,
    };
    has_named_fields(c) && !precompiled && c.get("precompiled_charsmap").is_none() && pattern && prepend
}

/// The field of a file, null where it is missing.
pub open spec fn field_of(file: JsonTree, key: Seq<char>) -> JsonTree {
    match file.get(key) {
        Some(value) => value,
        None => JsonTree::Null,
    }
}

fn read_field<'a>(file: &'a Json, key: &str, null: &'a Json) -> (value: &'a Json)
    requires
        null.tree() == JsonTree::Null,
    ensures
        value.tree() == field_of(file.tree(), key@),
{
    match file.get(key) {
        Some(value) => value,
        None => null,
    }
}

/// Whether every normalizer of a list is sound.
pub open spec fn all_normalize_soundly(parts: Seq<JsonTree>) -> bool {
    forall|i: int| 0 <= i < parts.len() ==> normalizes_soundly(#[trigger] parts[i])
}

/// Whether the normalizers of a file are sound.
pub open spec fn normalizers_sound(file: JsonTree) -> bool {
    match components(field_of(file, "normalizer"@), "normalizers"@, MAX_NESTING as nat) {
        Some(parts) => all_normalize_soundly(parts),
        None => false,
    }
}

fn check_normalizers(file: &Json) -> (sound: bool)
    ensures
        sound == normalizers_sound(file.tree()),
{
    let null = Json::Null;
    let parts = match collect(read_field(file, "normalizer", &null), "normalizers", MAX_NESTING) {
        Some(parts) => parts,
        None => {
            return false;
        },
    };
    let ghost trees = referred_trees(parts@);
    let mut i: usize = 0;
    while i < parts.len()
        invariant
            i <= parts@.len(),
            trees == referred_trees(parts@),
            components(field_of(file.tree(), "normalizer"@), "normalizers"@, MAX_NESTING as nat)
                == Some(trees),
            forall|j: int| 0 <= j < i ==> normalizes_soundly(#[trigger] trees[j]),
        decreases parts@.len() - i,
    {
        assert(trees[i as int] == parts@[i as int].tree());
        if !is_sound_normalizer(parts[i]) {
            assert(!all_normalize_soundly(trees));
            return false;
        }
        i = i + 1;
    }
    true
}

/// Whether no component of a list holds a regular expression.
pub open spec fn all_plain(parts: Seq<JsonTree>) -> bool {
    forall|i: int| 0 <= i < parts.len() ==> plain(#[trigger] parts[i])
}

/// Whether no component of a kind holds a regular expression.
pub open spec fn components_plain(file: JsonTree, kind: Seq<char>, key: Seq<char>) -> bool {
    match components(field_of(file, kind), key, MAX_NESTING as nat) {
        Some(parts) => all_plain(parts),
        None => false,
    }
}

fn check_plain(file: &Json, kind: &str, key: &str) -> (sound: bool)
    ensures
        sound == components_plain(file.tree(), kind@, key@),
{
    let null = Json::Null;
    let parts = match collect(read_field(file, kind, &null), key, MAX_NESTING) {
        Some(parts) => parts,
        None => {
            return false;
        },
    };
    let ghost trees = referred_trees(parts@);
    let mut i: usize = 0;
    while i < parts.len()
        invariant
            i <= parts@.len(),
            trees == referred_trees(parts@),
            components(field_of(file.tree(), kind@), key@, MAX_NESTING as nat) == Some(trees),
            forall|j: int| 0 <= j < i ==> plain(#[trigger] trees[j]),
        decreases parts@.len() - i,
    {
        assert(trees[i as int] == parts@[i as int].tree());
        if !is_plain(parts[i]) {
            assert(!all_plain(trees));
            return false;
        }
        i = i + 1;
    }
    true
}

/// The second part of a merge: of a pair its second text, of a text what follows the first space.
pub open spec fn merge_end(merge: JsonTree) -> Option<Seq<char>> {
    match merge {
        JsonTree::List(pair) => if pair.len() == 2 {
            pair[1].as_text()
        } else {
            None
        },
        JsonTree::Text(line) => match cut_once(line, " "@) {
            Some((_, after)) => Some(after),
            None => None,
        },
        _ => None,
    }
}

/// Whether a merge can be carried out: its second part can be cut after as many bytes as the
/// prefix has that marks what continues a word.
pub open spec fn merges_soundly(merge: JsonTree, prefix: Seq<char>) -> bool {
    match merge_end(merge) {
        Some(end) => is_char_boundary(encode_utf8(end), encode_utf8(prefix).len() as int),
        None => true,
    }
}

fn cuts_at(end: &str, at: usize) -> (result: bool)
    ensures
        result == is_char_boundary(encode_utf8(end@), at as int),
{
    end.is_char_boundary(at)
}

fn is_sound_merge(merge: &Json, prefix: &str) -> (result: bool)
    ensures
        result == merges_soundly(merge.tree(), prefix@),
{
    let at: usize = prefix.as_bytes().len();
    match merge {
        Json::List(pair) => {
            proof {
                crate::json::lemma_list_tree(*pair);
            }
            if pair.len() == 2 {
                assert(item_trees(pair@)[1] == pair@[1].tree());
                match pair[1].as_text() {
                    Some(end) => cuts_at(end, at),
                    None => true,
                }
            } else {
                true
            }
        },
        Json::Text(line) => match split_once(line.as_str(), " ") {
            Some((_, after)) => cuts_at(after.as_str(), at),
            None => true,
        },
        _ => {
            proof {
                match merge {
                    Json::Object(fields) => {
                        lemma_object_tree(*fields);
                    },
                    _ => {},
                }
            }
            true
        },
    }
}

/// The prefix of a model that marks what continues a word; empty where it has none.
pub open spec fn prefix_of(model: JsonTree) -> Seq<char> {
    match text_at(model, "continuing_subword_prefix"@) {
        Some(prefix) => prefix,
        None => Seq::empty(),
    }
}

/// Whether every merge of a list can be carried out.
pub open spec fn all_merge_soundly(merges: Seq<JsonTree>, prefix: Seq<char>) -> bool {
    forall|i: int| 0 <= i < merges.len() ==> merges_soundly(#[trigger] merges[i], prefix)
}

/// Whether every merge of a file's model can be carried out.
pub open spec fn merges_sound(file: JsonTree) -> bool {
    let model = field_of(file, "model"@);
    match field_of(model, "merges"@).as_list() {
        Some(merges) => all_merge_soundly(merges, prefix_of(model)),
        None => true,
    }
}

fn check_merges(file: &Json) -> (sound: bool)
    ensures
        sound == merges_sound(file.tree()),
{
    let null = Json::Null;
    let model = read_field(file, "model", &null);
    let prefix: &str = match model.text_at("continuing_subword_prefix") {
        Some(prefix) => prefix,
        None => {
            proof {
                reveal_strlit("");
            }
            ""
        },
    };
    assert(prefix@ =~= prefix_of(model.tree()));
    let merges = match read_field(model, "merges", &null).as_list() {
        Some(merges) => merges,
        None => {
            return true;
        },
    };
    let ghost trees = item_trees(merges@);
    let mut i: usize = 0;
    while i < merges.len()
        invariant
            i <= merges@.len(),
            trees == item_trees(merges@),
            model.tree() == field_of(file.tree(), "model"@),
            field_of(model.tree(), "merges"@).as_list() == Some(trees),
            prefix@ == prefix_of(model.tree()),
            forall|j: int| 0 <= j < i ==> merges_soundly(#[trigger] trees[j], prefix@),
        decreases merges@.len() - i,
    {
        assert(trees[i as int] == merges@[i as int].tree());
        if !is_sound_merge(&merges[i], prefix) {
            assert(!all_merge_soundly(trees, prefix@));
            return false;
        }
        i = i + 1;
    }
    true
}

/// The tokens that a file adds to its vocabulary.
pub open spec fn added_tokens(file: JsonTree) -> Seq<JsonTree> {
    match field_of(file, "added_tokens"@).as_list() {
        Some(tokens) => tokens,
        None => Seq::empty(),
    }
}

/// Whether there are token ids to spare for the tokens that are added.
pub open spec fn ids_suffice(vocabulary: JsonTree, added: nat) -> bool {
    match vocabulary {
        JsonTree::Object(fields) => fields.len() + added <= u32::MAX && forall|i: int|
            0 <= i < fields.len() && (#[trigger] fields[i]).1.as_natural() is Some
                ==> fields[i].1.as_natural()->0 + added <= u32::MAX,
        JsonTree::List(items) => items.len() + added <= u32::MAX,
        _ => true,
    }
}

fn check_ids(vocabulary: &Json, added: usize) -> (suffice: bool)
    ensures
        suffice == ids_suffice(vocabulary.tree(), added as nat),
{
    let most: u64 = 0xffff_ffff;
    match vocabulary {
        Json::Object(fields) => {
            let ghost trees = field_trees(fields@);
            proof {
                lemma_object_tree(*fields);
            }
            if added as u64 > most || fields.len() as u64 > most - added as u64 {
                return false;
            }
            let mut i: usize = 0;
            while i < fields.len()
                invariant
                    i <= fields@.len(),
                    most == 0xffff_ffff,
                    added <= most,
                    trees == field_trees(fields@),
                    trees.len() + added <= most,
                    vocabulary.tree() == JsonTree::Object(trees),
                    forall|j: int|
                        0 <= j < i && (#[trigger] trees[j]).1.as_natural() is Some
                            ==> trees[j].1.as_natural()->0 + added <= most,
                decreases fields@.len() - i,
            {
                assert(trees[i as int] == (fields@[i as int].0@, fields@[i as int].1.tree()));
                match fields[i].1.as_natural() {
                    Some(id) => if id > most - added as u64 {
                        return false;
                    },
                    None => {},
                }
                i = i + 1;
            }
            true
        },
        Json::List(items) => {
            proof {
                crate::json::lemma_list_tree(*items);
            }
            added as u64 <= most && items.len() as u64 <= most - added as u64
        },
        _ => true,
    }
}

/// Why no tokenizer can be built of a file, if none can: a normalizer is not sound, a component holds
/// a regular expression, a merge cannot be carried out, or token ids run out.
pub open spec fn load_fault(file: JsonTree) -> Option<Seq<char>> {
    if !normalizers_sound(file) {
        Some("tokenizer has a normalizer that is not supported"@)
    } else if !components_plain(file, "pre_tokenizer"@, "pretokenizers"@) || !components_plain(
        file,
        "decoder"@,
        "decoders"@,
    ) {
        Some("tokenizer has a regular expression"@)
    } else if !merges_sound(file) {
        Some("tokenizer has a merge that does not fit its prefix"@)
    } else if !ids_suffice(
        field_of(field_of(file, "model"@), "vocab"@),
        added_tokens(file).len(),
    ) {
        Some("tokenizer has too large a token id"@)
    } else {
        None
    }
}

fn count_added(file: &Json) -> (count: usize)
    ensures
        count == added_tokens(file.tree()).len(),
{
    let null = Json::Null;
    match read_field(file, "added_tokens", &null).as_list() {
        Some(tokens) => tokens.len(),
        None => 0,
    }
}

/// Why no tokenizer can be built of a file, if none can.
pub fn find_load_fault(file: &Json) -> (fault: Option<String>)
    ensures
        match fault {
            Some(told) => load_fault(file.tree()) == Some(told@),
            None => load_fault(file.tree()) is None,
        },
{
    let null = Json::Null;
    if !check_normalizers(file) {
        return Some(owned("tokenizer has a normalizer that is not supported"));
    }
    if !check_plain(file, "pre_tokenizer", "pretokenizers") || !check_plain(
        file,
        "decoder",
        "decoders",
    ) {
        return Some(owned("tokenizer has a regular expression"));
    }
    if !check_merges(file) {
        return Some(owned("tokenizer has a merge that does not fit its prefix"));
    }
    let vocabulary = read_field(read_field(file, "model", &null), "vocab", &null);
    if !check_ids(vocabulary, count_added(file)) {
        return Some(owned("tokenizer has too large a token id"));
    }
    None
}

/// Whether a token has a property.
pub open spec fn flagged(token: JsonTree, key: Seq<char>) -> bool {
    token.get(key) == Some(JsonTree::Bool(true))
}

fn is_flagged(token: &Json, key: &str) -> (result: bool)
    ensures
        result == flagged(token.tree(), key@),
{
    match token.get(key) {
        Some(value) => match value.as_bool() {
            Some(b) => b,
            None => false,
        },
        None => false,
    }
}

/// Whether some added token has a property.
pub open spec fn some_flagged(tokens: Seq<JsonTree>, key: Seq<char>) -> bool {
    exists|i: int| 0 <= i < tokens.len() && flagged(#[trigger] tokens[i], key)
}

fn has_flagged(tokens: &Vec<Json>, key: &str) -> (result: bool)
    ensures
        result == some_flagged(item_trees(tokens@), key@),
{
    let ghost trees = item_trees(tokens@);
    let mut i: usize = 0;
    while i < tokens.len()
        invariant
            i <= tokens@.len(),
            trees == item_trees(tokens@),
            forall|j: int| 0 <= j < i ==> !flagged(#[trigger] trees[j], key@),
        decreases tokens@.len() - i,
    {
        assert(trees[i as int] == tokens@[i as int].tree());
        if is_flagged(&tokens[i], key) {
            return true;
        }
        i = i + 1;
    }
    false
}

/// Whether a text holds an ASCII letter or digit.
pub open spec fn has_ascii_word(text: Seq<char>) -> bool {
    exists|i: int| 0 <= i < text.len() && is_ascii_alphanumeric(#[trigger] text[i])
}

/// Whether something is left of an added token once it is normalized: no normalizer looks at it,
/// or it holds a letter or digit and no normalizer replaces texts.
pub open spec fn survives(token: JsonTree, normalized: bool, replaces: bool) -> bool {
    normalized && flagged(token, "normalized"@) ==> !replaces && match text_at(token, "content"@) {
        Some(content) => content.len() == 0 || has_ascii_word(content),
        None => true,
    }
}

fn holds_ascii_word(text: &str) -> (result: bool)
    ensures
        result == has_ascii_word(text@),
{
    let chars = chars_of(text);
    let mut i: usize = 0;
    while i < chars.len()
        invariant
            i <= chars@.len(),
            chars@ == text@,
            forall|j: int| 0 <= j < i ==> !is_ascii_alphanumeric(#[trigger] text@[j]),
        decreases chars@.len() - i,
    {
        let c = chars[i];
        assert(c == text@[i as int]);
        if ('0' <= c && c <= '9') || ('a' <= c && c <= 'z') || ('A' <= c && c <= 'Z') {
            return true;
        }
        i = i + 1;
    }
    false
}

fn is_surviving(token: &Json, normalized: bool, replaces: bool) -> (result: bool)
    ensures
        result == survives(token.tree(), normalized, replaces),
{
    if !normalized || !is_flagged(token, "normalized") {
        return true;
    }
    if replaces {
        return false;
    }
    match token.text_at("content") {
        Some(content) => content.is_empty() || holds_ascii_word(content),
        None => true,
    }
}

/// Whether some component of a kind has a field.
pub open spec fn some_has(
    file: JsonTree,
    kind: Seq<char>,
    key: Seq<char>,
    field: Seq<char>,
) -> bool {
    match components(field_of(file, kind), key, MAX_NESTING as nat) {
        Some(parts) => exists|i: int|
            0 <= i < parts.len() && (#[trigger] parts[i]).get(field) is Some,
        None => false,
    }
}

fn find_field(file: &Json, kind: &str, key: &str, field: &str) -> (result: bool)
    ensures
        result == some_has(file.tree(), kind@, key@, field@),
{
    let null = Json::Null;
    let parts = match collect(read_field(file, kind, &null), key, MAX_NESTING) {
        Some(parts) => parts,
        None => {
            return false;
        },
    };
    let ghost trees = referred_trees(parts@);
    let mut i: usize = 0;
    while i < parts.len()
        invariant
            i <= parts@.len(),
            trees == referred_trees(parts@),
            components(field_of(file.tree(), kind@), key@, MAX_NESTING as nat) == Some(trees),
            forall|j: int| 0 <= j < i ==> (#[trigger] trees[j]).get(field@) is None,
        decreases parts@.len() - i,
    {
        assert(trees[i as int] == parts@[i as int].tree());
        if parts[i].get(field).is_some() {
            return true;
        }
        i = i + 1;
    }
    false
}

/// Whether some pre-tokenizer of a file cuts texts into pieces of no length.
pub open spec fn cuts_to_nothing(file: JsonTree) -> bool {
    match components(field_of(file, "pre_tokenizer"@), "pretokenizers"@, MAX_NESTING as nat) {
        Some(parts) => exists|i: int|
            0 <= i < parts.len() && (#[trigger] parts[i]).get("length"@) == Some(
                JsonTree::Natural(0),
            ),
        None => false,
    }
}

fn find_empty_cut(file: &Json) -> (result: bool)
    ensures
        result == cuts_to_nothing(file.tree()),
{
    let null = Json::Null;
    let pre_tokenizer = read_field(file, "pre_tokenizer", &null);
    let parts = match collect(pre_tokenizer, "pretokenizers", MAX_NESTING) {
        Some(parts) => parts,
        None => {
            return false;
        },
    };
    let ghost trees = referred_trees(parts@);
    let mut i: usize = 0;
    while i < parts.len()
        invariant
            i <= parts@.len(),
            trees == referred_trees(parts@),
            components(
                field_of(file.tree(), "pre_tokenizer"@),
                "pretokenizers"@,
                MAX_NESTING as nat,
            ) == Some(trees),
            forall|j: int|
                0 <= j < i ==> (#[trigger] trees[j]).get("length"@) != Some(JsonTree::Natural(0)),
        decreases parts@.len() - i,
    {
        assert(trees[i as int] == parts@[i as int].tree());
        match parts[i].get("length") {
            Some(length) => match length.as_natural() {
                Some(n) => if n == 0 {
                    return true;
                },
                None => {},
            },
            None => {},
        }
        i = i + 1;
    }
    false
}

/// Whether every added token of a file leaves something once it is normalized.
pub open spec fn tokens_survive(file: JsonTree) -> bool {
    let normalized = field_of(file, "normalizer"@) != JsonTree::Null;
    let replaces = some_has(file, "normalizer"@, "normalizers"@, "pattern"@);
    forall|i: int|
        0 <= i < added_tokens(file).len() ==> survives(
            #[trigger] added_tokens(file)[i],
            normalized,
            replaces,
        )
}

/// Why texts cannot be encoded with the tokenizer of a file, if they cannot: a pre-tokenizer asks
/// for pieces of no length, added tokens take spaces from both their sides, or one of them
/// normalizes to nothing.
pub open spec fn encode_fault(file: JsonTree) -> Option<Seq<char>> {
    if cuts_to_nothing(file) {
        Some("tokenizer cuts texts into pieces of no length"@)
    } else if some_flagged(added_tokens(file), "lstrip"@) && some_flagged(
        added_tokens(file),
        "rstrip"@,
    ) {
        Some("tokenizer strips spaces on both sides of added tokens"@)
    } else if !tokens_survive(file) {
        Some("tokenizer has an added token that normalizes to nothing"@)
    } else {
        None
    }
}

fn check_survival(file: &Json, tokens: &Vec<Json>) -> (survive: bool)
    requires
        added_tokens(file.tree()) == item_trees(tokens@),
    ensures
        survive == tokens_survive(file.tree()),
{
    let null = Json::Null;
    let normalized = match read_field(file, "normalizer", &null) {
        Json::Null => false,
        _ => true,
    };
    let replaces = find_field(file, "normalizer", "normalizers", "pattern");
    let ghost trees = item_trees(tokens@);
    let mut i: usize = 0;
    while i < tokens.len()
        invariant
            i <= tokens@.len(),
            trees == item_trees(tokens@),
            trees == added_tokens(file.tree()),
            normalized == (field_of(file.tree(), "normalizer"@) != JsonTree::Null),
            replaces == some_has(file.tree(), "normalizer"@, "normalizers"@, "pattern"@),
            forall|j: int| 0 <= j < i ==> survives(#[trigger] trees[j], normalized, replaces),
        decreases tokens@.len() - i,
    {
        assert(trees[i as int] == tokens@[i as int].tree());
        if !is_surviving(&tokens[i], normalized, replaces) {
            assert(!survives(added_tokens(file.tree())[i as int], normalized, replaces));
            return false;
        }
        i = i + 1;
    }
    true
}

/// Why texts cannot be encoded with the tokenizer of a file, if they cannot.
pub fn find_encode_fault(file: &Json) -> (fault: Option<String>)
    ensures
        match fault {
            Some(told) => encode_fault(file.tree()) == Some(told@),
            None => encode_fault(file.tree()) is None,
        },
{
    if find_empty_cut(file) {
        return Some(owned("tokenizer cuts texts into pieces of no length"));
    }
    let null = Json::Null;
    match read_field(file, "added_tokens", &null).as_list() {
        Some(tokens) => {
            if has_flagged(tokens, "lstrip") && has_flagged(tokens, "rstrip") {
                return Some(owned("tokenizer strips spaces on both sides of added tokens"));
            }
            if !check_survival(file, tokens) {
                return Some(owned("tokenizer has an added token that normalizes to nothing"));
            }
        },
        None => {},
    }
    None
}

/// The components of a tokenizer part are the part itself and, where it lists others, theirs: none
/// is passed over, however deep, and what is nested too deep is not taken at all.
pub proof fn law_no_component_is_passed_over(
    c: JsonTree,
    key: Seq<char>,
    depth: nat,
    items: Seq<JsonTree>,
    i: int,
)
    requires
        components(c, key, depth) is Some,
    ensures
        components(c, key, depth)->0.contains(c),
        c.get(key) == Some(JsonTree::List(items)) && 0 <= i < items.len() ==> depth > 0
            && components(items[i], key, (depth - 1) as nat) is Some && forall|x: JsonTree| #[trigger]
            components(items[i], key, (depth - 1) as nat)->0.contains(x) ==> components(
                c,
                key,
                depth,
            )->0.contains(x),
{
    let all = components(c, key, depth)->0;
    assert(all[0] == c);
    if c.get(key) == Some(JsonTree::List(items)) && 0 <= i < items.len() {
        let inner = components_in(items, key, (depth - 1) as nat)->0;
        lemma_components_in(items, key, (depth - 1) as nat, i);
        assert forall|x: JsonTree| #[trigger]
            components(items[i], key, (depth - 1) as nat)->0.contains(x) implies all.contains(
            x,
        ) by {
            let k = choose|k: int| 0 <= k < inner.len() && inner[k] == x;
            assert(all[k + 1] == x);
        }
    }
}

proof fn lemma_components_in(items: Seq<JsonTree>, key: Seq<char>, depth: nat, i: int)
    requires
        components_in(items, key, depth) is Some,
        0 <= i < items.len(),
    ensures
        components(items[i], key, depth) is Some,
        forall|x: JsonTree| #[trigger]
            components(items[i], key, depth)->0.contains(x) ==> components_in(
                items,
                key,
                depth,
            )->0.contains(x),
    decreases items.len(),
{
    let rest = items.drop_last();
    let all = components_in(items, key, depth)->0;
    let before = components_in(rest, key, depth)->0;
    let last = components(items.last(), key, depth)->0;
    assert(all == before + last);
    if i < rest.len() {
        assert(rest[i] == items[i]);
        lemma_components_in(rest, key, depth, i);
        assert forall|x: JsonTree| #[trigger]
            components(items[i], key, depth)->0.contains(x) implies all.contains(x) by {
            let k = choose|k: int| 0 <= k < before.len() && before[k] == x;
            assert(all[k] == x);
        }
    } else {
        assert forall|x: JsonTree| #[trigger]
            components(items[i], key, depth)->0.contains(x) implies all.contains(x) by {
            let k = choose|k: int| 0 <= k < last.len() && last[k] == x;
            assert(all[before.len() + k] == x);
        }
    }
}

/// A tokenizer is not loaded with a part that its code cannot be trusted with: a precompiled
/// normalizer, a normalizer that replaces nothing by something, or a regular expression, wherever
/// it stands.
pub proof fn law_unsound_parts_are_not_loaded(file: JsonTree, parts: Seq<JsonTree>, i: int)
    requires
        0 <= i < parts.len(),
    ensures
        components(field_of(file, "normalizer"@), "normalizers"@, 128) == Some(parts) && (text_at(
            parts[i],
            "type"@,
        ) == Some("Precompiled"@) || parts[i].get("precompiled_charsmap"@) is Some
            || parts[i].get2("pattern"@, "Regex"@) is Some || parts[i].get2("pattern"@, "String"@)
            == Some(JsonTree::Text(Seq::empty())) || parts[i].get("prepend"@) == Some(
            JsonTree::Text(Seq::empty()),
        )) ==> load_fault(file) is Some,
        components(field_of(file, "pre_tokenizer"@), "pretokenizers"@, 128) == Some(parts)
            && parts[i].get2("pattern"@, "Regex"@) is Some ==> load_fault(file) is Some,
        components(field_of(file, "decoder"@), "decoders"@, 128) == Some(parts) && parts[i].get2(
            "pattern"@,
            "Regex"@,
        ) is Some ==> load_fault(file) is Some,
        components(field_of(file, "normalizer"@), "normalizers"@, 128) is None ==> load_fault(file)
            is Some,
{
    if components(field_of(file, "normalizer"@), "normalizers"@, 128) == Some(parts) {
        if all_normalize_soundly(parts) {
            assert(normalizes_soundly(parts[i]));
        }
    }
    if components(field_of(file, "pre_tokenizer"@), "pretokenizers"@, 128) == Some(parts) {
        if all_plain(parts) {
            assert(plain(parts[i]));
        }
    }
    if components(field_of(file, "decoder"@), "decoders"@, 128) == Some(parts) {
        if all_plain(parts) {
            assert(plain(parts[i]));
        }
    }
}

/// A tokenizer whose ids leave no room for its added tokens is not loaded.
pub proof fn law_ids_leave_room_for_added_tokens(
    file: JsonTree,
    fields: Seq<(Seq<char>, JsonTree)>,
    tokens: Seq<JsonTree>,
    i: int,
    n: u64,
)
    requires
        field_of(field_of(file, "model"@), "vocab"@) == JsonTree::Object(fields),
        file.get("added_tokens"@) == Some(JsonTree::List(tokens)),
        0 <= i < fields.len(),
        fields[i].1 == JsonTree::Natural(n),
        n + tokens.len() > u32::MAX,
    ensures
        load_fault(file) is Some,
{
    if ids_suffice(JsonTree::Object(fields), tokens.len()) {
        assert(fields[i].1.as_natural() is Some);
    }
}

/// A tokenizer that cuts texts into pieces of no length, or strips spaces on both sides of its
/// added tokens, encodes nothing.
pub proof fn law_tearing_tokenizers_encode_nothing(
    file: JsonTree,
    parts: Seq<JsonTree>,
    tokens: Seq<JsonTree>,
    i: int,
    j: int,
)
    ensures
        components(field_of(file, "pre_tokenizer"@), "pretokenizers"@, 128) == Some(parts) && 0 <= i
            < parts.len() && parts[i].get("length"@) == Some(JsonTree::Natural(0)) ==> encode_fault(
            file,
        ) is Some,
        file.get("added_tokens"@) == Some(JsonTree::List(tokens)) && 0 <= i < tokens.len() && 0 <= j
            < tokens.len() && tokens[i].get("lstrip"@) == Some(JsonTree::Bool(true))
            && tokens[j].get("rstrip"@) == Some(JsonTree::Bool(true)) ==> encode_fault(file)
            is Some,
{
    if file.get("added_tokens"@) == Some(JsonTree::List(tokens)) && 0 <= i < tokens.len() && 0 <= j
        < tokens.len() {
        assert(flagged(tokens[i], "lstrip"@) == (tokens[i].get("lstrip"@) == Some(
            JsonTree::Bool(true),
        )));
        assert(flagged(tokens[j], "rstrip"@) == (tokens[j].get("rstrip"@) == Some(
            JsonTree::Bool(true),
        )));
    }
}

/// A merge whose second half cannot be cut at the length of the prefix is not loaded, in either
/// way of writing it.
pub proof fn law_merges_fit_their_prefix(
    file: JsonTree,
    model: JsonTree,
    merges: Seq<JsonTree>,
    prefix: Seq<char>,
    i: int,
    first: Seq<char>,
    end: Seq<char>,
)
    requires
        file.get("model"@) == Some(model),
        model.get("merges"@) == Some(JsonTree::List(merges)),
        model.get("continuing_subword_prefix"@) == Some(JsonTree::Text(prefix)),
        0 <= i < merges.len(),
        merges[i] == JsonTree::List(seq![JsonTree::Text(first), JsonTree::Text(end)]) || (merges[i]
            matches JsonTree::Text(line) && cut_once(line, " "@) == Some((first, end))),
        !is_char_boundary(encode_utf8(end), encode_utf8(prefix).len() as int),
    ensures
        load_fault(file) is Some,
{
    if all_merge_soundly(merges, prefix) {
        assert(merges_soundly(merges[i], prefix));
    }
}

/// An added token that a normalizer may wipe out encodes nothing: one that is normalized and holds
/// no letter or digit of its own.
pub proof fn law_added_tokens_survive_the_normalizer(
    file: JsonTree,
    normalizer: JsonTree,
    tokens: Seq<JsonTree>,
    i: int,
    content: Seq<char>,
)
    requires
        file.get("normalizer"@) == Some(normalizer),
        normalizer != JsonTree::Null,
        file.get("added_tokens"@) == Some(JsonTree::List(tokens)),
        0 <= i < tokens.len(),
        tokens[i].get("normalized"@) == Some(JsonTree::Bool(true)),
        tokens[i].get("content"@) == Some(JsonTree::Text(content)),
        content.len() > 0,
        forall|k: int|
            0 <= k < content.len() ==> !('0' <= #[trigger] content[k] <= '9') && !('a' <= content[k]
                <= 'z') && !('A' <= content[k] <= 'Z'),
    ensures
        encode_fault(file) is Some,
{
    if tokens_survive(file) {
        let replaces = some_has(file, "normalizer"@, "normalizers"@, "pattern"@);
        assert(added_tokens(file) == tokens);
        assert(survives(added_tokens(file)[i], true, replaces));
        assert(has_ascii_word(content));
    }
}

} // verus!
