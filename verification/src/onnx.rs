//! What surrounds a sentence model: the tensors that it is given, and the token vectors that are
//! pooled from its output.

use crate::json::{item_trees, parse, parsed, render, rendered, text_at, Json, JsonTree};
use crate::text::{owned, same};
use crate::tokenizer_file::{
    encode_fault, find_encode_fault, find_load_fault, load_fault, MAX_NESTING,
};
use vstd::prelude::*;

verus! {

/// The hidden size of the model.
pub const ONNX_EMBED_DIM: usize = 384;

/// How many tokens of a text are looked at.
pub const MAX_TOKENS: usize = 256;

/// The input tensors of the model: one row of `width` numbers each.
#[derive(Debug, PartialEq)]
pub struct ModelInput {
    pub width: usize,
    pub ids: Vec<i64>,
    pub mask: Vec<i64>,
    pub type_ids: Vec<i64>,
}

/// Numbers as the model takes them.
pub open spec fn widened(numbers: Seq<u32>) -> Seq<i64> {
    Seq::new(numbers.len(), |i: int| numbers[i] as i64)
}

fn widen(numbers: &Vec<u32>) -> (wide: Vec<i64>)
    ensures
        wide@ == widened(numbers@),
{
    let mut wide: Vec<i64> = Vec::new();
    let mut i: usize = 0;
    while i < numbers.len()
        invariant
            i <= numbers@.len(),
            wide@ == widened(numbers@.take(i as int)),
        decreases numbers@.len() - i,
    {
        wide.push(numbers[i] as i64);
        assert(wide@ =~= widened(numbers@.take(i + 1)));
        i = i + 1;
    }
    assert(numbers@.take(i as int) =~= numbers@);
    wide
}

/// An encoded text: for each token its id, whether it counts, and which text it belongs to.
#[derive(Debug, PartialEq)]
pub struct Encoded {
    pub ids: Vec<u32>,
    pub mask: Vec<u32>,
    pub type_ids: Vec<u32>,
}

/// Whether input tensors hold an encoded text: the rows are as wide as there are tokens, but at
/// least one wide.
pub open spec fn frames(
    input: ModelInput,
    ids: Seq<u32>,
    mask: Seq<u32>,
    type_ids: Seq<u32>,
) -> bool {
    &&& input.width == if ids.len() == 0 {
        1
    } else {
        ids.len()
    }
    &&& input.ids@ == widened(ids)
    &&& input.mask@ == widened(mask)
    &&& input.type_ids@ == widened(type_ids)
}

/// The input tensors for an encoded text.
pub fn model_input(encoded: &Encoded) -> (input: ModelInput)
    ensures
        frames(input, encoded.ids@, encoded.mask@, encoded.type_ids@),
{
    let width: usize = if encoded.ids.len() == 0 {
        1
    } else {
        encoded.ids.len()
    };
    ModelInput {
        width,
        ids: widen(&encoded.ids),
        mask: widen(&encoded.mask),
        type_ids: widen(&encoded.type_ids),
    }
}

/// A tokenizer with its vocabulary, of the crate `tokenizers`.
#[verifier::external_type_specification]
#[verifier::external_body]
pub struct ExTokenizer(tokenizers::Tokenizer);

/// What `tokenizers::Tokenizer::from_bytes` reads in the text of a tokenizer file, as JSON text: a
/// list of how many tokens its post-processor adds to a single text, the post-processor, and the
/// padding, each null where there is none; or the text of the error.
pub uninterp spec fn tokenizer_in(text: Seq<char>) -> Result<Seq<char>, Seq<char>>;

/// What can come of encoding a text with the tokenizer of a file, cut at a number of tokens: the
/// ids, the mask and the type ids of the tokens, or the text of an error. A model with dropout
/// draws its merges at random, so a text can have several outcomes.
pub uninterp spec fn encodes(
    file: Seq<char>,
    limit: usize,
    text: Seq<char>,
    outcome: Result<(Seq<u32>, Seq<u32>, Seq<u32>), Seq<char>>,
) -> bool;

/// Whether a piece of a template can be filled in: the first text, the second where there are two,
/// or a special token that the post-processor knows.
pub open spec fn piece_fits(processor: JsonTree, piece: JsonTree, texts: nat) -> bool {
    match (piece.get("Sequence"@), piece.get("SpecialToken"@)) {
        (Some(sequence), _) => text_at(sequence, "id"@) == Some("A"@) || texts == 2,
        (None, Some(token)) => match text_at(token, "id"@) {
            Some(id) => processor.get2("special_tokens"@, id) is Some,
            None => false,
        },
        (None, None) => false,
    }
}

/// How many texts a template makes of some: one of each piece, where every piece can be filled in.
pub open spec fn template_texts(processor: JsonTree, template: Seq<char>, texts: nat) -> Option<
    nat,
> {
    match processor.get(template) {
        Some(pieces) => match pieces.as_list() {
            Some(list) => if forall|i: int|
                0 <= i < list.len() ==> piece_fits(processor, #[trigger] list[i], texts) {
                Some(list.len())
            } else {
                None
            },
            None => None,
        },
        None => None,
    }
}

/// How many texts a post-processor makes of some; `None` where it cannot take that many. A template
/// takes one text or two, a sequence runs its parts in turn, and any other keeps their number.
pub open spec fn texts_after(processor: JsonTree, texts: nat, depth: nat) -> Option<nat>
    decreases depth, 0nat,
{
    if text_at(processor, "type"@) == Some("TemplateProcessing"@) {
        if texts == 1 {
            template_texts(processor, "single"@, texts)
        } else if texts == 2 {
            template_texts(processor, "pair"@, texts)
        } else {
            None
        }
    } else if text_at(processor, "type"@) == Some("Sequence"@) {
        match processor.get("processors"@) {
            Some(parts) => match parts.as_list() {
                Some(list) => if depth == 0 {
                    None
                } else {
                    texts_through(list, texts, (depth - 1) as nat)
                },
                None => None,
            },
            None => None,
        }
    } else {
        Some(texts)
    }
}

/// How many texts post-processors make of some, one after the other.
pub open spec fn texts_through(parts: Seq<JsonTree>, texts: nat, depth: nat) -> Option<nat>
    decreases depth, parts.len() + 1,
{
    if parts.len() == 0 {
        Some(texts)
    } else {
        match texts_through(parts.drop_last(), texts, depth) {
            Some(made) => texts_after(parts.last(), made, depth),
            None => None,
        }
    }
}

/// Whether a field holds no number that is too large to pad to.
pub open spec fn narrow(width: Option<JsonTree>) -> bool {
    match width {
        Some(value) => match value.as_natural() {
            Some(n) => n <= usize::MAX / 128,
            None => true,
        },
        None => true,
    }
}

/// How many tokens the tokenizer that a JSON list describes adds to a text.
pub open spec fn tokens_added(described: JsonTree) -> nat {
    match described.as_list() {
        Some(parts) => if parts.len() > 0 && parts[0].as_natural() is Some {
            parts[0].as_natural()->0 as nat
        } else {
            0
        },
        None => 0,
    }
}

/// Why texts cannot be finished with the tokenizer that a JSON list describes, if they cannot: its
/// post-processor cannot take a single text, or it pads beyond what fits in memory.
pub open spec fn finish_fault(described: JsonTree) -> Option<Seq<char>> {
    match described.as_list() {
        Some(parts) => if parts.len() != 3 {
            Some("tokenizer is not described"@)
        } else if texts_after(parts[1], 1, MAX_NESTING as nat) is None {
            Some("tokenizer cannot process a single text"@)
        } else if !narrow(parts[2].get2("strategy"@, "Fixed"@)) || !narrow(
            parts[2].get("pad_to_multiple_of"@),
        ) {
            Some("tokenizer pads too far"@)
        } else {
            None
        },
        None => Some("tokenizer is not described"@),
    }
}

/// The text of a tokenizer file as it is handed on: its JSON, written anew.
pub open spec fn written(file: Seq<char>) -> Seq<char> {
    match parsed(file) {
        Some(tree) => rendered(tree),
        None => Seq::empty(),
    }
}

/// What is read in a tokenizer file, for one that can be read.
pub open spec fn described(file: Seq<char>) -> JsonTree {
    match tokenizer_in(written(file)) {
        Ok(text) => match parsed(text) {
            Some(tree) => tree,
            None => JsonTree::Null,
        },
        Err(_) => JsonTree::Null,
    }
}

/// Whether a tokenizer can be built of a file, if the tokenizer crate takes it.
pub open spec fn loads(file: Seq<char>) -> bool {
    parsed(file) is Some && load_fault(parsed(file)->0) is None
}

/// Why a tokenizer file is refused at a number of tokens, if it is: it is no JSON, no tokenizer can
/// be built of it, the tokenizer crate does not take it, or its tokenizer adds more tokens than
/// there is room for.
pub open spec fn file_refusal(file: Seq<char>, limit: usize) -> Option<Seq<char>> {
    match parsed(file) {
        Some(tree) => match load_fault(tree) {
            Some(fault) => Some(fault),
            None => match tokenizer_in(written(file)) {
                Ok(_) => if tokens_added(described(file)) > limit {
                    Some("tokenizer adds more tokens than there is room for"@)
                } else {
                    None
                },
                Err(error) => Some(error),
            },
        },
        None => Some("tokenizer file is not JSON"@),
    }
}

/// Why texts cannot be encoded with the tokenizer of a file, if they cannot.
pub open spec fn encoding_fault(file: Seq<char>) -> Option<Seq<char>> {
    match encode_fault(parsed(file)->0) {
        Some(fault) => Some(fault),
        None => finish_fault(described(file)),
    }
}

/// Whether a text is that of a tokenizer file of which a tokenizer can be built.
pub open spec fn is_readable(text: Seq<char>) -> bool {
    exists|file: Seq<char>| #[trigger] written(file) == text && loads(file)
}

/// Whether a text is that of a tokenizer file with room for the tokens that are added.
pub open spec fn is_loadable(text: Seq<char>, limit: usize) -> bool {
    exists|file: Seq<char>| #[trigger] written(file) == text && file_refusal(file, limit) is None
}

/// Whether a text is that of a tokenizer file with which texts can be encoded.
pub open spec fn is_usable(text: Seq<char>, limit: usize) -> bool {
    exists|file: Seq<char>| #[trigger]
        written(file) == text && file_refusal(file, limit) is None && encoding_fault(file) is None
}

fn fits_piece(processor: &Json, piece: &Json, texts: usize) -> (fits: bool)
    ensures
        fits == piece_fits(processor.tree(), piece.tree(), texts as nat),
{
    match piece.get("Sequence") {
        Some(sequence) => {
            let first = match sequence.text_at("id") {
                Some(id) => same(id, "A"),
                None => false,
            };
            first || texts == 2
        },
        None => match piece.get("SpecialToken") {
            Some(token) => match token.text_at("id") {
                Some(id) => processor.get2("special_tokens", id).is_some(),
                None => false,
            },
            None => false,
        },
    }
}

/// Whether two optional counts are equal.
pub open spec fn counts(made: Option<usize>, count: Option<nat>) -> bool {
    match (made, count) {
        (Some(m), Some(c)) => m == c,
        (None, None) => true,
        _ => false,
    }
}

fn fill_template(processor: &Json, template: &str, texts: usize) -> (made: Option<usize>)
    ensures
        counts(made, template_texts(processor.tree(), template@, texts as nat)),
{
    let list = match processor.get(template) {
        Some(pieces) => match pieces.as_list() {
            Some(list) => list,
            None => {
                return None;
            },
        },
        None => {
            return None;
        },
    };
    let ghost trees = item_trees(list@);
    let mut i: usize = 0;
    while i < list.len()
        invariant
            i <= list@.len(),
            trees == item_trees(list@),
            processor.tree().get(template@) is Some,
            processor.tree().get(template@)->0.as_list() == Some(trees),
            forall|j: int|
                0 <= j < i ==> piece_fits(processor.tree(), #[trigger] trees[j], texts as nat),
        decreases list@.len() - i,
    {
        assert(trees[i as int] == list@[i as int].tree());
        if !fits_piece(processor, &list[i], texts) {
            return None;
        }
        i = i + 1;
    }
    Some(list.len())
}

fn run_processor(processor: &Json, texts: usize, depth: usize) -> (made: Option<usize>)
    ensures
        counts(made, texts_after(processor.tree(), texts as nat, depth as nat)),
    decreases depth, 0nat,
{
    let kind = match processor.text_at("type") {
        Some(kind) => kind,
        None => {
            return Some(texts);
        },
    };
    if same(kind, "TemplateProcessing") {
        if texts == 1 {
            fill_template(processor, "single", texts)
        } else if texts == 2 {
            fill_template(processor, "pair", texts)
        } else {
            None
        }
    } else if same(kind, "Sequence") {
        match processor.get("processors") {
            Some(parts) => match parts.as_list() {
                Some(list) => if depth == 0 {
                    None
                } else {
                    run_processors(list, texts, depth - 1)
                },
                None => None,
            },
            None => None,
        }
    } else {
        Some(texts)
    }
}

fn run_processors(parts: &Vec<Json>, texts: usize, depth: usize) -> (made: Option<usize>)
    ensures
        counts(made, texts_through(item_trees(parts@), texts as nat, depth as nat)),
    decreases depth, 1nat,
{
    let ghost trees = item_trees(parts@);
    let mut made: Option<usize> = Some(texts);
    let mut i: usize = 0;
    while i < parts.len()
        invariant
            i <= parts@.len(),
            trees == item_trees(parts@),
            counts(made, texts_through(trees.take(i as int), texts as nat, depth as nat)),
        decreases parts@.len() - i,
    {
        proof {
            let seen = trees.take(i + 1);
            assert(seen.drop_last() =~= trees.take(i as int));
            assert(seen.last() == parts@[i as int].tree());
        }
        made = match made {
            Some(count) => run_processor(&parts[i], count, depth),
            None => None,
        };
        i = i + 1;
    }
    assert(trees.take(i as int) =~= trees);
    made
}

fn is_narrow(width: Option<&Json>) -> (fits: bool)
    ensures
        fits == narrow(
            match width {
                Some(value) => Some(value.tree()),
                None => None,
            },
        ),
{
    match width {
        Some(value) => match value.as_natural() {
            Some(n) => n <= (usize::MAX / 128) as u64,
            None => true,
        },
        None => true,
    }
}

fn count_tokens(described: &Json) -> (added: u64)
    ensures
        added == tokens_added(described.tree()),
{
    match described.as_list() {
        Some(parts) => {
            if parts.len() == 0 {
                return 0;
            }
            assert(item_trees(parts@)[0] == parts@[0].tree());
            match parts[0].as_natural() {
                Some(added) => added,
                None => 0,
            }
        },
        None => 0,
    }
}

/// Why texts cannot be finished with the tokenizer that a JSON list describes, if they cannot.
pub fn find_finish_fault(described: &Json) -> (fault: Option<String>)
    ensures
        match fault {
            Some(told) => finish_fault(described.tree()) == Some(told@),
            None => finish_fault(described.tree()) is None,
        },
{
    let parts = match described.as_list() {
        Some(parts) => parts,
        None => {
            return Some(owned("tokenizer is not described"));
        },
    };
    let ghost trees = item_trees(parts@);
    if parts.len() != 3 {
        return Some(owned("tokenizer is not described"));
    }
    assert(trees[1] == parts@[1].tree() && trees[2] == parts@[2].tree());
    if run_processor(&parts[1], 1, MAX_NESTING).is_none() {
        return Some(owned("tokenizer cannot process a single text"));
    }
    if !is_narrow(parts[2].get2("strategy", "Fixed")) || !is_narrow(
        parts[2].get("pad_to_multiple_of"),
    ) {
        return Some(owned("tokenizer pads too far"));
    }
    None
}

/// The tokenizer of a file's text, which cuts a text at a number of tokens.
struct Loaded {
    tokenizer: tokenizers::Tokenizer,
    text: Ghost<Seq<char>>,
    limit: usize,
}

impl Loaded {
    /// The text of the tokenizer file.
    spec fn text(self) -> Seq<char> {
        self.text@
    }

    /// How many tokens of a text are looked at.
    spec fn limit(self) -> usize {
        self.limit
    }
}

/// `tokenizers::Tokenizer::from_bytes`, and of the tokenizer that it reads what
/// `PostProcessor::added_tokens` counts for a single text, `get_post_processor` and `get_padding`,
/// written down by `serde_json`. All of it is named [`tokenizer_in`]. The text is one that
/// `serde_json` wrote of a file of which a tokenizer can be built.
#[verifier::external_body]
fn describe(text: &String) -> (described: Result<String, String>)
    requires
        is_readable(text@),
    ensures
        match described {
            Ok(list) => tokenizer_in(text@) == Ok::<Seq<char>, Seq<char>>(list@),
            Err(error) => tokenizer_in(text@) == Err::<Seq<char>, Seq<char>>(error@),
        },
{
    let tokenizer = tokenizers::Tokenizer::from_bytes(text).map_err(|e| e.to_string())?;
    let processor = tokenizer.get_post_processor();
    let added = processor.map(|p| tokenizers::PostProcessor::added_tokens(p, false));
    let described = (added, processor, tokenizer.get_padding());
    serde_json::to_string(&described).map_err(|e| e.to_string())
}

/// `tokenizers::Tokenizer::from_bytes` and `with_truncation`, with no stride, from the right: the
/// tokenizer of a file's text, which cuts a text at a number of tokens. The text is one that
/// [`describe`] read, and there is room for the tokens that are added, so neither fails.
#[verifier::external_body]
fn load(text: &String, limit: usize) -> (loaded: Result<Loaded, String>)
    requires
        is_loadable(text@, limit),
    ensures
        match loaded {
            Ok(l) => l.text() == text@ && l.limit() == limit,
            Err(_) => false,
        },
{
    let mut tokenizer = tokenizers::Tokenizer::from_bytes(text).map_err(|e| e.to_string())?;
    let truncation = tokenizers::TruncationParams { max_length: limit, ..Default::default() };
    tokenizer.with_truncation(Some(truncation)).map_err(|e| e.to_string())?;
    Ok(Loaded { tokenizer, text: Ghost(text@), limit })
}

/// `tokenizers::Tokenizer::encode` of a single text, with the special tokens added; the text of the
/// error where it fails. Every outcome is one that [`encodes`] names, and its three rows are of one
/// length. A model with dropout draws its merges at random, so which outcome it is stays open.
#[verifier::external_body]
fn encode(loaded: &Loaded, text: &str) -> (encoded: Result<Encoded, String>)
    requires
        is_usable(loaded.text(), loaded.limit()),
    ensures
        match encoded {
            Ok(e) => e.mask@.len() == e.ids@.len() && e.type_ids@.len() == e.ids@.len() && encodes(
                loaded.text(),
                loaded.limit(),
                text@,
                Ok((e.ids@, e.mask@, e.type_ids@)),
            ),
            Err(error) => encodes(loaded.text(), loaded.limit(), text@, Err(error@)),
        },
{
    let tokens = loaded.tokenizer.encode(text, true).map_err(|e| e.to_string())?;
    Ok(Encoded {
        ids: tokens.get_ids().to_vec(),
        mask: tokens.get_attention_mask().to_vec(),
        type_ids: tokens.get_type_ids().to_vec(),
    })
}

/// A text encoder: the tokenizer of a file, and why texts cannot be encoded with it, if they
/// cannot.
pub struct TextEncoder {
    loaded: Loaded,
    file: Ghost<Seq<char>>,
    fault: Option<String>,
}

impl TextEncoder {
    /// The text of the tokenizer file.
    pub closed spec fn file(self) -> Seq<char> {
        self.file@
    }

    #[verifier::type_invariant]
    spec fn accepted(self) -> bool {
        &&& self.loaded.text() == written(self.file@)
        &&& self.loaded.limit() == MAX_TOKENS
        &&& file_refusal(self.file@, MAX_TOKENS) is None
        &&& match self.fault {
            Some(told) => encoding_fault(self.file@) == Some(told@),
            None => encoding_fault(self.file@) is None,
        }
    }

    /// The encoder of a tokenizer file, which looks at [`MAX_TOKENS`] tokens of a text. A file of
    /// which no tokenizer can be built is refused, and so is one whose tokenizer leaves no room for
    /// the text.
    pub fn from_text(file: &str) -> (encoder: Result<TextEncoder, String>)
        ensures
            match encoder {
                Ok(e) => e.file() == file@ && file_refusal(file@, MAX_TOKENS) is None,
                Err(told) => file_refusal(file@, MAX_TOKENS) == Some(told@),
            },
    {
        let tree = match parse(file) {
            Some(tree) => tree,
            None => {
                return Err(owned("tokenizer file is not JSON"));
            },
        };
        match find_load_fault(&tree) {
            Some(told) => {
                return Err(told);
            },
            None => {},
        }
        let text = render(&tree);
        assert(written(file@) == text@ && loads(file@));
        let list = match describe(&text) {
            Ok(list) => list,
            Err(error) => {
                return Err(error);
            },
        };
        let described = match parse(list.as_str()) {
            Some(described) => described,
            None => Json::Null,
        };
        assert(described.tree() == self::described(file@));
        if count_tokens(&described) > MAX_TOKENS as u64 {
            return Err(owned("tokenizer adds more tokens than there is room for"));
        }
        let fault = match find_encode_fault(&tree) {
            Some(told) => Some(told),
            None => find_finish_fault(&described),
        };
        assert(written(file@) == text@ && file_refusal(file@, MAX_TOKENS) is None);
        match load(&text, MAX_TOKENS) {
            Ok(loaded) => Ok(TextEncoder { loaded, file: Ghost(file@), fault }),
            Err(error) => Err(error),
        }
    }
}

/// Whether input tensors are an outcome of encoding a text: they hold the rows of an encoding, all
/// of one length.
pub open spec fn holds_encoding(
    input: ModelInput,
    file: Seq<char>,
    limit: usize,
    text: Seq<char>,
) -> bool {
    exists|ids: Seq<u32>, mask: Seq<u32>, type_ids: Seq<u32>|
        #![trigger frames(input, ids, mask, type_ids)]
        frames(input, ids, mask, type_ids) && mask.len() == ids.len() && type_ids.len() == ids.len()
            && encodes(file, limit, text, Ok((ids, mask, type_ids)))
}

/// The input tensors for a text: what the tokenizer makes of it, framed for the model. A tokenizer
/// with which texts cannot be encoded gives its fault.
pub fn encode_text(encoder: &TextEncoder, text: &str) -> (input: Result<ModelInput, String>)
    ensures
        match (encoding_fault(encoder.file()), input) {
            (Some(fault), Ok(_)) => false,
            (Some(fault), Err(told)) => told@ == fault,
            (None, Ok(tensors)) => holds_encoding(
                tensors,
                written(encoder.file()),
                MAX_TOKENS,
                text@,
            ),
            (None, Err(error)) => encodes(
                written(encoder.file()),
                MAX_TOKENS,
                text@,
                Err(error@),
            ),
        },
{
    proof {
        use_type_invariant(encoder);
    }
    match &encoder.fault {
        Some(told) => Err(owned(told.as_str())),
        None => {
            assert(written(encoder.file()) == encoder.loaded.text());
            let encoded = encode(&encoder.loaded, text);
            framed(encoded)
        },
    }
}

/// What a tokenizer's outcome gives the model: the input tensors for the encoded text, or the
/// tokenizer's own error where it failed.
pub fn framed(outcome: Result<Encoded, String>) -> (input: Result<ModelInput, String>)
    ensures
        match (outcome, input) {
            (Ok(encoded), Ok(tensors)) => frames(
                tensors,
                encoded.ids@,
                encoded.mask@,
                encoded.type_ids@,
            ),
            (Err(error), Err(told)) => told == error,
            _ => false,
        },
{
    match outcome {
        Ok(encoded) => Ok(model_input(&encoded)),
        Err(error) => Err(error),
    }
}

/// Where the vectors of the tokens that count begin in the model's output, in order.
pub open spec fn offsets_of(mask: Seq<i64>) -> Seq<int>
    decreases mask.len(),
{
    if mask.len() == 0 {
        Seq::empty()
    } else if mask.last() == 0 {
        offsets_of(mask.drop_last())
    } else {
        offsets_of(mask.drop_last()).push((mask.len() - 1) * ONNX_EMBED_DIM)
    }
}

/// Where the vectors of the tokens that count begin in the model's output: those whose mask is not
/// zero. They are summed, and divided by their number.
pub fn pooled_offsets(mask: &Vec<i64>) -> (offsets: Vec<usize>)
    requires
        mask@.len() * ONNX_EMBED_DIM <= usize::MAX,
    ensures
        offsets@.len() == offsets_of(mask@).len(),
        forall|i: int| 0 <= i < offsets@.len() ==> #[trigger] offsets@[i] == offsets_of(mask@)[i],
{
    let mut offsets: Vec<usize> = Vec::new();
    let mut i: usize = 0;
    while i < mask.len()
        invariant
            i <= mask@.len(),
            mask@.len() * ONNX_EMBED_DIM <= usize::MAX,
            offsets@.len() == offsets_of(mask@.take(i as int)).len(),
            forall|j: int|
                0 <= j < offsets@.len() ==> #[trigger] offsets@[j] == offsets_of(
                    mask@.take(i as int),
                )[j],
        decreases mask@.len() - i,
    {
        proof {
            let seen = mask@.take(i + 1);
            assert(seen.drop_last() =~= mask@.take(i as int));
            assert(seen.last() == mask@[i as int]);
        }
        if mask[i] != 0 {
            offsets.push(i * ONNX_EMBED_DIM);
        }
        i = i + 1;
    }
    assert(mask@.take(i as int) =~= mask@);
    offsets
}

/// A token vector that is pooled lies within the model's output.
pub proof fn law_pooled_vectors_lie_in_the_output(mask: Seq<i64>)
    ensures
        offsets_of(mask).len() <= mask.len(),
        forall|i: int|
            0 <= i < offsets_of(mask).len() ==> 0 <= #[trigger] offsets_of(mask)[i]
                && offsets_of(mask)[i] + ONNX_EMBED_DIM <= mask.len() * ONNX_EMBED_DIM,
    decreases mask.len(),
{
    if mask.len() > 0 {
        law_pooled_vectors_lie_in_the_output(mask.drop_last());
    }
}

/// Exactly the vectors of the tokens under the mask are pooled, each once and in order: the vector
/// of the token at a place starts at that place times the dimension.
pub proof fn law_tokens_under_the_mask_are_pooled(mask: Seq<i64>, i: int, j: int)
    ensures
        0 <= i < mask.len() ==> (offsets_of(mask).contains(i * 384) <==> mask[i] != 0),
        0 <= i < j < offsets_of(mask).len() ==> offsets_of(mask)[i] < offsets_of(mask)[j],
        0 <= i < offsets_of(mask).len() ==> offsets_of(mask)[i] % 384 == 0 && 0 <= offsets_of(
            mask,
        )[i] < mask.len() * 384,
    decreases mask.len(),
{
    if mask.len() > 0 {
        let rest = mask.drop_last();
        let last = mask.len() - 1;
        let before = offsets_of(rest);
        let after = offsets_of(mask);
        law_tokens_under_the_mask_are_pooled(rest, i, j);
        law_tokens_under_the_mask_are_pooled(rest, i, i);
        assert forall|k: int| 0 <= k < before.len() implies 0 <= #[trigger] before[k] < rest.len()
            * 384 by {
            law_tokens_under_the_mask_are_pooled(rest, k, k);
        }
        if mask.last() != 0 {
            assert(after == before.push(last * 384));
            assert(after[before.len() as int] == last * 384);
        }
        if 0 <= i < mask.len() {
            if i < last {
                assert(rest[i] == mask[i]);
                if before.contains(i * 384) {
                    let k = choose|k: int| 0 <= k < before.len() && before[k] == i * 384;
                    assert(after[k] == i * 384);
                }
                if after.contains(i * 384) {
                    let k = choose|k: int| 0 <= k < after.len() && after[k] == i * 384;
                    assert(k < before.len());
                    assert(before[k] == i * 384);
                }
            } else {
                if after.contains(i * 384) && mask.last() == 0 {
                    let k = choose|k: int| 0 <= k < before.len() && before[k] == i * 384;
                    assert(before[k] < rest.len() * 384);
                }
            }
        }
    }
}

/// A model is given the numbers of the encoding, each as it is, in a row as wide as the encoding,
/// one wide at least.
pub proof fn law_a_row_holds_the_encoding(
    input: ModelInput,
    ids: Seq<u32>,
    mask: Seq<u32>,
    type_ids: Seq<u32>,
    i: int,
)
    requires
        frames(input, ids, mask, type_ids),
    ensures
        input.width >= 1,
        ids.len() > 0 ==> input.width == ids.len(),
        input.ids@.len() == ids.len() && input.mask@.len() == mask.len() && input.type_ids@.len()
            == type_ids.len(),
        0 <= i < ids.len() ==> input.ids@[i] == ids[i],
        0 <= i < mask.len() ==> input.mask@[i] == mask[i],
        0 <= i < type_ids.len() ==> input.type_ids@[i] == type_ids[i],
{
}

/// A file that leaves no room for a text of its own is refused, as is one that is no tokenizer;
/// what is refused is told why.
pub proof fn law_a_file_without_room_is_refused(file: Seq<char>, limit: usize)
    ensures
        parsed(file) is None ==> file_refusal(file, limit) is Some,
        tokens_added(described(file)) > limit ==> file_refusal(file, limit) is Some,
        tokenizer_in(written(file)) is Err ==> file_refusal(file, limit) is Some,
        parsed(file) matches Some(tree) ==> load_fault(tree) is Some ==> file_refusal(file, limit)
            == load_fault(tree),
{
}

} // verus!
