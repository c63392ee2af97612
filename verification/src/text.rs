//! Text helpers with exact meanings over sequences of characters.

use vstd::prelude::*;
use vstd::string::*;

verus! {

/// `String::push` appends the character at the end of the string.
pub assume_specification[ String::push ](text: &mut String, c: char)
    ensures
        final(text)@ == old(text)@.push(c),
;

/// The characters of each string of a list.
pub open spec fn texts(list: Seq<String>) -> Seq<Seq<char>> {
    list.map_values(|s: String| s@)
}

/// Appending a string appends its characters to the view.
pub proof fn lemma_texts_push(list: Seq<String>, s: String)
    ensures
        texts(list.push(s)) == texts(list).push(s@),
{
    assert(texts(list.push(s)) =~= texts(list).push(s@));
}

/// The characters of `text`, one by one.
pub fn chars_of(text: &str) -> (chars: Vec<char>)
    ensures
        chars@ == text@,
{
    broadcast use vstd::string::axiom_spec_iter;

    let mut chars: Vec<char> = Vec::new();
    for c in rest: text.chars()
        invariant
            rest.seq() == text@,
            chars@ == text@.take(rest.index()),
    {
        chars.push(c);
    }
    assert(text@.take(text@.len() as int) =~= text@);
    chars
}

/// The string made of `chars[from..to]`.
pub fn string_of(chars: &Vec<char>, from: usize, to: usize) -> (text: String)
    requires
        from <= to <= chars@.len(),
    ensures
        text@ == chars@.subrange(from as int, to as int),
{
    let mut text = String::new();
    let mut i: usize = from;
    while i < to
        invariant
            from <= i <= to <= chars@.len(),
            text@ == chars@.subrange(from as int, i as int),
        decreases to - i,
    {
        text.push(chars[i]);
        i = i + 1;
    }
    text
}

/// Whether two texts are the same.
pub fn same(a: &str, b: &str) -> (result: bool)
    ensures
        result == (a@ == b@),
{
    let left = a.as_bytes();
    let right = b.as_bytes();
    proof {
        vstd::utf8::encode_utf8_decode_utf8(a@);
        vstd::utf8::encode_utf8_decode_utf8(b@);
    }
    if left.len() != right.len() {
        return false;
    }
    let mut i: usize = 0;
    while i < left.len()
        invariant
            i <= left@.len(),
            left@.len() == right@.len(),
            left@ == a.spec_bytes(),
            right@ == b.spec_bytes(),
            forall|j: int| 0 <= j < i ==> left@[j] == right@[j],
        decreases left@.len() - i,
    {
        if left[i] != right[i] {
            return false;
        }
        i = i + 1;
    }
    assert(left@ =~= right@);
    true
}

/// A copy of `text` as an owned string.
pub fn owned(text: &str) -> (copy: String)
    ensures
        copy@ == text@,
{
    text.to_owned()
}

/// The Unicode `White_Space` characters.
pub open spec fn is_whitespace(c: char) -> bool {
    ||| '\u{9}' <= c <= '\u{d}'
    ||| c == ' '
    ||| c == '\u{85}'
    ||| c == '\u{a0}'
    ||| c == '\u{1680}'
    ||| '\u{2000}' <= c <= '\u{200a}'
    ||| c == '\u{2028}'
    ||| c == '\u{2029}'
    ||| c == '\u{202f}'
    ||| c == '\u{205f}'
    ||| c == '\u{3000}'
}

fn whitespace(c: char) -> (result: bool)
    ensures
        result == is_whitespace(c),
{
    ('\u{9}' <= c && c <= '\u{d}') || c == ' ' || c == '\u{85}' || c == '\u{a0}' || c == '\u{1680}'
        || ('\u{2000}' <= c && c <= '\u{200a}') || c == '\u{2028}' || c == '\u{2029}'
        || c == '\u{202f}' || c == '\u{205f}' || c == '\u{3000}'
}

/// `s` without its leading whitespace.
pub open spec fn trimmed_start(s: Seq<char>) -> Seq<char>
    decreases s.len(),
{
    if s.len() > 0 && is_whitespace(s[0]) {
        trimmed_start(s.drop_first())
    } else {
        s
    }
}

/// `s` without its trailing whitespace.
pub open spec fn trimmed_end(s: Seq<char>) -> Seq<char>
    decreases s.len(),
{
    if s.len() > 0 && is_whitespace(s.last()) {
        trimmed_end(s.drop_last())
    } else {
        s
    }
}

/// `s` without the whitespace around it.
pub open spec fn trimmed(s: Seq<char>) -> Seq<char> {
    trimmed_end(trimmed_start(s))
}

/// `text` without the whitespace around it.
pub fn trim(text: &str) -> (result: String)
    ensures
        result@ == trimmed(text@),
{
    let chars = chars_of(text);
    let mut from: usize = 0;
    assert(chars@.subrange(0, chars@.len() as int) =~= chars@);
    while from < chars.len() && whitespace(chars[from])
        invariant
            from <= chars@.len(),
            trimmed_start(chars@.subrange(from as int, chars@.len() as int)) == trimmed_start(chars@),
        decreases chars@.len() - from,
    {
        assert(chars@.subrange(from as int, chars@.len() as int).drop_first() =~= chars@.subrange(
            from + 1,
            chars@.len() as int,
        ));
        from = from + 1;
    }
    let ghost kept = chars@.subrange(from as int, chars@.len() as int);
    assert(trimmed_start(chars@) == kept);
    let mut to: usize = chars.len();
    while to > from && whitespace(chars[to - 1])
        invariant
            from <= to <= chars@.len(),
            trimmed_end(chars@.subrange(from as int, to as int)) == trimmed_end(kept),
        decreases to,
    {
        assert(chars@.subrange(from as int, to as int).drop_last() =~= chars@.subrange(
            from as int,
            to - 1,
        ));
        to = to - 1;
    }
    string_of(&chars, from, to)
}

/// The pieces of `s` between the occurrences of `sep`.
pub open spec fn pieces(s: Seq<char>, sep: char) -> Seq<Seq<char>>
    decreases s.len(),
{
    if s.len() == 0 {
        seq![Seq::<char>::empty()]
    } else {
        let before = pieces(s.drop_last(), sep);
        if s.last() == sep {
            before.push(Seq::<char>::empty())
        } else {
            before.drop_last().push(before.last().push(s.last()))
        }
    }
}

/// Split `text` at every occurrence of `sep`.
pub fn split(text: &str, sep: char) -> (parts: Vec<String>)
    ensures
        texts(parts@) == pieces(text@, sep),
{
    let chars = chars_of(text);
    let mut parts: Vec<String> = Vec::new();
    let mut current = String::new();
    let mut i: usize = 0;
    assert(texts(parts@).push(current@) =~= pieces(chars@.take(0), sep));
    while i < chars.len()
        invariant
            i <= chars@.len(),
            texts(parts@).push(current@) == pieces(chars@.take(i as int), sep),
        decreases chars@.len() - i,
    {
        let c = chars[i];
        let ghost seen = chars@.take(i + 1);
        let ghost before = texts(parts@).push(current@);
        proof {
            assert(seen.drop_last() =~= chars@.take(i as int));
            assert(before.drop_last() =~= texts(parts@));
        }
        if c == sep {
            parts.push(current);
            current = String::new();
            assert(texts(parts@) =~= before);
            assert(texts(parts@).push(current@) =~= pieces(seen, sep));
        } else {
            current.push(c);
        }
        i = i + 1;
    }
    assert(chars@.take(i as int) =~= chars@);
    let ghost all = texts(parts@).push(current@);
    parts.push(current);
    assert(texts(parts@) =~= all);
    parts
}

/// The pieces of `s` between whitespace characters, with the empty ones between neighbours.
pub open spec fn spaced_pieces(s: Seq<char>) -> Seq<Seq<char>>
    decreases s.len(),
{
    if s.len() == 0 {
        seq![Seq::<char>::empty()]
    } else {
        let before = spaced_pieces(s.drop_last());
        if is_whitespace(s.last()) {
            before.push(Seq::<char>::empty())
        } else {
            before.drop_last().push(before.last().push(s.last()))
        }
    }
}

/// The texts of a list that are not empty, in order.
pub open spec fn nonempty(list: Seq<Seq<char>>) -> Seq<Seq<char>>
    decreases list.len(),
{
    if list.len() == 0 {
        Seq::empty()
    } else if list.last().len() == 0 {
        nonempty(list.drop_last())
    } else {
        nonempty(list.drop_last()).push(list.last())
    }
}

/// The words of `s`: its maximal runs without whitespace.
pub open spec fn words_of(s: Seq<char>) -> Seq<Seq<char>> {
    nonempty(spaced_pieces(s))
}

fn close_word(found: &mut Vec<String>, word: &String)
    ensures
        texts(final(found)@) == if word@.len() == 0 {
            texts(old(found)@)
        } else {
            texts(old(found)@).push(word@)
        },
{
    if !word.as_str().is_empty() {
        proof {
            lemma_texts_push(found@, *word);
        }
        found.push(word.clone());
    }
}

/// The words of `text`: its maximal runs without whitespace.
pub fn words(text: &str) -> (found: Vec<String>)
    ensures
        texts(found@) == words_of(text@),
{
    let chars = chars_of(text);
    let mut found: Vec<String> = Vec::new();
    let mut word = String::new();
    let mut i: usize = 0;
    proof {
        let start = spaced_pieces(chars@.take(0));
        assert(start =~= seq![Seq::<char>::empty()]);
        assert(start.drop_last() =~= Seq::<Seq<char>>::empty());
        assert(texts(found@) =~= Seq::<Seq<char>>::empty());
    }
    while i < chars.len()
        invariant
            i <= chars@.len(),
            spaced_pieces(chars@.take(i as int)).len() > 0,
            spaced_pieces(chars@.take(i as int)).last() == word@,
            texts(found@) == nonempty(spaced_pieces(chars@.take(i as int)).drop_last()),
        decreases chars@.len() - i,
    {
        let c = chars[i];
        let ghost before = spaced_pieces(chars@.take(i as int));
        let ghost seen = chars@.take(i + 1);
        proof {
            assert(seen.drop_last() =~= chars@.take(i as int));
            assert(seen.last() == c);
        }
        if whitespace(c) {
            close_word(&mut found, &word);
            word = String::new();
            assert(word@ =~= Seq::<char>::empty());
            assert(spaced_pieces(seen).drop_last() =~= before);
        } else {
            word.push(c);
            assert(spaced_pieces(seen).drop_last() =~= before.drop_last());
        }
        i = i + 1;
    }
    assert(chars@.take(i as int) =~= chars@);
    close_word(&mut found, &word);
    found
}

/// The pieces of `s` between the occurrences of `sep`, each without the whitespace around it, and
/// without the empty ones.
pub open spec fn trimmed_pieces(s: Seq<char>, sep: char) -> Seq<Seq<char>> {
    nonempty(pieces(s, sep).map_values(|p: Seq<char>| trimmed(p)))
}

/// Split `text` at every occurrence of `sep`, trim the pieces and drop the empty ones.
pub fn split_trimmed(text: &str, sep: char) -> (parts: Vec<String>)
    ensures
        texts(parts@) == trimmed_pieces(text@, sep),
{
    let raw = split(text, sep);
    let mut parts: Vec<String> = Vec::new();
    let ghost all = texts(raw@).map_values(|p: Seq<char>| trimmed(p));
    let mut i: usize = 0;
    assert(all.take(0) =~= Seq::<Seq<char>>::empty());
    assert(texts(parts@) =~= Seq::<Seq<char>>::empty());
    while i < raw.len()
        invariant
            i <= raw@.len(),
            all == texts(raw@).map_values(|p: Seq<char>| trimmed(p)),
            texts(parts@) == nonempty(all.take(i as int)),
        decreases raw@.len() - i,
    {
        let part = trim(raw[i].as_str());
        proof {
            let seen = all.take(i + 1);
            assert(seen.drop_last() =~= all.take(i as int));
            assert(seen.last() == part@);
        }
        close_word(&mut parts, &part);
        i = i + 1;
    }
    assert(all.take(i as int) =~= all);
    parts
}

/// The parts in order, with `sep` between neighbours.
pub open spec fn joined(parts: Seq<Seq<char>>, sep: Seq<char>) -> Seq<char>
    decreases parts.len(),
{
    if parts.len() == 0 {
        Seq::empty()
    } else if parts.len() == 1 {
        parts[0]
    } else {
        joined(parts.drop_last(), sep) + sep + parts.last()
    }
}

/// Join the parts with `sep` between neighbours.
pub fn join(parts: &Vec<String>, sep: &str) -> (text: String)
    ensures
        text@ == joined(texts(parts@), sep@),
{
    let mut text = String::new();
    let mut i: usize = 0;
    assert(texts(parts@).take(0) =~= Seq::empty());
    while i < parts.len()
        invariant
            i <= parts@.len(),
            text@ == joined(texts(parts@).take(i as int), sep@),
        decreases parts@.len() - i,
    {
        proof {
            let next = texts(parts@).take(i + 1);
            assert(next.drop_last() =~= texts(parts@).take(i as int));
            assert(next.last() == parts@[i as int]@);
            if i == 0 {
                assert(text@ =~= Seq::empty());
                assert(text@ + parts@[0]@ =~= parts@[0]@);
            }
        }
        if i > 0 {
            text.append(sep);
        }
        text.append(parts[i].as_str());
        i = i + 1;
    }
    assert(texts(parts@).take(i as int) =~= texts(parts@));
    text
}

/// The character of a decimal digit.
pub open spec fn digit_char(d: nat) -> char {
    (48 + d) as char
}

/// The decimal digits of `n`, without leading zeros.
pub open spec fn decimal_of(n: nat) -> Seq<char>
    decreases n,
{
    if n < 10 {
        seq![digit_char(n)]
    } else {
        decimal_of(n / 10).push(digit_char(n % 10))
    }
}

fn digit(d: u64) -> (c: char)
    requires
        d < 10,
    ensures
        c == digit_char(d as nat),
{
    match d {
        0 => '0',
        1 => '1',
        2 => '2',
        3 => '3',
        4 => '4',
        5 => '5',
        6 => '6',
        7 => '7',
        8 => '8',
        _ => '9',
    }
}

fn append_decimal(text: &mut String, n: u64)
    ensures
        final(text)@ == old(text)@ + decimal_of(n as nat),
    decreases n,
{
    if n >= 10 {
        append_decimal(text, n / 10);
    }
    let ghost before = text@;
    text.push(digit(n % 10));
    assert(text@ =~= old(text)@ + decimal_of(n as nat));
}

/// `n` in decimal.
pub fn decimal(n: u64) -> (text: String)
    ensures
        text@ == decimal_of(n as nat),
{
    let mut text = String::new();
    append_decimal(&mut text, n);
    assert(Seq::<char>::empty() + decimal_of(n as nat) =~= decimal_of(n as nat));
    text
}

/// The decimal form of a signed number.
pub open spec fn signed_decimal_of(n: int) -> Seq<char> {
    if n < 0 {
        seq!['-'] + decimal_of((-n) as nat)
    } else {
        decimal_of(n as nat)
    }
}

/// `n` in decimal, with a minus sign when negative.
pub fn signed_decimal(n: i64) -> (text: String)
    ensures
        text@ == signed_decimal_of(n as int),
{
    let mut text = String::new();
    if n < 0 {
        text.push('-');
        let magnitude: u64 = (-(n as i128)) as u64;
        append_decimal(&mut text, magnitude);
        assert(text@ =~= seq!['-'] + decimal_of((-n) as nat));
    } else {
        append_decimal(&mut text, n as u64);
        assert(text@ =~= decimal_of(n as nat));
    }
    text
}

/// Whether `c` is an ASCII decimal digit.
pub open spec fn is_digit(c: char) -> bool {
    '0' <= c <= '9'
}

/// The number that a run of digits spells.
pub open spec fn digits_value(s: Seq<char>) -> nat
    decreases s.len(),
{
    if s.len() == 0 {
        0
    } else {
        digits_value(s.drop_last()) * 10 + (s.last() as nat - 48) as nat
    }
}

/// `s` without one leading plus sign.
pub open spec fn unsigned_body(s: Seq<char>) -> Seq<char> {
    if s.len() > 0 && s[0] == '+' {
        s.drop_first()
    } else {
        s
    }
}

/// The unsigned number of at most `max` that `s` spells: one optional plus sign, then one or
/// more digits and nothing else.
pub open spec fn unsigned_value(s: Seq<char>, max: nat) -> Option<nat> {
    let body = unsigned_body(s);
    if body.len() == 0 || !(forall|i: int| 0 <= i < body.len() ==> is_digit(#[trigger] body[i])) {
        None
    } else if digits_value(body) > max {
        None
    } else {
        Some(digits_value(body))
    }
}

proof fn lemma_digits_value_grows(s: Seq<char>, k: int)
    requires
        0 <= k <= s.len(),
    ensures
        digits_value(s.take(k)) <= digits_value(s),
    decreases s.len() - k,
{
    if k < s.len() {
        lemma_digits_value_grows(s, k + 1);
        assert(s.take(k + 1).drop_last() =~= s.take(k));
    } else {
        assert(s.take(k) =~= s);
    }
}

/// Parse an unsigned number of at most `max`, with one optional leading plus sign.
pub fn parse_unsigned(text: &str, max: u64) -> (result: Option<u64>)
    ensures
        match result {
            Some(n) => unsigned_value(text@, max as nat) == Some(n as nat),
            None => unsigned_value(text@, max as nat) is None,
        },
{
    let chars = chars_of(text);
    let from: usize = if chars.len() > 0 && chars[0] == '+' {
        1
    } else {
        0
    };
    let ghost body = unsigned_body(chars@);
    proof {
        assert(body =~= chars@.subrange(from as int, chars@.len() as int));
    }
    if from == chars.len() {
        return None;
    }
    let mut value: u64 = 0;
    let mut i: usize = from;
    assert(body.take(0) =~= Seq::<char>::empty());
    while i < chars.len()
        invariant
            from <= i <= chars@.len(),
            chars@ == text@,
            body == unsigned_body(chars@),
            body == chars@.subrange(from as int, chars@.len() as int),
            body.len() > 0,
            value == digits_value(body.take(i - from)),
            value <= max,
            forall|j: int| 0 <= j < i - from ==> is_digit(#[trigger] body[j]),
        decreases chars@.len() - i,
    {
        let c = chars[i];
        assert(body[i - from] == c);
        if !('0' <= c && c <= '9') {
            return None;
        }
        let ghost seen = body.take(i - from + 1);
        proof {
            assert(seen.drop_last() =~= body.take(i - from));
            assert(seen.last() == c);
            lemma_digits_value_grows(body, i - from + 1);
        }
        let d: u64 = (c as u32 - 48) as u64;
        let wide: u128 = (value as u128) * 10 + d as u128;
        if wide > max as u128 {
            return None;
        }
        value = wide as u64;
        i = i + 1;
    }
    assert(body.take(i - from) =~= body);
    Some(value)
}

/// Whether `pattern` stands in `s` at position `at`.
pub open spec fn occurs_at(s: Seq<char>, pattern: Seq<char>, at: int) -> bool {
    0 <= at && at + pattern.len() <= s.len() && s.subrange(at, at + pattern.len()) == pattern
}

/// Where `pattern` first stands in `s` at or after `from`.
pub open spec fn first_occurrence(s: Seq<char>, pattern: Seq<char>, from: int) -> Option<int>
    decreases s.len() + 1 - from,
{
    if from < 0 || from + pattern.len() > s.len() {
        None
    } else if s.subrange(from, from + pattern.len()) == pattern {
        Some(from)
    } else {
        first_occurrence(s, pattern, from + 1)
    }
}

/// The texts before and after the first occurrence of `pattern`.
pub open spec fn cut_once(s: Seq<char>, pattern: Seq<char>) -> Option<(Seq<char>, Seq<char>)> {
    match first_occurrence(s, pattern, 0) {
        Some(at) => Some((s.take(at), s.skip(at + pattern.len()))),
        None => None,
    }
}

fn matches_at(chars: &Vec<char>, pattern: &Vec<char>, at: usize) -> (result: bool)
    requires
        at + pattern@.len() <= chars@.len(),
    ensures
        result == (chars@.subrange(at as int, at + pattern@.len()) == pattern@),
{
    let size: usize = chars.len();
    let mut i: usize = 0;
    while i < pattern.len()
        invariant
            i <= pattern@.len(),
            at + pattern@.len() <= chars@.len() == size,
            forall|j: int| 0 <= j < i ==> chars@[at + j] == pattern@[j],
        decreases pattern@.len() - i,
    {
        if chars[at + i] != pattern[i] {
            assert(chars@.subrange(at as int, at + pattern@.len())[i as int] != pattern@[i as int]);
            return false;
        }
        i = i + 1;
    }
    assert(chars@.subrange(at as int, at + pattern@.len()) =~= pattern@);
    true
}

/// Split `text` around the first occurrence of `pattern`, if there is one.
pub fn split_once(text: &str, pattern: &str) -> (result: Option<(String, String)>)
    ensures
        match result {
            Some((before, after)) => cut_once(text@, pattern@) == Some((before@, after@)),
            None => cut_once(text@, pattern@) is None,
        },
{
    let chars = chars_of(text);
    let wanted = chars_of(pattern);
    if wanted.len() > chars.len() {
        return None;
    }
    let size: usize = chars.len();
    let last: usize = size - wanted.len();
    let mut at: usize = 0;
    loop
        invariant
            chars@ == text@,
            wanted@ == pattern@,
            wanted@.len() <= chars@.len(),
            last == chars@.len() - wanted@.len(),
            chars@.len() == size,
            at <= last,
            first_occurrence(chars@, wanted@, at as int) == first_occurrence(chars@, wanted@, 0),
        decreases last - at,
    {
        if matches_at(&chars, &wanted, at) {
            let before = string_of(&chars, 0, at);
            let after = string_of(&chars, at + wanted.len(), chars.len());
            assert(before@ =~= chars@.take(at as int));
            assert(after@ =~= chars@.skip(at + wanted@.len()));
            return Some((before, after));
        }
        if at == last {
            assert(first_occurrence(chars@, wanted@, at + 1) is None);
            return None;
        }
        at = at + 1;
    }
}

/// Whether `text` starts with `prefix`.
pub fn starts_with(text: &str, prefix: &str) -> (result: bool)
    ensures
        result == occurs_at(text@, prefix@, 0),
{
    let chars = chars_of(text);
    let wanted = chars_of(prefix);
    wanted.len() <= chars.len() && matches_at(&chars, &wanted, 0)
}

/// What is left of `s` once `prefix` is taken off its front.
pub open spec fn without_prefix(s: Seq<char>, prefix: Seq<char>) -> Option<Seq<char>> {
    if occurs_at(s, prefix, 0) {
        Some(s.skip(prefix.len() as int))
    } else {
        None
    }
}

/// What is left of `s` once `suffix` is taken off its end.
pub open spec fn without_suffix(s: Seq<char>, suffix: Seq<char>) -> Option<Seq<char>> {
    if occurs_at(s, suffix, s.len() - suffix.len()) {
        Some(s.take(s.len() - suffix.len()))
    } else {
        None
    }
}

/// Take `prefix` off the front of `text`, if it stands there.
pub fn strip_prefix(text: &str, prefix: &str) -> (result: Option<String>)
    ensures
        match result {
            Some(rest) => without_prefix(text@, prefix@) == Some(rest@),
            None => without_prefix(text@, prefix@) is None,
        },
{
    let chars = chars_of(text);
    let wanted = chars_of(prefix);
    if wanted.len() <= chars.len() && matches_at(&chars, &wanted, 0) {
        let rest = string_of(&chars, wanted.len(), chars.len());
        assert(rest@ =~= text@.skip(prefix@.len() as int));
        Some(rest)
    } else {
        None
    }
}

/// Take `suffix` off the end of `text`, if it stands there.
pub fn strip_suffix(text: &str, suffix: &str) -> (result: Option<String>)
    ensures
        match result {
            Some(rest) => without_suffix(text@, suffix@) == Some(rest@),
            None => without_suffix(text@, suffix@) is None,
        },
{
    let chars = chars_of(text);
    let wanted = chars_of(suffix);
    if wanted.len() <= chars.len() && matches_at(&chars, &wanted, chars.len() - wanted.len()) {
        let rest = string_of(&chars, 0, chars.len() - wanted.len());
        assert(rest@ =~= text@.take(text@.len() - suffix@.len()));
        Some(rest)
    } else {
        None
    }
}

/// The lower case of an ASCII letter; any other character as it is.
pub open spec fn ascii_lower(c: char) -> char {
    if 'A' <= c <= 'Z' {
        (c as u32 + 32) as char
    } else {
        c
    }
}

/// `s` with every ASCII letter in lower case.
pub open spec fn ascii_folded(s: Seq<char>) -> Seq<char> {
    s.map_values(|c: char| ascii_lower(c))
}

fn lower(c: char) -> (result: char)
    ensures
        result == ascii_lower(c),
{
    if 'A' <= c && c <= 'Z' {
        ((c as u8) + 32) as char
    } else {
        c
    }
}

/// Whether two texts are the same up to the case of ASCII letters.
pub fn same_ignoring_case(a: &str, b: &str) -> (result: bool)
    ensures
        result == (ascii_folded(a@) == ascii_folded(b@)),
{
    let left = chars_of(a);
    let right = chars_of(b);
    if left.len() != right.len() {
        assert(ascii_folded(a@).len() != ascii_folded(b@).len());
        return false;
    }
    let mut i: usize = 0;
    while i < left.len()
        invariant
            i <= left@.len(),
            left@.len() == right@.len(),
            left@ == a@,
            right@ == b@,
            forall|j: int| 0 <= j < i ==> ascii_lower(left@[j]) == ascii_lower(right@[j]),
        decreases left@.len() - i,
    {
        if lower(left[i]) != lower(right[i]) {
            assert(ascii_folded(a@)[i as int] != ascii_folded(b@)[i as int]);
            return false;
        }
        i = i + 1;
    }
    assert(ascii_folded(a@) =~= ascii_folded(b@));
    true
}

/// Dictionary order by code point: the order of Rust strings.
pub open spec fn text_before(a: Seq<char>, b: Seq<char>) -> bool
    decreases b.len(),
{
    if b.len() == 0 {
        false
    } else if a.len() == 0 {
        true
    } else if a[0] != b[0] {
        a[0] < b[0]
    } else {
        text_before(a.drop_first(), b.drop_first())
    }
}

/// No text comes before itself.
pub proof fn lemma_text_before_irreflexive(a: Seq<char>)
    ensures
        !text_before(a, a),
    decreases a.len(),
{
    if a.len() > 0 {
        lemma_text_before_irreflexive(a.drop_first());
    }
}

/// Of two different texts one comes before the other.
pub proof fn lemma_text_before_total(a: Seq<char>, b: Seq<char>)
    ensures
        a == b || text_before(a, b) || text_before(b, a),
    decreases b.len(),
{
    if a.len() > 0 && b.len() > 0 && a[0] == b[0] {
        lemma_text_before_total(a.drop_first(), b.drop_first());
        assert(a =~= seq![a[0]] + a.drop_first());
        assert(b =~= seq![b[0]] + b.drop_first());
    } else if a.len() == 0 && b.len() == 0 {
        assert(a =~= b);
    }
}

/// Dictionary order is transitive.
pub proof fn lemma_text_before_transitive(a: Seq<char>, b: Seq<char>, c: Seq<char>)
    requires
        text_before(a, b),
        text_before(b, c),
    ensures
        text_before(a, c),
    decreases c.len(),
{
    if a.len() > 0 && b.len() > 0 && c.len() > 0 && a[0] == b[0] && b[0] == c[0] {
        lemma_text_before_transitive(a.drop_first(), b.drop_first(), c.drop_first());
    }
}

/// Whether `a` comes before `b` in dictionary order.
pub fn comes_before(a: &str, b: &str) -> (result: bool)
    ensures
        result == text_before(a@, b@),
{
    let left = chars_of(a);
    let right = chars_of(b);
    let mut i: usize = 0;
    assert(left@.skip(0) =~= left@);
    assert(right@.skip(0) =~= right@);
    while i < left.len() && i < right.len()
        invariant
            i <= left@.len(),
            i <= right@.len(),
            text_before(left@.skip(i as int), right@.skip(i as int)) == text_before(left@, right@),
            left@ == a@,
            right@ == b@,
        decreases left@.len() - i,
    {
        let x = left[i];
        let y = right[i];
        if x != y {
            return x < y;
        }
        assert(left@.skip(i as int).drop_first() =~= left@.skip(i + 1));
        assert(right@.skip(i as int).drop_first() =~= right@.skip(i + 1));
        i = i + 1;
    }
    i < right.len()
}

/// Trimming takes whitespace off both ends and nothing else: what is left is a stretch of the
/// text that neither begins nor ends with whitespace, only whitespace stood before and after it,
/// and nothing is left exactly where the text was all whitespace.
pub proof fn law_trimming_takes_whitespace_off_the_ends(s: Seq<char>)
    ensures
        exists|from: int, to: int|
            0 <= from <= to <= s.len() && trimmed(s) == #[trigger] s.subrange(from, to) && (forall|
                i: int,
            |
                0 <= i < from || to <= i < s.len() ==> is_whitespace(#[trigger] s[i])),
        trimmed(s).len() > 0 ==> !is_whitespace(trimmed(s)[0]) && !is_whitespace(
            trimmed(s)[trimmed(s).len() - 1],
        ),
        trimmed(s).len() == 0 <==> forall|i: int|
            0 <= i < s.len() ==> is_whitespace(#[trigger] s[i]),
{
    lemma_trimmed_start(s);
    let rest = trimmed_start(s);
    let from = s.len() - rest.len();
    lemma_trimmed_end(rest);
    let end = trimmed_end(rest);
    let to = from + end.len();
    assert(trimmed(s) =~= s.subrange(from, to));
    assert forall|i: int| 0 <= i < from || to <= i < s.len() implies is_whitespace(
        #[trigger] s[i],
    ) by {
        if to <= i < s.len() {
            assert(rest[i - from] == s[i]);
        }
    }
    if end.len() > 0 {
        assert(end[0] == rest[0]);
        assert(rest[0] == s[from]);
    } else if rest.len() > 0 {
        assert(is_whitespace(rest[0]));
    }
}

proof fn lemma_trimmed_start(s: Seq<char>)
    ensures
        trimmed_start(s).len() <= s.len(),
        trimmed_start(s) == s.skip(s.len() - trimmed_start(s).len()),
        forall|i: int|
            0 <= i < s.len() - trimmed_start(s).len() ==> is_whitespace(#[trigger] s[i]),
        trimmed_start(s).len() > 0 ==> !is_whitespace(trimmed_start(s)[0]),
    decreases s.len(),
{
    if s.len() > 0 && is_whitespace(s[0]) {
        let rest = s.drop_first();
        lemma_trimmed_start(rest);
        let kept = trimmed_start(s);
        assert(kept =~= s.skip(s.len() - kept.len()));
        assert forall|i: int| 0 <= i < s.len() - kept.len() implies is_whitespace(
            #[trigger] s[i],
        ) by {
            if i > 0 {
                assert(rest[i - 1] == s[i]);
            }
        }
    } else {
        assert(s =~= s.skip(0));
    }
}

proof fn lemma_trimmed_end(s: Seq<char>)
    ensures
        trimmed_end(s).len() <= s.len(),
        trimmed_end(s) == s.take(trimmed_end(s).len() as int),
        forall|i: int| trimmed_end(s).len() <= i < s.len() ==> is_whitespace(#[trigger] s[i]),
        trimmed_end(s).len() > 0 ==> !is_whitespace(trimmed_end(s)[trimmed_end(s).len() - 1]),
    decreases s.len(),
{
    if s.len() > 0 && is_whitespace(s.last()) {
        let rest = s.drop_last();
        lemma_trimmed_end(rest);
        let kept = trimmed_end(s);
        assert(kept =~= s.take(kept.len() as int));
        assert forall|i: int| kept.len() <= i < s.len() implies is_whitespace(
            #[trigger] s[i],
        ) by {
            if i < s.len() - 1 {
                assert(rest[i] == s[i]);
            }
        }
    } else {
        assert(s =~= s.take(s.len() as int));
    }
}

/// Splitting and joining undo each other, and a separator never stands inside a piece: the pieces
/// joined by the separator give back the text.
pub proof fn law_splitting_is_undone_by_joining(s: Seq<char>, sep: char)
    ensures
        pieces(s, sep).len() > 0,
        joined(pieces(s, sep), seq![sep]) == s,
        forall|i: int| 0 <= i < pieces(s, sep).len() ==> !(#[trigger] pieces(s, sep)[i]).contains(sep),
    decreases s.len(),
{
    let all = pieces(s, sep);
    if s.len() == 0 {
        assert(all =~= seq![Seq::<char>::empty()]);
        assert(all[0] =~= s);
    } else {
        let rest = s.drop_last();
        let before = pieces(rest, sep);
        law_splitting_is_undone_by_joining(rest, sep);
        assert(s =~= rest.push(s.last()));
        if s.last() == sep {
            assert(all.drop_last() =~= before);
            assert(joined(all, seq![sep]) =~= rest + seq![sep] + Seq::<char>::empty());
            assert(rest + seq![sep] + Seq::<char>::empty() =~= s);
            assert forall|i: int| 0 <= i < all.len() implies !(#[trigger] all[i]).contains(sep) by {
                if i < before.len() {
                    assert(all[i] == before[i]);
                }
            }
        } else {
            let grown = before.last().push(s.last());
            assert(all == before.drop_last().push(grown));
            assert(all.drop_last() =~= before.drop_last());
            if before.len() == 1 {
                assert(all[0] =~= s);
            } else {
                assert(joined(all, seq![sep]) =~= (joined(before.drop_last(), seq![sep]) + seq![
                    sep,
                ] + before.last()).push(s.last()));
            }
            assert forall|i: int| 0 <= i < all.len() implies !(#[trigger] all[i]).contains(sep) by {
                if i < before.len() - 1 {
                    assert(all[i] == before[i]);
                } else {
                    assert(!before[before.len() - 1].contains(sep));
                    if grown.contains(sep) {
                        let k = choose|k: int| 0 <= k < grown.len() && grown[k] == sep;
                        assert(before.last()[k] == sep);
                    }
                }
            }
        }
    }
}

/// The parts around a separator are split each on their own, and a text without the separator is
/// its only piece.
pub proof fn law_splitting_is_local(a: Seq<char>, sep: char, b: Seq<char>)
    ensures
        pieces(a.push(sep) + b, sep) == pieces(a, sep) + pieces(b, sep),
        !a.contains(sep) ==> pieces(a, sep) == seq![a],
{
    lemma_pieces_around(a, sep, b);
    if !a.contains(sep) {
        lemma_one_piece(a, sep);
    }
}

proof fn lemma_pieces_around(a: Seq<char>, sep: char, b: Seq<char>)
    ensures
        pieces(a.push(sep) + b, sep) == pieces(a, sep) + pieces(b, sep),
        pieces(b, sep).len() > 0,
    decreases b.len(),
{
    let all = a.push(sep) + b;
    if b.len() == 0 {
        assert(all =~= a.push(sep));
        assert(a.push(sep).drop_last() =~= a);
        assert(pieces(all, sep) =~= pieces(a, sep) + pieces(b, sep));
    } else {
        lemma_pieces_around(a, sep, b.drop_last());
        assert(all.drop_last() =~= a.push(sep) + b.drop_last());
        assert(all.last() == b.last());
        assert(pieces(all, sep) =~= pieces(a, sep) + pieces(b, sep));
    }
}

proof fn lemma_one_piece(s: Seq<char>, sep: char)
    requires
        !s.contains(sep),
    ensures
        pieces(s, sep) == seq![s],
    decreases s.len(),
{
    if s.len() == 0 {
        assert(s =~= Seq::<char>::empty());
    } else {
        assert(s[s.len() - 1] == s.last());
        assert forall|i: int| 0 <= i < s.drop_last().len() implies s.drop_last()[i] != sep by {
            assert(s[i] == s.drop_last()[i]);
            assert(s.contains(s[i]));
        }
        lemma_one_piece(s.drop_last(), sep);
        assert(s.drop_last().push(s.last()) =~= s);
        assert(pieces(s, sep) =~= seq![s]);
    }
}

/// A list without its empty members keeps the others, in order.
pub proof fn law_empty_members_are_left_out(
    member: Seq<char>,
    first: Seq<Seq<char>>,
    second: Seq<Seq<char>>,
)
    ensures
        nonempty(seq![member]) == if member.len() == 0 {
            Seq::<Seq<char>>::empty()
        } else {
            seq![member]
        },
        nonempty(first + second) == nonempty(first) + nonempty(second),
    decreases second.len(),
{
    let none = Seq::<Seq<char>>::empty();
    assert(nonempty(none) =~= none);
    assert(seq![member].drop_last() =~= none);
    assert(nonempty(seq![member]) =~= if member.len() == 0 {
        none
    } else {
        seq![member]
    });
    if second.len() == 0 {
        assert(first + second =~= first);
        assert(nonempty(first) + nonempty(second) =~= nonempty(first));
    } else {
        law_empty_members_are_left_out(member, first, second.drop_last());
        assert((first + second).drop_last() =~= first + second.drop_last());
        assert(nonempty(first + second) =~= nonempty(first) + nonempty(second));
    }
}

/// A list in a text is read part by part: around a separator each side on its own, and a part
/// without the separator as one member, without the whitespace around it; a blank part is none.
pub proof fn law_lists_are_read_part_by_part(a: Seq<char>, sep: char, b: Seq<char>)
    ensures
        trimmed_pieces(a.push(sep) + b, sep) == trimmed_pieces(a, sep) + trimmed_pieces(b, sep),
        !a.contains(sep) && trimmed(a).len() > 0 ==> trimmed_pieces(a, sep) == seq![trimmed(a)],
        !a.contains(sep) && trimmed(a).len() == 0 ==> trimmed_pieces(a, sep).len() == 0,
{
    law_splitting_is_local(a, sep, b);
    let trim = |p: Seq<char>| trimmed(p);
    let x = pieces(a, sep);
    let y = pieces(b, sep);
    assert((x + y).map_values(trim) =~= x.map_values(trim) + y.map_values(trim));
    law_empty_members_are_left_out(trimmed(a), x.map_values(trim), y.map_values(trim));
    if !a.contains(sep) {
        assert(x.map_values(trim) =~= seq![trimmed(a)]);
    }
}

/// Words are read one by one: whitespace ends a word, and a text without whitespace is one word.
pub proof fn law_words_are_what_whitespace_parts(a: Seq<char>, space: char, b: Seq<char>)
    requires
        is_whitespace(space),
    ensures
        words_of(a.push(space) + b) == words_of(a) + words_of(b),
        words_of(Seq::empty()).len() == 0,
        a.len() > 0 && (forall|i: int| 0 <= i < a.len() ==> !is_whitespace(#[trigger] a[i]))
            ==> words_of(a) == seq![a],
{
    lemma_spaced_around(a, space, b);
    law_empty_members_are_left_out(a, spaced_pieces(a), spaced_pieces(b));
    law_empty_members_are_left_out(Seq::empty(), Seq::empty(), Seq::empty());
    if forall|i: int| 0 <= i < a.len() ==> !is_whitespace(#[trigger] a[i]) {
        lemma_one_word(a);
    }
}

proof fn lemma_spaced_around(a: Seq<char>, space: char, b: Seq<char>)
    requires
        is_whitespace(space),
    ensures
        spaced_pieces(a.push(space) + b) == spaced_pieces(a) + spaced_pieces(b),
        spaced_pieces(b).len() > 0,
    decreases b.len(),
{
    let all = a.push(space) + b;
    if b.len() == 0 {
        assert(all =~= a.push(space));
        assert(a.push(space).drop_last() =~= a);
        assert(spaced_pieces(all) =~= spaced_pieces(a) + spaced_pieces(b));
    } else {
        lemma_spaced_around(a, space, b.drop_last());
        assert(all.drop_last() =~= a.push(space) + b.drop_last());
        assert(all.last() == b.last());
        assert(spaced_pieces(all) =~= spaced_pieces(a) + spaced_pieces(b));
    }
}

proof fn lemma_one_word(s: Seq<char>)
    requires
        forall|i: int| 0 <= i < s.len() ==> !is_whitespace(#[trigger] s[i]),
    ensures
        spaced_pieces(s) == seq![s],
    decreases s.len(),
{
    if s.len() == 0 {
        assert(s =~= Seq::<char>::empty());
    } else {
        assert(s[s.len() - 1] == s.last());
        assert forall|i: int| 0 <= i < s.drop_last().len() implies !is_whitespace(
            #[trigger] s.drop_last()[i],
        ) by {
            assert(s[i] == s.drop_last()[i]);
        }
        lemma_one_word(s.drop_last());
        assert(s.drop_last().push(s.last()) =~= s);
        assert(spaced_pieces(s) =~= seq![s]);
    }
}

/// Joining puts the separator between each two parts and nowhere else.
pub proof fn law_joining_separates_the_parts(
    part: Seq<char>,
    first: Seq<Seq<char>>,
    second: Seq<Seq<char>>,
    sep: Seq<char>,
)
    requires
        first.len() > 0,
        second.len() > 0,
    ensures
        joined(seq![part], sep) == part,
        joined(first + second, sep) == joined(first, sep) + sep + joined(second, sep),
    decreases second.len(),
{
    let all = first + second;
    if second.len() == 1 {
        assert(all.drop_last() =~= first);
        assert(joined(second, sep) == second[0]);
    } else {
        law_joining_separates_the_parts(part, first, second.drop_last(), sep);
        assert(all.drop_last() =~= first + second.drop_last());
        assert(joined(all, sep) =~= joined(first, sep) + sep + joined(second, sep));
    }
}

/// A number is written in digits that read back as that number, whatever the largest number that
/// is asked for, unless it is larger still; it begins with a zero only where it is zero.
pub proof fn law_decimals_read_back(n: nat, max: nat)
    ensures
        unsigned_value(decimal_of(n), max) == if n <= max {
            Some(n)
        } else {
            None
        },
        decimal_of(n).len() > 0,
        forall|i: int| 0 <= i < decimal_of(n).len() ==> '0' <= #[trigger] decimal_of(n)[i] <= '9',
        decimal_of(n)[0] == '0' <==> n == 0,
    decreases n,
{
    lemma_digits_of(n);
}

proof fn lemma_digits_of(n: nat)
    ensures
        decimal_of(n).len() > 0,
        forall|i: int| 0 <= i < decimal_of(n).len() ==> is_digit(#[trigger] decimal_of(n)[i]),
        digits_value(decimal_of(n)) == n,
        decimal_of(n)[0] == '0' <==> n == 0,
    decreases n,
{
    let s = decimal_of(n);
    if n < 10 {
        assert(s.drop_last() =~= Seq::<char>::empty());
        assert(digits_value(s.drop_last()) == 0);
        assert(digit_char(n) as nat == 48 + n);
    } else {
        lemma_digits_of(n / 10);
        assert(s.drop_last() =~= decimal_of(n / 10));
        assert(digit_char(n % 10) as nat == 48 + n % 10);
        assert(s[0] == decimal_of(n / 10)[0]);
    }
}

/// A negative number is written with a minus sign before the digits of its size.
pub proof fn law_signs_are_written(n: int)
    ensures
        n >= 0 ==> signed_decimal_of(n) == decimal_of(n as nat),
        n < 0 ==> signed_decimal_of(n)[0] == '-' && signed_decimal_of(n).skip(1) == decimal_of(
            (-n) as nat,
        ),
{
    if n < 0 {
        assert(signed_decimal_of(n).skip(1) =~= decimal_of((-n) as nat));
    }
}

/// Digits are read in base ten: one more digit makes ten times the number before it and the digit,
/// or nothing where that is too large.
pub proof fn law_digits_are_read_in_base_ten(s: Seq<char>, digit: char, max: nat)
    requires
        s.len() > 0,
        '0' <= digit <= '9',
        forall|i: int| 0 <= i < s.len() ==> '0' <= #[trigger] s[i] <= '9',
    ensures
        unsigned_value(seq![digit], max) == if digit as int - '0' as int <= max {
            Some((digit as int - '0' as int) as nat)
        } else {
            None
        },
        unsigned_value(s, max) is None ==> unsigned_value(s.push(digit), max) is None,
        unsigned_value(s, max) is Some ==> unsigned_value(s.push(digit), max) == if 10
            * unsigned_value(s, max)->0 + (digit as int - '0' as int) <= max {
            Some((10 * unsigned_value(s, max)->0 + (digit as int - '0' as int)) as nat)
        } else {
            None
        },
{
    assert(seq![digit].drop_last() =~= Seq::<char>::empty());
    assert(digits_value(Seq::<char>::empty()) == 0);
    assert(seq![digit][0] == digit);
    assert(s.push(digit).drop_last() =~= s);
    assert(s[0] == s.push(digit)[0]);
    assert forall|i: int| 0 <= i < s.push(digit).len() implies is_digit(
        #[trigger] s.push(digit)[i],
    ) by {
        if i < s.len() {
            assert(is_digit(s[i]));
        }
    }
}

/// Only digits are a number, after one plus sign at most.
pub proof fn law_only_digits_are_a_number(s: Seq<char>, max: nat, i: int)
    requires
        0 <= i < s.len(),
        !('0' <= s[i] <= '9'),
    ensures
        i > 0 || s[0] != '+' || s.len() == 1 ==> unsigned_value(s, max) is None,
        unsigned_value(Seq::empty(), max) is None,
        s[0] == '+' && s.len() > 1 && s[1] != '+' ==> unsigned_value(s, max) == unsigned_value(
            s.drop_first(),
            max,
        ),
{
    let body = unsigned_body(s);
    if s[0] == '+' {
        if i > 0 {
            assert(body[i - 1] == s[i]);
            assert(!is_digit(body[i - 1]));
        }
    } else {
        assert(!is_digit(body[i]));
    }
}

/// A text is cut at the first place where the pattern stands: the two sides around the pattern
/// give back the text, and the pattern stands nowhere before. A text is left whole exactly where
/// the pattern stands nowhere in it.
pub proof fn law_a_cut_is_at_the_first_place(s: Seq<char>, pattern: Seq<char>)
    ensures
        cut_once(s, pattern) matches Some((before, after)) ==> s == before + pattern + after
            && forall|i: int|
            #![trigger s.subrange(i, i + pattern.len())]
            0 <= i < before.len() ==> s.subrange(i, i + pattern.len()) != pattern,
        cut_once(s, pattern) is None ==> forall|i: int|
            #![trigger s.subrange(i, i + pattern.len())]
            0 <= i <= s.len() - pattern.len() ==> s.subrange(i, i + pattern.len()) != pattern,
{
    lemma_first_occurrence(s, pattern, 0);
    if let Some(at) = first_occurrence(s, pattern, 0) {
        assert(s =~= s.take(at) + s.subrange(at, at + pattern.len()) + s.skip(at + pattern.len()));
    }
}

proof fn lemma_first_occurrence(s: Seq<char>, pattern: Seq<char>, from: int)
    requires
        0 <= from,
    ensures
        first_occurrence(s, pattern, from) matches Some(at) ==> from <= at && at + pattern.len()
            <= s.len() && s.subrange(at, at + pattern.len()) == pattern && forall|i: int|
            #![trigger s.subrange(i, i + pattern.len())]
            from <= i < at ==> s.subrange(i, i + pattern.len()) != pattern,
        first_occurrence(s, pattern, from) is None ==> forall|i: int|
            #![trigger s.subrange(i, i + pattern.len())]
            from <= i <= s.len() - pattern.len() ==> s.subrange(i, i + pattern.len()) != pattern,
    decreases s.len() + 1 - from,
{
    if from + pattern.len() <= s.len() && s.subrange(from, from + pattern.len()) != pattern {
        lemma_first_occurrence(s, pattern, from + 1);
    }
}

/// What is left without a prefix is what followed it, and without a suffix what stood before it.
pub proof fn law_prefixes_and_suffixes_come_off(s: Seq<char>, affix: Seq<char>, rest: Seq<char>)
    ensures
        without_prefix(s, affix) == Some(rest) <==> s == affix + rest,
        without_suffix(s, affix) == Some(rest) <==> s == rest + affix,
        occurs_at(s, affix, 0) <==> without_prefix(s, affix) is Some,
{
    if without_prefix(s, affix) == Some(rest) {
        assert(s =~= s.subrange(0, affix.len() as int) + s.skip(affix.len() as int));
    }
    if s == affix + rest {
        assert(s.subrange(0, affix.len() as int) =~= affix);
        assert(s.skip(affix.len() as int) =~= rest);
    }
    if without_suffix(s, affix) == Some(rest) {
        let at = s.len() - affix.len();
        assert(s =~= s.take(at) + s.subrange(at, at + affix.len()));
    }
    if s == rest + affix {
        let at = s.len() - affix.len();
        assert(s.subrange(at, at + affix.len()) =~= affix);
        assert(s.take(at) =~= rest);
    }
}

/// Folding the case changes capital letters to small ones and nothing else; what is folded is
/// folded for good.
pub proof fn law_folding_changes_capitals_only(s: Seq<char>, i: int)
    ensures
        ascii_folded(s).len() == s.len(),
        0 <= i < s.len() && 'A' <= s[i] <= 'Z' ==> ascii_folded(s)[i] as int == s[i] as int + 32,
        0 <= i < s.len() && !('A' <= s[i] <= 'Z') ==> ascii_folded(s)[i] == s[i],
        ascii_folded(ascii_folded(s)) == ascii_folded(s),
{
    assert forall|k: int| 0 <= k < s.len() implies ascii_folded(ascii_folded(s))[k]
        == #[trigger] ascii_folded(s)[k] by {
        let c = s[k];
        if 'A' <= c <= 'Z' {
            assert(ascii_lower(c) as int == c as int + 32);
        }
    }
    assert(ascii_folded(ascii_folded(s)) =~= ascii_folded(s));
}

/// Texts are ordered as in a dictionary of code points: by the first place where they differ, and
/// a text before all that continue it.
pub proof fn law_texts_are_ordered_by_the_first_difference(a: Seq<char>, b: Seq<char>)
    ensures
        text_before(a, b) <==> exists|k: int|
            #![trigger a.take(k)]
            0 <= k <= a.len() && k < b.len() && a.take(k) == b.take(k) && (k == a.len() || a[k]
                < b[k]),
    decreases b.len(),
{
    if b.len() > 0 && a.len() > 0 {
        let x = a.drop_first();
        let y = b.drop_first();
        law_texts_are_ordered_by_the_first_difference(x, y);
        if text_before(a, b) {
            if a[0] != b[0] {
                assert(a.take(0) =~= b.take(0));
            } else {
                let k = choose|k: int|
                    #![trigger x.take(k)]
                    0 <= k <= x.len() && k < y.len() && x.take(k) == y.take(k) && (k == x.len()
                        || x[k] < y[k]);
                assert(a.take(k + 1) =~= seq![a[0]] + x.take(k));
                assert(b.take(k + 1) =~= seq![b[0]] + y.take(k));
                assert(a.take(k + 1) == b.take(k + 1));
            }
        }
        if exists|k: int|
            #![trigger a.take(k)]
            0 <= k <= a.len() && k < b.len() && a.take(k) == b.take(k) && (k == a.len() || a[k]
                < b[k]) {
            let k = choose|k: int|
                #![trigger a.take(k)]
                0 <= k <= a.len() && k < b.len() && a.take(k) == b.take(k) && (k == a.len() || a[k]
                    < b[k]);
            if k > 0 {
                assert(a.take(k)[0] == a[0] && b.take(k)[0] == b[0]);
                assert(x.take(k - 1) =~= a.take(k).skip(1));
                assert(y.take(k - 1) =~= b.take(k).skip(1));
                assert(x.take(k - 1) == y.take(k - 1));
            }
        }
    } else if b.len() > 0 {
        assert(a.take(0) =~= b.take(0));
    }
}

/// A text that neither begins nor ends with whitespace is trimmed already.
pub proof fn law_trimmed_text_stays(s: Seq<char>)
    requires
        s.len() > 0 ==> !is_whitespace(s[0]) && !is_whitespace(s[s.len() - 1]),
    ensures
        trimmed(s) == s,
{
    assert(trimmed_start(s) == s);
}

/// Whitespace is what Unicode calls white space.
pub proof fn law_whitespace_is_white_space(c: char)
    ensures
        is_whitespace(c) <==> {
            let code = c as int;
            ||| 9 <= code <= 13
            ||| code == 32 || code == 133 || code == 160 || code == 5760
            ||| 8192 <= code <= 8202
            ||| code == 8232 || code == 8233 || code == 8239 || code == 8287 || code == 12288
        },
{
}

/// Whitespace around a text holds no words.
pub proof fn law_trimming_keeps_the_words(s: Seq<char>)
    ensures
        words_of(trimmed(s)) == words_of(s),
{
    lemma_start_holds_no_words(s);
    lemma_end_holds_no_words(trimmed_start(s));
}

proof fn lemma_start_holds_no_words(s: Seq<char>)
    ensures
        words_of(trimmed_start(s)) == words_of(s),
    decreases s.len(),
{
    if s.len() > 0 && is_whitespace(s[0]) {
        let rest = s.drop_first();
        let none = Seq::<char>::empty();
        lemma_start_holds_no_words(rest);
        law_words_are_what_whitespace_parts(none, s[0], rest);
        assert(none.push(s[0]) + rest =~= s);
        assert(words_of(none) + words_of(rest) =~= words_of(rest));
    }
}

proof fn lemma_end_holds_no_words(s: Seq<char>)
    ensures
        words_of(trimmed_end(s)) == words_of(s),
    decreases s.len(),
{
    if s.len() > 0 && is_whitespace(s.last()) {
        let rest = s.drop_last();
        let none = Seq::<char>::empty();
        lemma_end_holds_no_words(rest);
        law_words_are_what_whitespace_parts(rest, s.last(), none);
        assert(rest.push(s.last()) + none =~= s);
        assert(words_of(rest) + words_of(none) =~= words_of(rest));
    }
}

/// A text that does not begin with whitespace begins with its first word.
pub proof fn law_the_first_word_begins_the_text(s: Seq<char>)
    requires
        s.len() > 0,
        !is_whitespace(s[0]),
    ensures
        words_of(s).len() > 0,
        words_of(s)[0].len() > 0,
        words_of(s)[0][0] == s[0],
{
    lemma_first_piece(s);
    lemma_first_nonempty(spaced_pieces(s));
}

proof fn lemma_first_piece(s: Seq<char>)
    requires
        s.len() > 0,
        !is_whitespace(s[0]),
    ensures
        spaced_pieces(s).len() > 0,
        spaced_pieces(s)[0].len() > 0,
        spaced_pieces(s)[0][0] == s[0],
    decreases s.len(),
{
    if s.len() == 1 {
        assert(s.drop_last() =~= Seq::<char>::empty());
        assert(spaced_pieces(s.drop_last()) =~= seq![Seq::<char>::empty()]);
        assert(spaced_pieces(s)[0] =~= Seq::<char>::empty().push(s[0]));
    } else {
        lemma_first_piece(s.drop_last());
        let before = spaced_pieces(s.drop_last());
        if !is_whitespace(s.last()) && before.len() == 1 {
            assert(spaced_pieces(s)[0] == before[0].push(s.last()));
        } else {
            assert(spaced_pieces(s)[0] == before[0]);
        }
    }
}

proof fn lemma_first_nonempty(list: Seq<Seq<char>>)
    requires
        list.len() > 0,
        list[0].len() > 0,
    ensures
        nonempty(list).len() > 0,
        nonempty(list)[0] == list[0],
    decreases list.len(),
{
    if list.len() > 1 {
        lemma_first_nonempty(list.drop_last());
    } else {
        assert(nonempty(list.drop_last()) =~= Seq::empty());
    }
}

} // verus!
