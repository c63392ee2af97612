//! Tokenisation: lower-case alphanumeric runs, as the keyword index cuts text.

use vstd::prelude::*;

use crate::text::{ascii_folded, chars_of, lemma_texts_push, texts};

verus! {

/// Whether `char::is_alphanumeric` holds of a character.
pub uninterp spec fn alphanumeric(c: char) -> bool;

/// What `str::to_lowercase` makes of a text.
pub uninterp spec fn lowercase(s: Seq<char>) -> Seq<char>;

/// Whether a character is an ASCII letter or digit.
pub open spec fn is_ascii_alphanumeric(c: char) -> bool {
    ('0' <= c <= '9') || ('a' <= c <= 'z') || ('A' <= c <= 'Z')
}

/// Whether a text holds ASCII characters only.
pub open spec fn is_ascii_text(s: Seq<char>) -> bool {
    forall|i: int| 0 <= i < s.len() ==> (#[trigger] s[i]) as u32 <= 127
}

/// What is known of the lower case of a text: where the text is ASCII, its ASCII letters in lower
/// case.
pub open spec fn ascii_known(s: Seq<char>) -> bool {
    is_ascii_text(s) ==> lowercase(s) == ascii_folded(s)
}

/// `char::is_alphanumeric`: the Unicode property, named [`alphanumeric`]. Of ASCII characters
/// exactly the letters and the digits have it.
#[verifier::external_body]
fn is_alphanumeric(c: char) -> (result: bool)
    ensures
        result == alphanumeric(c),
        c as u32 <= 127 ==> result == is_ascii_alphanumeric(c),
{
    c.is_alphanumeric()
}

/// `str::to_lowercase`: the Unicode lower case of a text, named [`lowercase`]. Of an ASCII text
/// it is the text with its ASCII letters in lower case.
#[verifier::external_body]
pub(crate) fn to_lowercase(text: &str) -> (result: String)
    ensures
        result@ == lowercase(text@),
        is_ascii_text(text@) ==> result@ == ascii_folded(text@),
{
    text.to_lowercase()
}

/// The runs of alphanumeric characters, with the empty texts between neighbouring separators.
pub open spec fn runs(s: Seq<char>) -> Seq<Seq<char>>
    decreases s.len(),
{
    if s.len() == 0 {
        seq![Seq::<char>::empty()]
    } else {
        let before = runs(s.drop_last());
        if alphanumeric(s.last()) {
            before.drop_last().push(before.last().push(s.last()))
        } else {
            before.push(Seq::<char>::empty())
        }
    }
}

/// The tokens of a run: the run in lower case, or none for an empty run.
pub open spec fn token_of(run: Seq<char>) -> Option<Seq<char>> {
    if run.len() == 0 {
        None
    } else {
        Some(lowercase(run))
    }
}

/// The tokens of the given runs, in order.
pub open spec fn tokens_of_runs(list: Seq<Seq<char>>) -> Seq<Seq<char>>
    decreases list.len(),
{
    if list.len() == 0 {
        Seq::empty()
    } else {
        let before = tokens_of_runs(list.drop_last());
        match token_of(list.last()) {
            Some(token) => before.push(token),
            None => before,
        }
    }
}

/// The tokens of a text: its alphanumeric runs in lower case.
pub open spec fn tokens(s: Seq<char>) -> Seq<Seq<char>> {
    tokens_of_runs(runs(s))
}

/// The runs of ASCII letters and digits, with the empty texts between neighbouring separators.
pub open spec fn ascii_runs(s: Seq<char>) -> Seq<Seq<char>>
    decreases s.len(),
{
    if s.len() == 0 {
        seq![Seq::<char>::empty()]
    } else {
        let before = ascii_runs(s.drop_last());
        if is_ascii_alphanumeric(s.last()) {
            before.drop_last().push(before.last().push(s.last()))
        } else {
            before.push(Seq::<char>::empty())
        }
    }
}

/// The given runs with their ASCII letters in lower case, without the empty ones.
pub open spec fn folded_runs(list: Seq<Seq<char>>) -> Seq<Seq<char>>
    decreases list.len(),
{
    if list.len() == 0 {
        Seq::empty()
    } else {
        let before = folded_runs(list.drop_last());
        if list.last().len() == 0 {
            before
        } else {
            before.push(ascii_folded(list.last()))
        }
    }
}

/// The tokens of an ASCII text, in terms of ASCII alone.
pub open spec fn ascii_tokens(s: Seq<char>) -> Seq<Seq<char>> {
    folded_runs(ascii_runs(s))
}

/// What is known of the tokens of a text: where the text is ASCII, its runs of ASCII letters and
/// digits in lower case.
pub open spec fn tokens_known(s: Seq<char>) -> bool {
    is_ascii_text(s) ==> tokens(s) == ascii_tokens(s)
}

/// What is known of a character: whether it is alphanumeric, where it is ASCII.
spec fn char_known(c: char) -> bool {
    c as u32 <= 127 ==> alphanumeric(c) == is_ascii_alphanumeric(c)
}

/// What is known of a run that became a token.
spec fn run_known(run: Seq<char>) -> bool {
    run.len() > 0 ==> ascii_known(run)
}

proof fn lemma_ascii_runs(s: Seq<char>)
    requires
        is_ascii_text(s),
        forall|i: int| 0 <= i < s.len() ==> char_known(#[trigger] s[i]),
    ensures
        runs(s) == ascii_runs(s),
        runs(s).len() > 0,
        forall|k: int| 0 <= k < runs(s).len() ==> is_ascii_text(#[trigger] runs(s)[k]),
    decreases s.len(),
{
    if s.len() > 0 {
        let rest = s.drop_last();
        assert forall|i: int| 0 <= i < rest.len() implies char_known(#[trigger] rest[i]) by {
            assert(rest[i] == s[i]);
        }
        assert forall|i: int| 0 <= i < rest.len() implies (#[trigger] rest[i]) as u32 <= 127 by {
            assert(rest[i] == s[i]);
        }
        lemma_ascii_runs(rest);
        assert(char_known(s[s.len() - 1]));
        let before = runs(rest);
        assert(is_ascii_text(before[before.len() - 1]));
        if alphanumeric(s.last()) {
            let grown = before.last().push(s.last());
            assert(is_ascii_text(grown)) by {
                assert forall|i: int| 0 <= i < grown.len() implies (#[trigger] grown[i]) as u32
                    <= 127 by {
                    if i < before.last().len() {
                        assert(grown[i] == before.last()[i]);
                    } else {
                        assert(grown[i] == s[s.len() - 1]);
                    }
                }
            }
            assert forall|k: int| 0 <= k < runs(s).len() implies is_ascii_text(
                #[trigger] runs(s)[k],
            ) by {
                if k < before.len() - 1 {
                    assert(runs(s)[k] == before[k]);
                } else {
                    assert(runs(s)[k] == grown);
                }
            }
        } else {
            assert forall|k: int| 0 <= k < runs(s).len() implies is_ascii_text(
                #[trigger] runs(s)[k],
            ) by {
                if k < before.len() {
                    assert(runs(s)[k] == before[k]);
                }
            }
        }
    }
}

proof fn lemma_folded_runs(list: Seq<Seq<char>>)
    requires
        forall|k: int| 0 <= k < list.len() ==> is_ascii_text(#[trigger] list[k]),
        forall|k: int| 0 <= k < list.len() ==> run_known(#[trigger] list[k]),
    ensures
        tokens_of_runs(list) == folded_runs(list),
    decreases list.len(),
{
    if list.len() > 0 {
        let rest = list.drop_last();
        assert forall|k: int| 0 <= k < rest.len() implies is_ascii_text(#[trigger] rest[k]) by {
            assert(rest[k] == list[k]);
        }
        assert forall|k: int| 0 <= k < rest.len() implies run_known(#[trigger] rest[k]) by {
            assert(rest[k] == list[k]);
        }
        lemma_folded_runs(rest);
        assert(is_ascii_text(list[list.len() - 1]) && run_known(list[list.len() - 1]));
    }
}

fn close_run(found: &mut Vec<String>, run: &String)
    ensures
        run_known(run@),
        texts(final(found)@) == match token_of(run@) {
            Some(token) => texts(old(found)@).push(token),
            None => texts(old(found)@),
        },
{
    if !run.as_str().is_empty() {
        let token = to_lowercase(run.as_str());
        proof {
            lemma_texts_push(found@, token);
        }
        found.push(token);
    }
}

/// The tokens of `text`: its alphanumeric runs in lower case.
pub fn tokenize(text: &str) -> (found: Vec<String>)
    ensures
        texts(found@) == tokens(text@),
        tokens_known(text@),
{
    let chars = chars_of(text);
    let mut found: Vec<String> = Vec::new();
    let mut run = String::new();
    let mut i: usize = 0;
    proof {
        let start = runs(chars@.take(0));
        assert(start =~= seq![Seq::<char>::empty()]);
        assert(start.drop_last() =~= Seq::<Seq<char>>::empty());
        assert(texts(found@) =~= Seq::<Seq<char>>::empty());
    }
    while i < chars.len()
        invariant
            i <= chars@.len(),
            runs(chars@.take(i as int)).len() > 0,
            runs(chars@.take(i as int)).last() == run@,
            texts(found@) == tokens_of_runs(runs(chars@.take(i as int)).drop_last()),
            forall|j: int| 0 <= j < i ==> char_known(#[trigger] chars@[j]),
            forall|k: int|
                0 <= k < runs(chars@.take(i as int)).len() - 1 ==> run_known(
                    #[trigger] runs(chars@.take(i as int))[k],
                ),
        decreases chars@.len() - i,
    {
        let c = chars[i];
        let ghost before = runs(chars@.take(i as int));
        let ghost seen = chars@.take(i + 1);
        proof {
            assert(seen.drop_last() =~= chars@.take(i as int));
            assert(seen.last() == c);
        }
        if is_alphanumeric(c) {
            run.push(c);
            assert(runs(seen).drop_last() =~= before.drop_last());
            assert forall|k: int| 0 <= k < runs(seen).len() - 1 implies run_known(
                #[trigger] runs(seen)[k],
            ) by {
                assert(runs(seen)[k] == before[k]);
            }
        } else {
            close_run(&mut found, &run);
            run = String::new();
            assert(run@ =~= Seq::<char>::empty());
            assert(runs(seen).drop_last() =~= before);
            assert forall|k: int| 0 <= k < runs(seen).len() - 1 implies run_known(
                #[trigger] runs(seen)[k],
            ) by {
                assert(runs(seen)[k] == before[k]);
            }
        }
        i = i + 1;
    }
    assert(chars@.take(i as int) =~= chars@);
    close_run(&mut found, &run);
    proof {
        if is_ascii_text(text@) {
            lemma_ascii_runs(text@);
            lemma_folded_runs(runs(text@));
        }
    }
    found
}

/// Tokens are read run by run: a character that is neither letter nor digit ends a token, and a
/// text of letters and digits alone is one token, in lower case.
pub proof fn law_tokens_are_runs_of_letters_and_digits(a: Seq<char>, mark: char, b: Seq<char>)
    requires
        !alphanumeric(mark),
    ensures
        tokens(a.push(mark) + b) == tokens(a) + tokens(b),
        tokens(Seq::empty()).len() == 0,
        a.len() > 0 && (forall|i: int| 0 <= i < a.len() ==> alphanumeric(#[trigger] a[i]))
            ==> tokens(a) == seq![lowercase(a)],
{
    lemma_runs_around(a, mark, b);
    lemma_tokens_of_both(runs(a), runs(b));
    reveal_with_fuel(tokens_of_runs, 2);
    let none = Seq::<Seq<char>>::empty();
    assert(runs(Seq::empty()) =~= seq![Seq::<char>::empty()]);
    assert(seq![Seq::<char>::empty()].drop_last() =~= none);
    assert(tokens_of_runs(none) =~= none);
    if a.len() > 0 && (forall|i: int| 0 <= i < a.len() ==> alphanumeric(#[trigger] a[i])) {
        lemma_one_run(a);
        assert(seq![a].drop_last() =~= none);
        assert(tokens(a) =~= seq![lowercase(a)]);
    }
}

proof fn lemma_runs_around(a: Seq<char>, mark: char, b: Seq<char>)
    requires
        !alphanumeric(mark),
    ensures
        runs(a.push(mark) + b) == runs(a) + runs(b),
        runs(b).len() > 0,
    decreases b.len(),
{
    let all = a.push(mark) + b;
    if b.len() == 0 {
        assert(all =~= a.push(mark));
        assert(a.push(mark).drop_last() =~= a);
        assert(runs(all) =~= runs(a) + runs(b));
    } else {
        lemma_runs_around(a, mark, b.drop_last());
        assert(all.drop_last() =~= a.push(mark) + b.drop_last());
        assert(all.last() == b.last());
        assert(runs(all) =~= runs(a) + runs(b));
    }
}

proof fn lemma_one_run(s: Seq<char>)
    requires
        forall|i: int| 0 <= i < s.len() ==> alphanumeric(#[trigger] s[i]),
    ensures
        runs(s) == seq![s],
    decreases s.len(),
{
    if s.len() == 0 {
        assert(s =~= Seq::<char>::empty());
    } else {
        assert(s[s.len() - 1] == s.last());
        assert forall|i: int| 0 <= i < s.drop_last().len() implies alphanumeric(
            #[trigger] s.drop_last()[i],
        ) by {
            assert(s[i] == s.drop_last()[i]);
        }
        lemma_one_run(s.drop_last());
        assert(s.drop_last().push(s.last()) =~= s);
        assert(runs(s) =~= seq![s]);
    }
}

proof fn lemma_tokens_of_both(a: Seq<Seq<char>>, b: Seq<Seq<char>>)
    ensures
        tokens_of_runs(a + b) == tokens_of_runs(a) + tokens_of_runs(b),
    decreases b.len(),
{
    if b.len() == 0 {
        assert(a + b =~= a);
        assert(tokens_of_runs(a) + tokens_of_runs(b) =~= tokens_of_runs(a));
    } else {
        lemma_tokens_of_both(a, b.drop_last());
        assert((a + b).drop_last() =~= a + b.drop_last());
        assert(tokens_of_runs(a + b) =~= tokens_of_runs(a) + tokens_of_runs(b));
    }
}

} // verus!
