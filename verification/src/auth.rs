//! Scoped bearer tokens on the client-facing calls.
//!
//! A token file (lines `<token> <scope>`, `#` comments) maps opaque bearer tokens to a scope:
//! `read` may query and read cluster state; `operator` may also mutate, and implies read. Without
//! a file every check passes.

use vstd::hash_map::StringHashMap;
use vstd::prelude::*;
use vstd::string::*;

use crate::text::{
    occurs_at, owned, pieces, same, split, starts_with, strip_prefix, texts, trim, trimmed,
    without_prefix, words, words_of,
};

verus! {

/// What a token may do.
#[derive(Clone, Copy, Debug, PartialEq, Eq, Structural)]
pub enum Scope {
    Read,
    Operator,
}

impl Scope {
    /// Whether a token holding this scope satisfies a requirement of `needed`.
    pub open spec fn spec_satisfies(self, needed: Scope) -> bool {
        self == Scope::Operator || needed == Scope::Read
    }

    /// The scope that a word of the token file names.
    pub open spec fn spec_parse(word: Seq<char>) -> Option<Scope> {
        if word == "read"@ {
            Some(Scope::Read)
        } else if word == "operator"@ {
            Some(Scope::Operator)
        } else {
            None
        }
    }

    /// The name of the scope.
    pub open spec fn spec_name(self) -> Seq<char> {
        match self {
            Scope::Read => "Read"@,
            Scope::Operator => "Operator"@,
        }
    }

    /// Whether a token holding this scope satisfies a requirement of `needed`: operators may do
    /// everything, readers only read.
    pub fn satisfies(self, needed: Scope) -> (result: bool)
        ensures
            result == self.spec_satisfies(needed),
    {
        match (self, needed) {
            (Scope::Operator, _) => true,
            (Scope::Read, Scope::Read) => true,
            (Scope::Read, Scope::Operator) => false,
        }
    }

    /// The scope that a word of the token file names.
    pub fn parse(word: &str) -> (scope: Option<Scope>)
        ensures
            scope == Scope::spec_parse(word@),
    {
        if same(word, "read") {
            Some(Scope::Read)
        } else if same(word, "operator") {
            Some(Scope::Operator)
        } else {
            None
        }
    }
}

/// Why a token file is refused.
#[derive(Debug, PartialEq)]
pub enum TokenFileError {
    /// A line with a single word.
    BadLine(String),
    /// A line whose second word names no scope.
    UnknownScope(String),
    /// No line defines a token.
    NoTokens,
}

/// What a line of a token file means.
pub enum LineMeaning {
    Ignored,
    BadLine(Seq<char>),
    UnknownScope(Seq<char>),
    Grants(Seq<char>, Scope),
}

/// What a line of a token file means: blank lines and comments nothing, any other a token and
/// its scope.
pub open spec fn meaning_of(raw: Seq<char>) -> LineMeaning {
    let line = trimmed(raw);
    let parts = words_of(line);
    if line.len() == 0 || occurs_at(line, "#"@, 0) {
        LineMeaning::Ignored
    } else if parts.len() < 2 {
        LineMeaning::BadLine(line)
    } else {
        match Scope::spec_parse(parts[1]) {
            Some(scope) => LineMeaning::Grants(parts[0], scope),
            None => LineMeaning::UnknownScope(parts[1]),
        }
    }
}

/// The tokens that the lines define, the last definition of a token winning; or the meaning of
/// the first line that is refused.
pub open spec fn table_of(lines: Seq<Seq<char>>) -> Result<Map<Seq<char>, Scope>, LineMeaning>
    decreases lines.len(),
{
    if lines.len() == 0 {
        Ok(Map::empty())
    } else {
        match table_of(lines.drop_last()) {
            Err(fault) => Err(fault),
            Ok(table) => match meaning_of(lines.last()) {
                LineMeaning::Ignored => Ok(table),
                LineMeaning::Grants(token, scope) => Ok(table.insert(token, scope)),
                fault => Err(fault),
            },
        }
    }
}

/// A refusal stays a refusal, whatever follows.
proof fn lemma_first_fault_stays(lines: Seq<Seq<char>>, k: int)
    requires
        0 <= k <= lines.len(),
        table_of(lines.take(k)) is Err,
    ensures
        table_of(lines) == table_of(lines.take(k)),
    decreases lines.len(),
{
    if k < lines.len() {
        assert(lines.drop_last().take(k) =~= lines.take(k));
        lemma_first_fault_stays(lines.drop_last(), k);
    } else {
        assert(lines.take(k) =~= lines);
    }
}

/// Why a request is refused.
#[derive(Clone, Copy, Debug, PartialEq, Eq, Structural)]
pub enum AuthError {
    /// No bearer token.
    MissingToken,
    /// A token that the table does not know.
    UnknownToken,
    /// A known token of insufficient scope.
    ScopeRequired(Scope),
}

/// The two kinds of refusal that a caller must tell apart.
#[derive(Clone, Copy, Debug, PartialEq, Eq, Structural)]
pub enum AuthCode {
    Unauthenticated,
    PermissionDenied,
}

impl AuthError {
    /// The kind of a refusal: a missing or unknown token is unauthenticated, a known token of
    /// insufficient scope is denied.
    pub open spec fn spec_code(self) -> AuthCode {
        match self {
            AuthError::ScopeRequired(_) => AuthCode::PermissionDenied,
            _ => AuthCode::Unauthenticated,
        }
    }

    /// The kind of a refusal.
    pub fn code(self) -> (code: AuthCode)
        ensures
            code == self.spec_code(),
    {
        match self {
            AuthError::ScopeRequired(_) => AuthCode::PermissionDenied,
            _ => AuthCode::Unauthenticated,
        }
    }

    /// The text of a refusal.
    pub open spec fn spec_message(self) -> Seq<char> {
        match self {
            AuthError::MissingToken => "missing bearer token"@,
            AuthError::UnknownToken => "unknown token"@,
            AuthError::ScopeRequired(needed) => needed.spec_name() + " scope required"@,
        }
    }

    /// The text of a refusal.
    pub fn message(self) -> (text: String)
        ensures
            text@ == self.spec_message(),
    {
        match self {
            AuthError::MissingToken => owned("missing bearer token"),
            AuthError::UnknownToken => owned("unknown token"),
            AuthError::ScopeRequired(needed) => {
                let mut text = match needed {
                    Scope::Read => owned("Read"),
                    Scope::Operator => owned("Operator"),
                };
                text.append(" scope required");
                text
            },
        }
    }
}

/// Token to scope table. A disabled table lets everything pass.
pub struct Auth {
    tokens: StringHashMap<Scope>,
    enabled: bool,
}

impl Default for Auth {
    /// Checks switched off.
    fn default() -> (auth: Self)
        ensures
            !auth.spec_enabled(),
            auth.tokens() == Map::<Seq<char>, Scope>::empty(),
    {
        Auth { tokens: StringHashMap::new(), enabled: false }
    }
}

/// What a check decides for the value of an `authorization` header.
pub open spec fn verdict(
    enabled: bool,
    tokens: Map<Seq<char>, Scope>,
    authorization: Option<Seq<char>>,
    needed: Scope,
) -> Result<(), AuthError> {
    if !enabled {
        Ok(())
    } else {
        match authorization {
            None => Err(AuthError::MissingToken),
            Some(header) => match without_prefix(header, "Bearer "@) {
                None => Err(AuthError::MissingToken),
                Some(token) => if !tokens.contains_key(token) {
                    Err(AuthError::UnknownToken)
                } else if tokens[token].spec_satisfies(needed) {
                    Ok(())
                } else {
                    Err(AuthError::ScopeRequired(needed))
                },
            },
        }
    }
}

/// Whether `result` is what a token file says: the tokens that its lines grant, or why it grants
/// none.
pub open spec fn reads_file(contents: Seq<char>, result: Result<Auth, TokenFileError>) -> bool {
    match (table_of(pieces(contents, '\n')), result) {
        (Ok(table), Ok(auth)) => !table.is_empty() && auth.tokens() == table
            && auth.spec_enabled(),
        (Ok(table), Err(TokenFileError::NoTokens)) => table.is_empty(),
        (Err(LineMeaning::BadLine(line)), Err(TokenFileError::BadLine(text))) => text@ == line,
        (Err(LineMeaning::UnknownScope(word)), Err(TokenFileError::UnknownScope(text))) => text@
            == word,
        _ => false,
    }
}

impl Auth {
    /// The scope of each token.
    pub closed spec fn tokens(self) -> Map<Seq<char>, Scope> {
        self.tokens@
    }

    /// Whether checks are on.
    pub closed spec fn spec_enabled(self) -> bool {
        self.enabled
    }

    /// Read a token file: every line that is neither blank nor a comment defines a token. The
    /// first bad line is reported, and a file without tokens is refused.
    pub fn parse(contents: &str) -> (result: Result<Auth, TokenFileError>)
        ensures
            reads_file(contents@, result),
    {
        let lines = split(contents, '\n');
        let mut tokens: StringHashMap<Scope> = StringHashMap::new();
        let ghost all = texts(lines@);
        let mut i: usize = 0;
        assert(all.take(0) =~= Seq::<Seq<char>>::empty());
        while i < lines.len()
            invariant
                i <= lines@.len(),
                all == texts(lines@),
                all == pieces(contents@, '\n'),
                table_of(all.take(i as int)) == Ok::<Map<Seq<char>, Scope>, LineMeaning>(tokens@),
            decreases lines@.len() - i,
        {
            let ghost seen = all.take(i + 1);
            proof {
                assert(seen.drop_last() =~= all.take(i as int));
                assert(seen.last() == lines@[i as int]@);
            }
            let line = trim(lines[i].as_str());
            if !line.as_str().is_empty() && !starts_with(line.as_str(), "#") {
                let parts = words(line.as_str());
                proof {
                    assert(parts@.len() == words_of(line@).len());
                }
                if parts.len() < 2 {
                    proof {
                        lemma_first_fault_stays(all, i + 1);
                    }
                    return Err(TokenFileError::BadLine(line));
                }
                assert(words_of(line@)[0] == parts@[0]@);
                assert(words_of(line@)[1] == parts@[1]@);
                match Scope::parse(parts[1].as_str()) {
                    Some(scope) => {
                        tokens.insert(parts[0].clone(), scope);
                    },
                    None => {
                        proof {
                            lemma_first_fault_stays(all, i + 1);
                        }
                        return Err(TokenFileError::UnknownScope(parts[1].clone()));
                    },
                }
            }
            i = i + 1;
        }
        assert(all.take(i as int) =~= all);
        if tokens.is_empty() {
            return Err(TokenFileError::NoTokens);
        }
        Ok(Auth { tokens, enabled: true })
    }

    /// Whether checks are on.
    pub fn enabled(&self) -> (result: bool)
        ensures
            result == self.spec_enabled(),
    {
        self.enabled
    }

    /// How many tokens are defined.
    pub fn token_count(&self) -> (count: usize)
        ensures
            count == self.tokens().len(),
    {
        self.tokens.len()
    }

    /// Enforce that a request carries a token granting at least `needed`, given the value of its
    /// `authorization` header. Everything passes while checks are off.
    pub fn require(&self, authorization: Option<&str>, needed: Scope) -> (result: Result<
        (),
        AuthError,
    >)
        ensures
            result == verdict(
                self.spec_enabled(),
                self.tokens(),
                match authorization {
                    Some(header) => Some(header@),
                    None => None,
                },
                needed,
            ),
    {
        if !self.enabled {
            return Ok(());
        }
        match authorization {
            None => Err(AuthError::MissingToken),
            Some(header) => match strip_prefix(header, "Bearer ") {
                None => Err(AuthError::MissingToken),
                Some(token) => match self.tokens.get(token.as_str()) {
                    None => Err(AuthError::UnknownToken),
                    Some(scope) => if scope.satisfies(needed) {
                        Ok(())
                    } else {
                        Err(AuthError::ScopeRequired(needed))
                    },
                },
            },
        }
    }
}

/// Checks that are off let every request pass.
pub proof fn law_disabled_allows_everything(
    tokens: Map<Seq<char>, Scope>,
    authorization: Option<Seq<char>>,
    needed: Scope,
)
    ensures
        verdict(false, tokens, authorization, needed) is Ok,
{
}

/// Operator implies read: a request that may mutate may also read.
pub proof fn law_operator_implies_read(
    enabled: bool,
    tokens: Map<Seq<char>, Scope>,
    authorization: Option<Seq<char>>,
)
    requires
        verdict(enabled, tokens, authorization, Scope::Operator) is Ok,
    ensures
        verdict(enabled, tokens, authorization, Scope::Read) is Ok,
{
}

/// While checks are on nothing passes without a token that the table knows.
pub proof fn law_no_entry_without_a_known_token(
    tokens: Map<Seq<char>, Scope>,
    authorization: Option<Seq<char>>,
    needed: Scope,
)
    requires
        verdict(true, tokens, authorization, needed) is Ok,
    ensures
        authorization is Some,
        without_prefix(authorization->0, "Bearer "@) is Some,
        tokens.contains_key(without_prefix(authorization->0, "Bearer "@)->0),
{
}

/// A scope is read by its name and by nothing else.
pub proof fn law_a_scope_is_read_by_its_name(word: Seq<char>)
    ensures
        Scope::spec_parse(word) == Some(Scope::Read) <==> word == "read"@,
        Scope::spec_parse(word) == Some(Scope::Operator) <==> word == "operator"@,
        Scope::spec_parse(word) is None <==> word != "read"@ && word != "operator"@,
{
    reveal_strlit("read");
    reveal_strlit("operator");
    assert("read"@.len() == 4 && "operator"@.len() == 8);
}

/// A known token opens what its scope covers: an operator's everything, a reader's only reading.
/// An unknown token opens nothing, and a header that carries no bearer token is answered as if
/// there were none.
pub proof fn law_a_token_opens_what_its_scope_covers(
    tokens: Map<Seq<char>, Scope>,
    token: Seq<char>,
    header: Seq<char>,
    needed: Scope,
)
    ensures
        ({
            let outcome = verdict(true, tokens, Some("Bearer "@ + token), needed);
            &&& tokens.contains_key(token) && tokens[token] == Scope::Operator ==> outcome is Ok
            &&& tokens.contains_key(token) && tokens[token] == Scope::Read ==> (outcome is Ok
                <==> needed == Scope::Read)
            &&& tokens.contains_key(token) && outcome is Err ==> outcome == Err::<(), AuthError>(
                AuthError::ScopeRequired(needed),
            )
            &&& !tokens.contains_key(token) ==> outcome == Err::<(), AuthError>(
                AuthError::UnknownToken,
            )
        }),
        (forall|rest: Seq<char>| header != #[trigger] ("Bearer "@ + rest)) ==> verdict(
            true,
            tokens,
            Some(header),
            needed,
        ) == Err::<(), AuthError>(AuthError::MissingToken),
        verdict(true, tokens, None, needed) == Err::<(), AuthError>(AuthError::MissingToken),
{
    crate::text::law_prefixes_and_suffixes_come_off("Bearer "@ + token, "Bearer "@, token);
    if without_prefix(header, "Bearer "@) is Some {
        let rest = without_prefix(header, "Bearer "@)->0;
        crate::text::law_prefixes_and_suffixes_come_off(header, "Bearer "@, rest);
        assert(header == "Bearer "@ + rest);
    }
}

/// A missing or unknown token is not authenticated; a known one of too small a scope is denied.
pub proof fn law_refusals_tell_who_from_what(error: AuthError)
    ensures
        error == AuthError::MissingToken || error == AuthError::UnknownToken <==> error.spec_code()
            == AuthCode::Unauthenticated,
        error is ScopeRequired <==> error.spec_code() == AuthCode::PermissionDenied,
{
}

proof fn lemma_scope_words()
    ensures
        "read"@.len() == 4 && "operator"@.len() == 8,
        forall|i: int| 0 <= i < 4 ==> !crate::text::is_whitespace(#[trigger] "read"@[i]),
        forall|i: int| 0 <= i < 8 ==> !crate::text::is_whitespace(#[trigger] "operator"@[i]),
{
    reveal_strlit("read");
    reveal_strlit("operator");
    assert("read"@ =~= seq!['r', 'e', 'a', 'd']);
    assert("operator"@ =~= seq!['o', 'p', 'e', 'r', 'a', 't', 'o', 'r']);
}

/// A line of the token file is a token and, after whitespace, its scope: it grants that token
/// that scope, whatever was said of the token before, and changes nothing for others. A word that
/// names no scope, and a token without one, fail the whole file.
pub proof fn law_a_line_grants_its_token(
    lines: Seq<Seq<char>>,
    token: Seq<char>,
    space: char,
    word: Seq<char>,
)
    requires
        table_of(lines) is Ok,
        token.len() > 0,
        word.len() > 0,
        token[0] != '#',
        crate::text::is_whitespace(space),
        forall|i: int| 0 <= i < token.len() ==> !crate::text::is_whitespace(#[trigger] token[i]),
        forall|i: int| 0 <= i < word.len() ==> !crate::text::is_whitespace(#[trigger] word[i]),
    ensures
        ({
            let table = table_of(lines)->Ok_0;
            let after = table_of(lines.push(token.push(space) + word));
            &&& word == "read"@ ==> after == Ok::<Map<Seq<char>, Scope>, LineMeaning>(
                table.insert(token, Scope::Read),
            )
            &&& word == "operator"@ ==> after == Ok::<Map<Seq<char>, Scope>, LineMeaning>(
                table.insert(token, Scope::Operator),
            )
            &&& word != "read"@ && word != "operator"@ ==> after == Err::<
                Map<Seq<char>, Scope>,
                LineMeaning,
            >(LineMeaning::UnknownScope(word))
        }),
        table_of(lines.push(token)) == Err::<Map<Seq<char>, Scope>, LineMeaning>(
            LineMeaning::BadLine(token),
        ),
{
    lemma_scope_words();
    reveal_strlit("#");
    let line = token.push(space) + word;
    assert("#"@.len() == 1 && "#"@[0] == '#');
    assert(lines.push(line).drop_last() =~= lines);
    assert(lines.push(token).drop_last() =~= lines);
    assert(line[0] == token[0] && line[line.len() - 1] == word[word.len() - 1]);
    crate::text::law_trimmed_text_stays(line);
    crate::text::law_trimmed_text_stays(token);
    crate::text::law_words_are_what_whitespace_parts(token, space, word);
    crate::text::law_words_are_what_whitespace_parts(word, space, Seq::empty());
    assert(words_of(line) =~= seq![token, word]);
    if occurs_at(line, "#"@, 0) {
        assert(line.subrange(0, 1)[0] == line[0]);
    }
    if occurs_at(token, "#"@, 0) {
        assert(token.subrange(0, 1)[0] == token[0]);
    }
}

/// Blank lines and comments are passed over.
pub proof fn law_comments_grant_nothing(lines: Seq<Seq<char>>, line: Seq<char>)
    requires
        line.len() == 0 || line[0] == '#',
        line.len() > 0 ==> !crate::text::is_whitespace(line[line.len() - 1]),
    ensures
        table_of(lines.push(line)) == table_of(lines),
{
    reveal_strlit("#");
    assert("#"@ =~= seq!['#']);
    assert(lines.push(line).drop_last() =~= lines);
    crate::text::law_trimmed_text_stays(line);
    if line.len() > 0 {
        assert(line.subrange(0, 1) =~= "#"@);
    }
}

/// A line of the token file goes by its first two words, whatever whitespace stands around them and
/// whatever follows: the token and its scope. A line that begins with a hash, or has no word, says
/// nothing.
pub proof fn law_a_line_goes_by_its_first_words(lines: Seq<Seq<char>>, line: Seq<char>)
    requires
        table_of(lines) is Ok,
    ensures
        ({
            let words = words_of(line);
            let table = table_of(lines)->Ok_0;
            let after = table_of(lines.push(line));
            let says = words.len() > 0 && words[0][0] != '#';
            &&& !says ==> after == table_of(lines)
            &&& says && words.len() == 1 ==> after == Err::<Map<Seq<char>, Scope>, LineMeaning>(
                LineMeaning::BadLine(trimmed(line)),
            )
            &&& says && words.len() > 1 && words[1] == "read"@ ==> after == Ok::<
                Map<Seq<char>, Scope>,
                LineMeaning,
            >(table.insert(words[0], Scope::Read))
            &&& says && words.len() > 1 && words[1] == "operator"@ ==> after == Ok::<
                Map<Seq<char>, Scope>,
                LineMeaning,
            >(table.insert(words[0], Scope::Operator))
            &&& says && words.len() > 1 && words[1] != "read"@ && words[1] != "operator"@ ==> after
                == Err::<Map<Seq<char>, Scope>, LineMeaning>(LineMeaning::UnknownScope(words[1]))
        }),
{
    lemma_scope_words();
    reveal_strlit("#");
    assert("#"@ =~= seq!['#']);
    let text = trimmed(line);
    assert(lines.push(line).drop_last() =~= lines);
    crate::text::law_trimming_keeps_the_words(line);
    crate::text::law_trimming_takes_whitespace_off_the_ends(line);
    if text.len() > 0 {
        crate::text::law_the_first_word_begins_the_text(text);
        if text[0] == '#' {
            assert(text.subrange(0, 1) =~= "#"@);
        } else if occurs_at(text, "#"@, 0) {
            assert(text.subrange(0, 1)[0] == text[0]);
        }
    } else {
        assert(text =~= Seq::empty());
        crate::text::law_words_are_what_whitespace_parts(Seq::empty(), ' ', Seq::empty());
    }
}

/// The first line that cannot be read fails the whole file, whatever follows.
pub proof fn law_the_first_fault_fails_the_file(lines: Seq<Seq<char>>, more: Seq<Seq<char>>)
    requires
        table_of(lines) is Err,
    ensures
        table_of(lines + more) == table_of(lines),
    decreases more.len(),
{
    if more.len() == 0 {
        assert(lines + more =~= lines);
    } else {
        law_the_first_fault_fails_the_file(lines, more.drop_last());
        assert((lines + more).drop_last() =~= lines + more.drop_last());
    }
}

/// A token file that is read guards the cluster: it grants a token, and a caller without one of its
/// tokens gets in nowhere. A file without a token is refused rather than taken as open.
pub proof fn law_a_token_file_guards_the_cluster(
    contents: Seq<char>,
    auth: Auth,
    token: Seq<char>,
    needed: Scope,
)
    requires
        reads_file(contents, Ok(auth)),
    ensures
        auth.spec_enabled(),
        exists|t: Seq<char>| #[trigger] auth.tokens().contains_key(t),
        verdict(auth.spec_enabled(), auth.tokens(), None, needed) is Err,
        !auth.tokens().contains_key(token) ==> verdict(
            auth.spec_enabled(),
            auth.tokens(),
            Some("Bearer "@ + token),
            needed,
        ) is Err,
        table_of(crate::text::pieces(contents, '\n')) == Ok::<Map<Seq<char>, Scope>, LineMeaning>(
            auth.tokens(),
        ),
{
    law_a_token_opens_what_its_scope_covers(auth.tokens(), token, token, needed);
    let table = auth.tokens();
    if forall|t: Seq<char>| !#[trigger] table.contains_key(t) {
        assert(table =~= Map::empty());
        assert(table.is_empty());
    }
}

} // verus!
