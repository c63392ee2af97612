use aether::auth::{Auth, AuthCode, AuthError, Scope, TokenFileError};

fn auth() -> Auth {
    Auth::parse("r-tok read\no-tok operator\n").unwrap()
}

fn bearer(token: Option<&str>) -> Option<String> {
    token.map(|t| format!("Bearer {t}"))
}

#[test]
fn scope_matrix() {
    let a = auth();
    let require =
        |token: Option<&str>, needed: Scope| a.require(bearer(token).as_deref(), needed);
    // A read token reads; mutations are denied.
    assert!(require(Some("r-tok"), Scope::Read).is_ok());
    assert_eq!(
        require(Some("r-tok"), Scope::Operator).unwrap_err().code(),
        AuthCode::PermissionDenied
    );
    // An operator token does both.
    assert!(require(Some("o-tok"), Scope::Read).is_ok());
    assert!(require(Some("o-tok"), Scope::Operator).is_ok());
    // No token and an unknown token are unauthenticated.
    assert_eq!(require(None, Scope::Read).unwrap_err().code(), AuthCode::Unauthenticated);
    assert_eq!(require(Some("nope"), Scope::Read).unwrap_err().code(), AuthCode::Unauthenticated);
}

#[test]
fn disabled_auth_allows_everything() {
    let a = Auth::default();
    assert!(a.require(None, Scope::Operator).is_ok());
    assert!(!a.enabled());
}

#[test]
fn refusals_have_their_texts() {
    let a = auth();
    assert_eq!(a.require(Some("o-tok"), Scope::Read), Err(AuthError::MissingToken), "not a bearer header");
    assert_eq!(AuthError::MissingToken.message(), "missing bearer token");
    assert_eq!(AuthError::UnknownToken.message(), "unknown token");
    assert_eq!(AuthError::ScopeRequired(Scope::Operator).message(), "Operator scope required");
}

#[test]
fn token_files_skip_comments_and_blank_lines() {
    let a = Auth::parse("# tokens\n\n  a read \r\nb\toperator # trailing words are ignored\na operator").unwrap();
    assert!(a.enabled());
    assert_eq!(a.token_count(), 2);
    assert!(a.require(Some("Bearer a"), Scope::Operator).is_ok(), "the later line wins");
}

#[test]
fn bad_token_files_are_refused() {
    assert_eq!(Auth::parse("a read\nlonely\n").err(), Some(TokenFileError::BadLine("lonely".into())));
    assert_eq!(Auth::parse("a admin\n").err(), Some(TokenFileError::UnknownScope("admin".into())));
    assert_eq!(Auth::parse("# nothing\n").err(), Some(TokenFileError::NoTokens));
}

#[test]
fn scopes_parse_and_imply() {
    assert_eq!(Scope::parse("read"), Some(Scope::Read));
    assert_eq!(Scope::parse("operator"), Some(Scope::Operator));
    assert_eq!(Scope::parse("Read"), None);
    assert!(Scope::Operator.satisfies(Scope::Read));
    assert!(!Scope::Read.satisfies(Scope::Operator));
}
