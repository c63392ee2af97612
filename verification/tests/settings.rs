use aether::net::{
    bearer, endpoint, tls_enabled, tls_files, GrpcRaftNetworkFactory, RaftReply, RpcFailure,
};
use aether::settings::{metrics_address, number_or, reap_interval, text_or};
use aether::smtp::{compose_message, from_env, MailError};
use aether::text::{
    decimal, join, parse_unsigned, signed_decimal, split, split_once, split_trimmed, strip_prefix,
    strip_suffix, trim, words,
};

#[test]
fn numbers_fall_back_to_their_default() {
    assert_eq!(number_or(None, u64::MAX, 3), 3);
    assert_eq!(number_or(Some("12"), u64::MAX, 3), 12);
    assert_eq!(number_or(Some("+12"), u64::MAX, 3), 12);
    assert_eq!(number_or(Some(" 12"), u64::MAX, 3), 3);
    assert_eq!(number_or(Some("70000"), u16::MAX as u64, 3), 3);
    assert_eq!(number_or(Some("18446744073709551616"), u64::MAX, 3), 3);
    assert_eq!(text_or(None, "d"), "d");
    assert_eq!(text_or(Some("x"), "d"), "x");
}

#[test]
fn metrics_are_served_unless_switched_off() {
    assert_eq!(metrics_address(None), Some("127.0.0.1:9090".into()));
    assert_eq!(metrics_address(Some("0.0.0.0:1")), Some("0.0.0.0:1".into()));
    assert_eq!(metrics_address(Some("off")), None);
}

#[test]
fn the_reaper_runs_three_times_per_timeout_but_at_most_once_a_second() {
    assert_eq!(reap_interval(15), 5_000_000_000);
    assert_eq!(reap_interval(10), 3_333_333_333);
    assert_eq!(reap_interval(2), 1_000_000_000);
    assert_eq!(reap_interval(0), 1_000_000_000);
}

#[test]
fn tls_is_on_where_a_directory_is_named() {
    assert!(tls_enabled(Some("/certs")) && !tls_enabled(None));
    let files = tls_files(None);
    assert_eq!((files.ca.as_str(), files.cert.as_str(), files.key.as_str()), ("ca.crt", "operator.crt", "operator.key"));
    assert_eq!(tls_files(Some("node")).key, "node.key");
    assert_eq!(endpoint("a:1", true), "https://a:1");
    assert_eq!(endpoint("a:1", false), "http://a:1");
    assert_eq!(bearer("t"), "Bearer t");
}

#[test]
fn raft_failures_are_told_apart() {
    let client = GrpcRaftNetworkFactory.new_client(7, "b:2");
    assert_eq!(client.url(), "http://b:2");
    assert_eq!(client.round_trip::<u8, u8>(RaftReply::Answered(Ok(1))), Ok(1));
    assert_eq!(
        client.round_trip::<u8, u8>(RaftReply::Answered(Err(2))),
        Err(RpcFailure::Remote { target: 7, error: 2 })
    );
    assert_eq!(
        client.round_trip::<u8, u8>(RaftReply::NotConnected("x".into())),
        Err(RpcFailure::Unreachable("x".into()))
    );
    assert_eq!(
        client.round_trip::<u8, u8>(RaftReply::Broken("y".into())),
        Err(RpcFailure::Network("y".into()))
    );
}

#[test]
fn mail_needs_every_setting_but_the_port() {
    let s = |x: &str| Some(x.to_string());
    let config = from_env(s("h"), s("u"), s("p"), s("f"), None).unwrap();
    assert_eq!(config.port, 587);
    assert_eq!(from_env(s("h"), s("u"), s("p"), s("f"), Some("25")).unwrap().port, 25);
    assert_eq!(from_env(s("h"), s("u"), s("p"), s("f"), Some("70000")).unwrap().port, 587);
    assert!(from_env(None, s("u"), s("p"), s("f"), None).is_none());
    assert!(from_env(s("h"), None, s("p"), s("f"), None).is_none());
    assert!(from_env(s("h"), s("u"), None, s("f"), None).is_none());
    assert!(from_env(s("h"), s("u"), s("p"), None, None).is_none());
}

#[test]
fn texts_are_cut_as_std_cuts_them() {
    for text in ["", " a ", "\u{a0}x\u{3000}", "a,b,,c", ",", "x=y=z", "\u{85}é\t"] {
        assert_eq!(trim(text), text.trim());
        assert_eq!(split(text, ','), text.split(',').collect::<Vec<_>>());
        assert_eq!(words(text), text.split_whitespace().collect::<Vec<_>>());
        assert_eq!(
            split_trimmed(text, ','),
            text.split(',').map(str::trim).filter(|s| !s.is_empty()).collect::<Vec<_>>()
        );
        assert_eq!(
            split_once(text, "="),
            text.split_once("=").map(|(a, b)| (a.to_string(), b.to_string()))
        );
        assert_eq!(strip_prefix(text, "x="), text.strip_prefix("x=").map(String::from));
        assert_eq!(strip_suffix(text, "=z"), text.strip_suffix("=z").map(String::from));
    }
    assert_eq!(join(&vec!["a".into(), "b".into()], ", "), "a, b");
}

#[test]
fn numbers_are_written_and_read_in_decimal() {
    for n in [0u64, 7, 10, 99, 100, 12345, u64::MAX] {
        assert_eq!(decimal(n), n.to_string());
        assert_eq!(parse_unsigned(&n.to_string(), u64::MAX), Some(n));
    }
    for n in [0i64, -1, 42, i64::MIN, i64::MAX] {
        assert_eq!(signed_decimal(n), n.to_string());
    }
    for text in ["", "+", "-1", "1 ", "0x1", "１"] {
        assert_eq!(parse_unsigned(text, u64::MAX), text.parse::<u64>().ok(), "{text}");
    }
    assert_eq!(parse_unsigned("007", u64::MAX), Some(7));
}

#[test]
fn a_mail_needs_two_addresses() {
    let mail =
        compose_message("Aether <ops@aether.io>", "a@b.org", "Subject", "text", 784_887_151).unwrap();
    assert_eq!((mail.from.as_str(), mail.to.as_str()), ("ops@aether.io", "a@b.org"));
    assert_eq!(
        String::from_utf8(mail.bytes).unwrap(),
        "From: Aether <ops@aether.io>\r\n\
         To: a@b.org\r\n\
         Subject: Subject\r\n\
         Content-Type: text/plain; charset=utf-8\r\n\
         Date: Tue, 15 Nov 1994 08:12:31 +0000\r\n\
         Content-Transfer-Encoding: 7bit\r\n\
         \r\n\
         text"
    );
    let refuse = |from: &str, to: &str| match compose_message(from, to, "s", "b", 0) {
        Err(error) => error,
        Ok(_) => panic!("accepted"),
    };
    let error = refuse("nobody", "nowhere");
    assert!(matches!(error, MailError::BadFrom(_)), "the sender is looked at first");
    assert!(error.message().starts_with("bad from address: "));
    let error = refuse("ops@aether.io", "nowhere");
    assert!(matches!(error, MailError::BadRecipient { .. }));
    assert!(error.message().starts_with("bad recipient nowhere: "));
    assert_eq!(MailError::Build("x".into()).message(), "build message: x");
    assert_eq!(MailError::Send("x".into()).message(), "smtp send: x");
}
