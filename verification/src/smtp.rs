//! Real mail delivery: its configuration, without every part of which nothing is sent, and the
//! messages that are handed to the transport.

use std::time::{Duration, UNIX_EPOCH};

use lettre::address::AddressError;
use lettre::message::header::ContentType;
use lettre::message::Mailbox;
use lettre::Message;
use vstd::prelude::*;
use vstd::string::*;

use crate::text::{owned, parse_unsigned, unsigned_value};

verus! {

/// The port used where none is configured.
pub const DEFAULT_PORT: u16 = 587;

/// A complete mail configuration.
#[derive(Debug, PartialEq)]
pub struct SmtpConfig {
    pub host: String,
    pub user: String,
    pub pass: String,
    pub from: String,
    pub port: u16,
}

/// The port that a configured text names; the default where it names none.
pub open spec fn port_of(text: Option<Seq<char>>) -> nat {
    match text {
        Some(raw) => match unsigned_value(raw, u16::MAX as nat) {
            Some(n) => n,
            None => DEFAULT_PORT as nat,
        },
        None => DEFAULT_PORT as nat,
    }
}

/// The mail configuration from the values of its variables; `None` (stay with the dry run) unless
/// host, user, password and sender are all set.
pub fn from_env(
    host: Option<String>,
    user: Option<String>,
    pass: Option<String>,
    from: Option<String>,
    port: Option<&str>,
) -> (config: Option<SmtpConfig>)
    ensures
        config is Some <==> host is Some && user is Some && pass is Some && from is Some,
        config matches Some(c) ==> c.host == host->0 && c.user == user->0 && c.pass == pass->0
            && c.from == from->0 && c.port == port_of(
            match port {
                Some(text) => Some(text@),
                None => None,
            },
        ),
{
    let port: u16 = match port {
        Some(text) => match parse_unsigned(text, u16::MAX as u64) {
            Some(n) => n as u16,
            None => DEFAULT_PORT,
        },
        None => DEFAULT_PORT,
    };
    match (host, user, pass, from) {
        (Some(host), Some(user), Some(pass), Some(from)) => Some(
            SmtpConfig { host, user, pass, from, port },
        ),
        _ => None,
    }
}

/// Why a mail was not sent.
#[derive(Debug, PartialEq)]
pub enum MailError {
    /// The sender's address is no address.
    BadFrom(String),
    /// The recipient's address is no address.
    BadRecipient { to: String, error: String },
    /// The message could not be built.
    Build(String),
    /// The transport failed.
    Send(String),
}

impl MailError {
    /// The text of the error.
    pub fn message(&self) -> (text: String)
        ensures
            text@ == match *self {
                MailError::BadFrom(error) => "bad from address: "@ + error@,
                MailError::BadRecipient { to, error } => "bad recipient "@ + to@ + ": "@ + error@,
                MailError::Build(error) => "build message: "@ + error@,
                MailError::Send(error) => "smtp send: "@ + error@,
            },
    {
        match self {
            MailError::BadFrom(error) => {
                let mut text = owned("bad from address: ");
                text.append(error.as_str());
                text
            },
            MailError::BadRecipient { to, error } => {
                let mut text = owned("bad recipient ");
                text.append(to.as_str());
                text.append(": ");
                text.append(error.as_str());
                text
            },
            MailError::Build(error) => {
                let mut text = owned("build message: ");
                text.append(error.as_str());
                text
            },
            MailError::Send(error) => {
                let mut text = owned("smtp send: ");
                text.append(error.as_str());
                text
            },
        }
    }
}

/// The first second that no mail can be dated: the year 10000.
pub const END_OF_DATES: u64 = 253_402_300_800;

/// A message that is ready for a transport: the addresses on its envelope, and its text on the
/// wire.
#[derive(Debug, PartialEq)]
pub struct Mail {
    pub from: String,
    pub to: String,
    pub bytes: Vec<u8>,
}

/// A message as a value.
pub struct MailView {
    pub from: Seq<char>,
    pub to: Seq<char>,
    pub bytes: Seq<u8>,
}

impl View for Mail {
    type V = MailView;

    open spec fn view(&self) -> MailView {
        MailView { from: self.from@, to: self.to@, bytes: self.bytes@ }
    }
}

/// What `lettre` says against a text as a mail address; `None` where it accepts the text.
pub uninterp spec fn mailbox_error(text: Seq<char>) -> Option<Seq<char>>;

/// The plain-text message that `lettre` writes for a sender, a recipient, a subject, a body and a
/// date in seconds since the epoch, or the text of its error.
pub uninterp spec fn written_mail(
    from: Seq<char>,
    to: Seq<char>,
    subject: Seq<char>,
    body: Seq<char>,
    date_secs: u64,
) -> Result<MailView, Seq<char>>;

/// `lettre::message::Mailbox::from_str`: reads a mail address. The text of the error, or that there
/// is none, is named [`mailbox_error`].
#[verifier::external_body]
fn check_mailbox(text: &str) -> (result: Result<(), String>)
    ensures
        match result {
            Ok(_) => mailbox_error(text@) is None,
            Err(error) => mailbox_error(text@) == Some(error@),
        },
{
    text.parse::<Mailbox>().map(|_| ()).map_err(|e| e.to_string())
}

/// `lettre::message::MessageBuilder::body` after sender, recipient, subject, the plain-text content
/// type and the date: builds a message, whose envelope and text on the wire, or the text of whose
/// error, are named [`written_mail`]. `lettre` refuses no accepted address, and panics on a date
/// past the year 9999.
#[verifier::external_body]
fn build_message(from: &str, to: &str, subject: &str, body: &str, date_secs: u64) -> (mail: Result<
    Mail,
    String,
>)
    requires
        mailbox_error(from@) is None,
        mailbox_error(to@) is None,
        date_secs < END_OF_DATES,
    ensures
        match mail {
            Ok(m) => written_mail(from@, to@, subject@, body@, date_secs) == Ok::<
                MailView,
                Seq<char>,
            >(m@),
            Err(error) => written_mail(from@, to@, subject@, body@, date_secs) == Err::<
                MailView,
                Seq<char>,
            >(error@),
        },
{
    let text = |e: AddressError| e.to_string();
    let date = UNIX_EPOCH + Duration::from_secs(date_secs);
    let sender = Message::builder().from(from.parse().map_err(text)?);
    let addressed = sender.to(to.parse().map_err(text)?).subject(subject);
    let typed = addressed.header(ContentType::TEXT_PLAIN);
    let message = typed.date(date).body(body.to_string()).map_err(|e| e.to_string())?;
    Ok(Mail {
        from: message.envelope().from().map(|a| a.to_string()).unwrap_or_default(),
        to: message.envelope().to().iter().map(|a| a.to_string()).collect(),
        bytes: message.formatted(),
    })
}

/// Whether `message` comes of composing a mail: a bad sender is told first, a bad recipient next, and
/// between good addresses the mail is written, or the error of writing it is told.
pub open spec fn composes(
    from: Seq<char>,
    to: Seq<char>,
    subject: Seq<char>,
    body: Seq<char>,
    date_secs: u64,
    message: Result<Mail, MailError>,
) -> bool {
    match (mailbox_error(from), mailbox_error(to), message) {
        (Some(why), _, Err(MailError::BadFrom(error))) => error@ == why,
        (None, Some(why), Err(MailError::BadRecipient { to: whom, error })) => error@ == why
            && whom@ == to,
        (None, None, Ok(mail)) => written_mail(from, to, subject, body, date_secs) == Ok::<
            MailView,
            Seq<char>,
        >(mail@),
        (None, None, Err(MailError::Build(error))) => written_mail(
            from,
            to,
            subject,
            body,
            date_secs,
        ) == Err::<MailView, Seq<char>>(error@),
        _ => false,
    }
}

/// The message for one recipient. A bad address, the sender's first, is refused before anything is
/// built.
pub fn compose_message(from: &str, to: &str, subject: &str, body: &str, date_secs: u64) -> (message:
    Result<Mail, MailError>)
    requires
        date_secs < END_OF_DATES,
    ensures
        composes(from@, to@, subject@, body@, date_secs, message),
{
    match check_mailbox(from) {
        Ok(_) => {},
        Err(error) => {
            return Err(MailError::BadFrom(error));
        },
    }
    match check_mailbox(to) {
        Ok(_) => {},
        Err(error) => {
            return Err(MailError::BadRecipient { to: owned(to), error });
        },
    }
    match build_message(from, to, subject, body, date_secs) {
        Ok(mail) => Ok(mail),
        Err(error) => Err(MailError::Build(error)),
    }
}

/// The port is the number that the setting spells, and the submission port without one or with
/// one that is no port.
pub proof fn law_the_port_is_what_is_spelled(text: Seq<char>, n: nat)
    ensures
        text == crate::text::decimal_of(n) && n <= 65535 ==> port_of(Some(text)) == n,
        text == crate::text::decimal_of(n) && n > 65535 ==> port_of(Some(text)) == 587,
        port_of(None) == 587,
{
    crate::text::law_decimals_read_back(n, u16::MAX as nat);
}

/// A mail is written only between good addresses, from the sender to the recipient that were
/// given; a bad address is told with its own error, the sender's first.
pub proof fn law_mails_go_between_good_addresses(
    from: Seq<char>,
    to: Seq<char>,
    subject: Seq<char>,
    body: Seq<char>,
    date_secs: u64,
    message: Result<Mail, MailError>,
)
    requires
        composes(from, to, subject, body, date_secs, message),
    ensures
        message is Ok ==> mailbox_error(from) is None && mailbox_error(to) is None,
        message matches Ok(mail) ==> written_mail(from, to, subject, body, date_secs) == Ok::<
            MailView,
            Seq<char>,
        >(mail@),
        mailbox_error(from) matches Some(why) ==> (message matches Err(MailError::BadFrom(error))
            && error@ == why),
        mailbox_error(from) is None ==> (mailbox_error(to) matches Some(why) ==> (message matches Err(
            MailError::BadRecipient { to: whom, error },
        ) && error@ == why && whom@ == to)),
{
}

} // verus!
