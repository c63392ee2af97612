//! The briefing agent: compose a provenance-carrying briefing out of answered questions and hand
//! it off by email, the single outward action, gated by a recipient allowlist and a dry-run
//! default.

use vstd::prelude::*;
use vstd::string::*;

use crate::settings::{configured, number_or};
use crate::text::{
    ascii_folded, decimal, decimal_of, lemma_texts_push, nonempty, owned, pieces, same, split,
    split_trimmed, texts, trim, trimmed, trimmed_pieces,
};
use crate::tokens::{is_ascii_text, lowercase, to_lowercase};

verus! {

/// How an address is compared: without the whitespace around it, in lower case.
pub open spec fn folded(addr: Seq<char>) -> Seq<char> {
    lowercase(trimmed(addr))
}

/// A recipient allowlist. Email may go only to addresses on it; an empty list permits nothing.
pub struct Allowlist {
    addrs: Vec<String>,
}

impl Default for Allowlist {
    /// The list that permits nothing.
    fn default() -> (list: Self)
        ensures
            list.entries() == Seq::<Seq<char>>::empty(),
    {
        let list = Allowlist { addrs: Vec::new() };
        assert(list.entries() =~= Seq::<Seq<char>>::empty());
        list
    }
}

fn fold(addr: &str) -> (result: String)
    ensures
        result@ == folded(addr@),
        is_ascii_text(trimmed(addr@)) ==> folded(addr@) == ascii_folded(trimmed(addr@)),
{
    to_lowercase(trim(addr).as_str())
}

impl Allowlist {
    /// The addresses on the list, as they are compared.
    pub closed spec fn entries(self) -> Seq<Seq<char>> {
        texts(self.addrs@)
    }

    /// Whether an address is on the list.
    pub open spec fn spec_allows(self, addr: Seq<char>) -> bool {
        self.entries().contains(folded(addr))
    }

    /// The list of the given addresses; blank ones are dropped.
    pub fn new(addrs: Vec<String>) -> (list: Self)
        ensures
            list.entries() == nonempty(texts(addrs@).map_values(|a: Seq<char>| folded(a))),
            forall|i: int|
                0 <= i < addrs@.len() && is_ascii_text(trimmed((#[trigger] addrs@[i])@)) ==> folded(
                    addrs@[i]@,
                ) == ascii_folded(trimmed(addrs@[i]@)),
    {
        let mut kept: Vec<String> = Vec::new();
        let ghost all = texts(addrs@).map_values(|a: Seq<char>| folded(a));
        let mut i: usize = 0;
        assert(all.take(0) =~= Seq::<Seq<char>>::empty());
        assert(texts(kept@) =~= Seq::<Seq<char>>::empty());
        while i < addrs.len()
            invariant
                i <= addrs@.len(),
                all == texts(addrs@).map_values(|a: Seq<char>| folded(a)),
                texts(kept@) == nonempty(all.take(i as int)),
                forall|j: int|
                    0 <= j < i && is_ascii_text(trimmed((#[trigger] addrs@[j])@)) ==> folded(
                        addrs@[j]@,
                    ) == ascii_folded(trimmed(addrs@[j]@)),
            decreases addrs@.len() - i,
        {
            let addr = fold(addrs[i].as_str());
            proof {
                let seen = all.take(i + 1);
                assert(seen.drop_last() =~= all.take(i as int));
                assert(seen.last() == addr@);
                lemma_texts_push(kept@, addr);
            }
            if !addr.as_str().is_empty() {
                kept.push(addr);
            }
            i = i + 1;
        }
        assert(all.take(i as int) =~= all);
        Allowlist { addrs: kept }
    }

    /// The list that a comma-separated setting names; without one nothing is permitted.
    pub fn from_env(setting: Option<&str>) -> (list: Self)
        ensures
            list.entries() == nonempty(
                match setting {
                    Some(text) => pieces(text@, ','),
                    None => Seq::empty(),
                }.map_values(|a: Seq<char>| folded(a)),
            ),
    {
        match setting {
            Some(text) => Allowlist::new(split(text, ',')),
            None => {
                assert(nonempty(
                    Seq::<Seq<char>>::empty().map_values(|a: Seq<char>| folded(a)),
                ) =~= Seq::<Seq<char>>::empty());
                Allowlist::default()
            },
        }
    }

    /// Whether email may go to `addr`.
    pub fn allows(&self, addr: &str) -> (result: bool)
        ensures
            result == self.spec_allows(addr@),
            is_ascii_text(trimmed(addr@)) ==> folded(addr@) == ascii_folded(trimmed(addr@)),
    {
        let wanted = fold(addr);
        let mut i: usize = 0;
        while i < self.addrs.len()
            invariant
                i <= self.addrs@.len(),
                wanted@ == folded(addr@),
                is_ascii_text(trimmed(addr@)) ==> folded(addr@) == ascii_folded(trimmed(addr@)),
                forall|j: int| 0 <= j < i ==> (#[trigger] self.addrs@[j])@ != wanted@,
            decreases self.addrs@.len() - i,
        {
            if same(self.addrs[i].as_str(), wanted.as_str()) {
                assert(self.entries()[i as int] == wanted@);
                return true;
            }
            i = i + 1;
        }
        assert forall|j: int| 0 <= j < self.entries().len() implies self.entries()[j]
            != wanted@ by {
            assert(self.addrs@[j]@ != wanted@);
        }
        false
    }

    /// Whether the list permits nothing.
    pub fn is_empty(&self) -> (result: bool)
        ensures
            result == (self.entries().len() == 0),
    {
        self.addrs.len() == 0
    }
}

/// The allowlist is fail-closed: an empty one permits nothing.
pub proof fn law_empty_list_permits_nothing(list: Allowlist, addr: Seq<char>)
    requires
        list.entries().len() == 0,
    ensures
        !list.spec_allows(addr),
{
}

/// The allowlist ignores case and surrounding whitespace: addresses that fold alike are treated
/// alike.
pub proof fn law_folding_decides(list: Allowlist, a: Seq<char>, b: Seq<char>)
    requires
        folded(a) == folded(b),
    ensures
        list.spec_allows(a) == list.spec_allows(b),
{
}

/// One hand-off to an emailer: to whom, what, and the error where it failed.
pub struct Posting {
    pub to: Seq<char>,
    pub subject: Seq<char>,
    pub body: Seq<char>,
    pub error: Option<Seq<char>>,
}

/// The posting of a message with a given outcome.
pub open spec fn posting(
    to: Seq<char>,
    subject: Seq<char>,
    body: Seq<char>,
    outcome: Result<(), String>,
) -> Posting {
    Posting {
        to,
        subject,
        body,
        error: match outcome {
            Ok(_) => None,
            Err(e) => Some(e@),
        },
    }
}

/// The email sink. A real deployment plugs in mail delivery; the default sends nothing.
pub trait Emailer {
    /// Everything handed to this emailer, in order. The body is a placeholder for emailers outside
    /// the verified code.
    open spec fn postings(&self) -> Seq<Posting> {
        Seq::empty()
    }

    /// Hand one message to the emailer.
    fn send(&mut self, to: &str, subject: &str, body: &str) -> (outcome: Result<(), String>)
        ensures
            final(self).postings() == old(self).postings().push(
                posting(to@, subject@, body@, outcome),
            ),
    ;
}

/// Sends nothing; records what it would have sent, as (recipient, subject).
pub struct DryRunEmailer {
    pub sent: Vec<(String, String)>,
    log: Ghost<Seq<Posting>>,
}

impl Default for DryRunEmailer {
    /// Nothing recorded yet.
    fn default() -> (emailer: Self)
        ensures
            emailer.recorded() == Seq::<(Seq<char>, Seq<char>)>::empty(),
            emailer.postings() == Seq::<Posting>::empty(),
    {
        let emailer = DryRunEmailer { sent: Vec::new(), log: Ghost(Seq::empty()) };
        assert(emailer.recorded() =~= Seq::<(Seq<char>, Seq<char>)>::empty());
        emailer
    }
}

impl DryRunEmailer {
    /// What was recorded: recipients and subjects.
    pub closed spec fn recorded(self) -> Seq<(Seq<char>, Seq<char>)> {
        self.sent@.map_values(|m: (String, String)| (m.0@, m.1@))
    }
}

impl Emailer for DryRunEmailer {
    closed spec fn postings(&self) -> Seq<Posting> {
        self.log@
    }

    /// Records the recipient and the subject, and always succeeds.
    fn send(&mut self, to: &str, subject: &str, body: &str) -> (outcome: Result<(), String>)
        ensures
            outcome is Ok,
            final(self).recorded() == old(self).recorded().push((to@, subject@)),
    {
        self.sent.push((owned(to), owned(subject)));
        let ghost entry = Posting { to: to@, subject: subject@, body: body@, error: None };
        self.log = Ghost(self.log@.push(entry));
        assert(self.recorded() =~= old(self).recorded().push((to@, subject@)));
        Ok(())
    }
}

/// The composed briefing: the report text and the merged provenance behind it.
#[derive(Debug, PartialEq)]
pub struct Briefing {
    pub subject: String,
    pub body: String,
    pub provenance: Vec<String>,
}

/// The answer to one question, with its provenance.
#[derive(Debug, PartialEq)]
pub struct Answer {
    pub text: String,
    pub provenance: Vec<String>,
}

/// The questions and answers, one after the other.
pub open spec fn dialogue(questions: Seq<Seq<char>>, answers: Seq<Answer>) -> Seq<char>
    decreases questions.len(),
{
    if questions.len() == 0 {
        Seq::empty()
    } else {
        dialogue(questions.drop_last(), answers.drop_last()) + ("Q: "@ + questions.last() + "\n"@
            + answers.last().text@ + "\n\n"@)
    }
}

/// The provenance of all answers, in order.
pub open spec fn evidence(answers: Seq<Answer>) -> Seq<Seq<char>>
    decreases answers.len(),
{
    if answers.len() == 0 {
        Seq::empty()
    } else {
        evidence(answers.drop_last()) + texts(answers.last().provenance@)
    }
}

/// The numbered lines of the evidence.
pub open spec fn evidence_lines(list: Seq<Seq<char>>) -> Seq<char>
    decreases list.len(),
{
    if list.len() == 0 {
        Seq::empty()
    } else {
        evidence_lines(list.drop_last()) + ("  ["@ + decimal_of(list.len()) + "] "@ + list.last()
            + "\n"@)
    }
}

/// The body of a briefing: a heading, the questions with their answers, and the evidence where
/// there is any.
pub open spec fn briefing_body(questions: Seq<Seq<char>>, answers: Seq<Answer>) -> Seq<char> {
    "Aether cluster briefing\n=======================\n\n"@ + dialogue(questions, answers) + (
    if evidence(answers).len() > 0 {
        "— evidence —\n"@ + evidence_lines(evidence(answers))
    } else {
        Seq::empty()
    })
}

fn text_of_evidence(list: &Vec<String>) -> (text: String)
    ensures
        text@ == evidence_lines(texts(list@)),
{
    let mut out = String::new();
    let ghost all = texts(list@);
    let mut i: usize = 0;
    assert(out@ =~= evidence_lines(all.take(0)));
    while i < list.len()
        invariant
            i <= list@.len(),
            all == texts(list@),
            out@ == evidence_lines(all.take(i as int)),
        decreases list@.len() - i,
    {
        proof {
            assert(all.take(i + 1).drop_last() =~= all.take(i as int));
            assert(all.take(i + 1).last() == list@[i as int]@);
        }
        let mut line = owned("  [");
        line.append(decimal((i as u64) + 1).as_str());
        line.append("] ");
        line.append(list[i].as_str());
        line.append("\n");
        out.append(line.as_str());
        i = i + 1;
    }
    assert(all.take(i as int) =~= all);
    out
}

fn append_copies(list: &mut Vec<String>, more: &Vec<String>)
    ensures
        texts(final(list)@) == texts(old(list)@) + texts(more@),
{
    let mut i: usize = 0;
    let ghost start = texts(list@);
    assert(start + texts(more@).take(0) =~= start);
    while i < more.len()
        invariant
            i <= more@.len(),
            texts(list@) == start + texts(more@).take(i as int),
        decreases more@.len() - i,
    {
        proof {
            lemma_texts_push(list@, more@[i as int]);
            assert((start + texts(more@).take(i as int)).push(more@[i as int]@) =~= start + texts(
                more@,
            ).take(i + 1));
        }
        list.push(more[i].clone());
        i = i + 1;
    }
    assert(texts(more@).take(i as int) =~= texts(more@));
}

/// Compose one briefing out of the questions and their answers.
pub fn compose(questions: &Vec<String>, answers: &Vec<Answer>) -> (briefing: Briefing)
    requires
        questions@.len() == answers@.len(),
    ensures
        briefing.subject@ == "Aether cluster briefing"@,
        briefing.body@ == briefing_body(texts(questions@), answers@),
        texts(briefing.provenance@) == evidence(answers@),
{
    let mut body = owned("Aether cluster briefing\n=======================\n\n");
    let mut provenance: Vec<String> = Vec::new();
    let ghost head = body@;
    let ghost asked = texts(questions@);
    let mut i: usize = 0;
    assert(body@ =~= head + dialogue(asked.take(0), answers@.take(0)));
    assert(texts(provenance@) =~= evidence(answers@.take(0)));
    while i < questions.len()
        invariant
            i <= questions@.len(),
            questions@.len() == answers@.len(),
            asked == texts(questions@),
            body@ == head + dialogue(asked.take(i as int), answers@.take(i as int)),
            texts(provenance@) == evidence(answers@.take(i as int)),
        decreases questions@.len() - i,
    {
        proof {
            assert(asked.take(i + 1).drop_last() =~= asked.take(i as int));
            assert(asked.take(i + 1).last() == questions@[i as int]@);
            assert(answers@.take(i + 1).drop_last() =~= answers@.take(i as int));
        }
        let mut part = owned("Q: ");
        part.append(questions[i].as_str());
        part.append("\n");
        part.append(answers[i].text.as_str());
        part.append("\n\n");
        body.append(part.as_str());
        assert(body@ =~= head + dialogue(asked.take(i + 1), answers@.take(i + 1)));
        append_copies(&mut provenance, &answers[i].provenance);
        i = i + 1;
    }
    assert(asked.take(i as int) =~= asked);
    assert(answers@.take(i as int) =~= answers@);
    if provenance.len() > 0 {
        assert(evidence(answers@).len() > 0);
        body.append("— evidence —\n");
        body.append(text_of_evidence(&provenance).as_str());
    } else {
        assert(evidence(answers@).len() == 0);
    }
    assert(body@ =~= briefing_body(asked, answers@));
    Briefing { subject: owned("Aether cluster briefing"), body, provenance }
}

/// How the briefing runs: whom it is for, how many seconds lie between two briefings (zero: one
/// briefing only), and whether real sending was asked for.
#[derive(Debug, PartialEq)]
pub struct BriefingSettings {
    pub recipients: Vec<String>,
    pub cadence_secs: u64,
    pub send: bool,
}

impl BriefingSettings {
    /// The settings from the values of their variables. The dry run is the default.
    pub fn from_env(recipients: Option<&str>, cadence: Option<&str>, send: Option<&str>) -> (
    settings: BriefingSettings)
        ensures
            texts(settings.recipients@) == match recipients {
                Some(text) => trimmed_pieces(text@, ','),
                None => Seq::empty(),
            },
            settings.cadence_secs == configured(cadence, u64::MAX, 0),
            settings.send <==> (send matches Some(text) && text@ == "send"@),
    {
        let list: Vec<String> = match recipients {
            Some(text) => split_trimmed(text, ','),
            None => Vec::new(),
        };
        assert(recipients is None ==> texts(list@) =~= Seq::<Seq<char>>::empty());
        BriefingSettings {
            recipients: list,
            cadence_secs: number_or(cadence, u64::MAX, 0),
            send: match send {
                Some(text) => same(text, "send"),
                None => false,
            },
        }
    }
}

/// The standing questions that an operator wants answered every cycle.
pub fn questions() -> (list: Vec<String>)
    ensures
        texts(list@) == seq![
            "how many flights are there?"@,
            "which aircraft types are flying?"@,
            "what are the altitude percentiles?"@,
            "is the cluster healthy?"@,
        ],
{
    let mut list: Vec<String> = Vec::new();
    list.push(owned("how many flights are there?"));
    list.push(owned("which aircraft types are flying?"));
    list.push(owned("what are the altitude percentiles?"));
    list.push(owned("is the cluster healthy?"));
    assert(texts(list@) =~= seq![
        "how many flights are there?"@,
        "which aircraft types are flying?"@,
        "what are the altitude percentiles?"@,
        "is the cluster healthy?"@,
    ]);
    list
}

/// The recipients that the allowlist permits, in order.
pub open spec fn permitted(list: Allowlist, recipients: Seq<Seq<char>>) -> Seq<Seq<char>>
    decreases recipients.len(),
{
    if recipients.len() == 0 {
        Seq::empty()
    } else if list.spec_allows(recipients.last()) {
        permitted(list, recipients.drop_last()).push(recipients.last())
    } else {
        permitted(list, recipients.drop_last())
    }
}

/// The recipients that were delivered to, given the postings to the permitted ones.
pub open spec fn delivered_to(
    list: Allowlist,
    recipients: Seq<Seq<char>>,
    posted: Seq<Posting>,
) -> Seq<Seq<char>>
    decreases recipients.len(),
{
    if recipients.len() == 0 {
        Seq::empty()
    } else if list.spec_allows(recipients.last()) {
        let before = delivered_to(list, recipients.drop_last(), posted.drop_last());
        if posted.last().error is None {
            before.push(recipients.last())
        } else {
            before
        }
    } else {
        delivered_to(list, recipients.drop_last(), posted)
    }
}

/// What went wrong, recipient by recipient: not on the allowlist, or a failed hand-off.
pub open spec fn failures(
    list: Allowlist,
    recipients: Seq<Seq<char>>,
    posted: Seq<Posting>,
) -> Seq<Seq<char>>
    decreases recipients.len(),
{
    if recipients.len() == 0 {
        Seq::empty()
    } else if list.spec_allows(recipients.last()) {
        let before = failures(list, recipients.drop_last(), posted.drop_last());
        match posted.last().error {
            None => before,
            Some(e) => before.push("send to "@ + recipients.last() + " failed: "@ + e),
        }
    } else {
        failures(list, recipients.drop_last(), posted).push(
            "recipient not allowlisted: "@ + recipients.last(),
        )
    }
}

/// Whether the postings are one to each permitted recipient, in order, with the briefing.
pub open spec fn posts_briefing(
    posted: Seq<Posting>,
    list: Allowlist,
    recipients: Seq<Seq<char>>,
    briefing: Briefing,
) -> bool {
    &&& posted.len() == permitted(list, recipients).len()
    &&& forall|i: int|
        0 <= i < posted.len() ==> (#[trigger] posted[i]).to == permitted(list, recipients)[i]
            && posted[i].subject == briefing.subject@ && posted[i].body == briefing.body@
}

/// Hand a briefing to each allowlisted recipient. A recipient who is not on the list is refused
/// and named among the errors, and nothing is handed to the emailer for them. The recipients
/// delivered to, or else every error.
pub fn brief_and_send<E: Emailer>(
    briefing: &Briefing,
    recipients: &Vec<String>,
    allowlist: &Allowlist,
    emailer: &mut E,
) -> (result: Result<Vec<String>, Vec<String>>)
    ensures
        exists|posted: Seq<Posting>| #[trigger]
            posts_briefing(posted, *allowlist, texts(recipients@), *briefing)
                && final(emailer).postings() == old(emailer).postings() + posted && match result {
                Ok(delivered) => failures(*allowlist, texts(recipients@), posted).len() == 0
                    && texts(delivered@) == delivered_to(*allowlist, texts(recipients@), posted),
                Err(errors) => errors@.len() > 0 && texts(errors@) == failures(
                    *allowlist,
                    texts(recipients@),
                    posted,
                ),
            },
{
    let mut delivered: Vec<String> = Vec::new();
    let mut errors: Vec<String> = Vec::new();
    let ghost all = texts(recipients@);
    let ghost start = emailer.postings();
    let ghost mut posted = Seq::<Posting>::empty();
    let mut i: usize = 0;
    proof {
        assert(all.take(0) =~= Seq::<Seq<char>>::empty());
        assert(start + posted =~= start);
        assert(texts(delivered@) =~= Seq::<Seq<char>>::empty());
        assert(texts(errors@) =~= Seq::<Seq<char>>::empty());
    }
    while i < recipients.len()
        invariant
            i <= recipients@.len(),
            all == texts(recipients@),
            posts_briefing(posted, *allowlist, all.take(i as int), *briefing),
            emailer.postings() == start + posted,
            texts(delivered@) == delivered_to(*allowlist, all.take(i as int), posted),
            texts(errors@) == failures(*allowlist, all.take(i as int), posted),
        decreases recipients@.len() - i,
    {
        let ghost seen = all.take(i + 1);
        proof {
            assert(seen.drop_last() =~= all.take(i as int));
            assert(seen.last() == recipients@[i as int]@);
        }
        if !allowlist.allows(recipients[i].as_str()) {
            let mut message = owned("recipient not allowlisted: ");
            message.append(recipients[i].as_str());
            proof {
                lemma_texts_push(errors@, message);
            }
            errors.push(message);
        } else {
            let outcome = emailer.send(
                recipients[i].as_str(),
                briefing.subject.as_str(),
                briefing.body.as_str(),
            );
            let ghost entry = posting(
                recipients@[i as int]@,
                briefing.subject@,
                briefing.body@,
                outcome,
            );
            proof {
                let before = posted;
                posted = before.push(entry);
                assert(posted.drop_last() =~= before);
                assert(start + posted =~= (start + before).push(entry));
                assert(posts_briefing(posted, *allowlist, seen, *briefing)) by {
                    assert forall|k: int| 0 <= k < posted.len() implies (#[trigger] posted[k]).to
                        == permitted(*allowlist, seen)[k] && posted[k].subject == briefing.subject@
                        && posted[k].body == briefing.body@ by {
                        if k < before.len() {
                            assert(posted[k] == before[k]);
                        }
                    }
                }
            }
            match outcome {
                Ok(()) => {
                    proof {
                        lemma_texts_push(delivered@, recipients@[i as int]);
                    }
                    delivered.push(recipients[i].clone());
                },
                Err(e) => {
                    let mut message = owned("send to ");
                    message.append(recipients[i].as_str());
                    message.append(" failed: ");
                    message.append(e.as_str());
                    proof {
                        lemma_texts_push(errors@, message);
                    }
                    errors.push(message);
                },
            }
        }
        i = i + 1;
    }
    assert(all.take(i as int) =~= all);
    assert(posts_briefing(posted, *allowlist, all, *briefing));
    if errors.len() == 0 {
        assert(texts(errors@).len() == 0);
        Ok(delivered)
    } else {
        Err(errors)
    }
}

/// Nothing leaves for a recipient who is not on the allowlist, and with an empty list nothing
/// leaves at all.
pub proof fn law_only_allowlisted_recipients(
    posted: Seq<Posting>,
    list: Allowlist,
    recipients: Seq<Seq<char>>,
    briefing: Briefing,
)
    requires
        posts_briefing(posted, list, recipients, briefing),
    ensures
        forall|i: int| 0 <= i < posted.len() ==> list.spec_allows((#[trigger] posted[i]).to),
        list.entries().len() == 0 ==> posted.len() == 0,
{
    lemma_permitted(list, recipients);
    assert forall|i: int| 0 <= i < posted.len() implies list.spec_allows(
        (#[trigger] posted[i]).to,
    ) by {
        assert(list.spec_allows(permitted(list, recipients)[i]));
    }
    if posted.len() > 0 {
        assert(list.spec_allows(posted[0].to));
    }
}

proof fn lemma_permitted(list: Allowlist, recipients: Seq<Seq<char>>)
    ensures
        forall|i: int|
            0 <= i < permitted(list, recipients).len() ==> list.spec_allows(
                #[trigger] permitted(list, recipients)[i],
            ),
    decreases recipients.len(),
{
    if recipients.len() > 0 {
        lemma_permitted(list, recipients.drop_last());
        let before = permitted(list, recipients.drop_last());
        let all = permitted(list, recipients);
        assert forall|i: int| 0 <= i < all.len() implies list.spec_allows(#[trigger] all[i]) by {
            if i < before.len() {
                assert(all[i] == before[i]);
            }
        }
    }
}

/// A briefing goes to the allowlisted recipients, in order, and to nobody else.
pub proof fn law_recipients_are_permitted_one_by_one(
    list: Allowlist,
    recipient: Seq<char>,
    first: Seq<Seq<char>>,
    second: Seq<Seq<char>>,
)
    ensures
        list.spec_allows(recipient) ==> permitted(list, seq![recipient]) == seq![recipient],
        !list.spec_allows(recipient) ==> permitted(list, seq![recipient]).len() == 0,
        permitted(list, first + second) == permitted(list, first) + permitted(list, second),
    decreases second.len(),
{
    let none = Seq::<Seq<char>>::empty();
    assert(permitted(list, none) =~= none);
    assert(seq![recipient].drop_last() =~= none);
    if list.spec_allows(recipient) {
        assert(permitted(list, seq![recipient]) =~= seq![recipient]);
    }
    if second.len() == 0 {
        assert(first + second =~= first);
        assert(permitted(list, first) + permitted(list, second) =~= permitted(list, first));
    } else {
        law_recipients_are_permitted_one_by_one(list, recipient, first, second.drop_last());
        assert((first + second).drop_last() =~= first + second.drop_last());
        assert(permitted(list, first + second) =~= permitted(list, first) + permitted(
            list,
            second,
        ));
    }
}

/// Each recipient ends in one list: delivered where the message was taken, and told as failed,
/// with the reason, where it was not or the recipient is not allowlisted.
pub proof fn law_each_recipient_is_told_of_once(
    list: Allowlist,
    recipients: Seq<Seq<char>>,
    recipient: Seq<char>,
    posted: Seq<Posting>,
    post: Posting,
)
    ensures
        list.spec_allows(recipient) && post.error is None ==> delivered_to(
            list,
            recipients.push(recipient),
            posted.push(post),
        ) == delivered_to(list, recipients, posted).push(recipient) && failures(
            list,
            recipients.push(recipient),
            posted.push(post),
        ) == failures(list, recipients, posted),
        list.spec_allows(recipient) && post.error is Some ==> delivered_to(
            list,
            recipients.push(recipient),
            posted.push(post),
        ) == delivered_to(list, recipients, posted) && failures(
            list,
            recipients.push(recipient),
            posted.push(post),
        ) == failures(list, recipients, posted).push(
            "send to "@ + recipient + " failed: "@ + post.error->0,
        ),
        !list.spec_allows(recipient) ==> delivered_to(list, recipients.push(recipient), posted)
            == delivered_to(list, recipients, posted) && failures(
            list,
            recipients.push(recipient),
            posted,
        ) == failures(list, recipients, posted).push("recipient not allowlisted: "@ + recipient),
        delivered_to(list, Seq::empty(), posted).len() == 0,
        failures(list, Seq::empty(), posted).len() == 0,
{
    assert(recipients.push(recipient).drop_last() =~= recipients);
    assert(posted.push(post).drop_last() =~= posted);
}

/// Every recipient is either delivered to or told as failed.
pub proof fn law_no_recipient_is_forgotten(
    list: Allowlist,
    recipients: Seq<Seq<char>>,
    posted: Seq<Posting>,
)
    requires
        posted.len() == permitted(list, recipients).len(),
    ensures
        delivered_to(list, recipients, posted).len() + failures(list, recipients, posted).len()
            == recipients.len(),
    decreases recipients.len(),
{
    if recipients.len() > 0 {
        let rest = recipients.drop_last();
        if list.spec_allows(recipients.last()) {
            law_no_recipient_is_forgotten(list, rest, posted.drop_last());
        } else {
            law_no_recipient_is_forgotten(list, rest, posted);
        }
    }
}

/// A list made of addresses permits each of them, whatever the whitespace around it and the case
/// of its letters, and permits nothing that is none of them.
pub proof fn law_listed_addresses_are_permitted(
    list: Allowlist,
    addrs: Seq<Seq<char>>,
    i: int,
    addr: Seq<char>,
)
    requires
        list.entries() == nonempty(addrs.map_values(|a: Seq<char>| folded(a))),
    ensures
        0 <= i < addrs.len() && lowercase(trimmed(addrs[i])).len() > 0 && lowercase(trimmed(addr))
            == lowercase(trimmed(addrs[i])) ==> list.spec_allows(addr),
        list.spec_allows(addr) ==> exists|k: int|
            0 <= k < addrs.len() && lowercase(trimmed(#[trigger] addrs[k])) == lowercase(
                trimmed(addr),
            ),
{
    let all = addrs.map_values(|a: Seq<char>| folded(a));
    lemma_nonempty_members(all, folded(addr));
    if 0 <= i < addrs.len() {
        assert(all[i] == folded(addrs[i]));
        assert(all.contains(all[i]));
    }
    if list.spec_allows(addr) {
        let k = choose|k: int| 0 <= k < all.len() && all[k] == folded(addr);
        assert(all[k] == folded(addrs[k]));
    }
}

proof fn lemma_nonempty_members(list: Seq<Seq<char>>, x: Seq<char>)
    ensures
        nonempty(list).contains(x) <==> list.contains(x) && x.len() > 0,
    decreases list.len(),
{
    if list.len() > 0 {
        let rest = list.drop_last();
        lemma_nonempty_members(rest, x);
        if rest.contains(x) {
            let k = choose|k: int| 0 <= k < rest.len() && rest[k] == x;
            assert(list[k] == x);
        }
        assert(list[list.len() - 1] == list.last());
        let kept = nonempty(rest);
        if list.last().len() > 0 {
            assert(nonempty(list)[kept.len() as int] == list.last());
            if kept.contains(x) {
                let k = choose|k: int| 0 <= k < kept.len() && kept[k] == x;
                assert(nonempty(list)[k] == x);
            }
            if nonempty(list).contains(x) && x != list.last() {
                let k = choose|k: int| 0 <= k < nonempty(list).len() && nonempty(list)[k] == x;
                assert(kept[k] == x);
            }
        }
        if list.contains(x) && x != list.last() {
            let k = choose|k: int| 0 <= k < list.len() && list[k] == x;
            assert(rest[k] == x);
        }
    }
}

/// The evidence of a briefing is that of its answers, in order.
pub proof fn law_evidence_is_gathered_in_order(
    answer: Answer,
    first: Seq<Answer>,
    second: Seq<Answer>,
)
    ensures
        evidence(seq![answer]) == texts(answer.provenance@),
        evidence(first + second) == evidence(first) + evidence(second),
    decreases second.len(),
{
    let none = Seq::<Answer>::empty();
    assert(evidence(none) =~= Seq::empty());
    assert(seq![answer].drop_last() =~= none);
    assert(evidence(seq![answer]) =~= texts(answer.provenance@));
    if second.len() == 0 {
        assert(first + second =~= first);
        assert(evidence(first) + evidence(second) =~= evidence(first));
    } else {
        law_evidence_is_gathered_in_order(answer, first, second.drop_last());
        assert((first + second).drop_last() =~= first + second.drop_last());
        assert(evidence(first + second) =~= evidence(first) + evidence(second));
    }
}

/// A briefing puts each question before its own answer, in the order of the questions.
pub proof fn law_answers_follow_their_questions(
    question: Seq<char>,
    answer: Answer,
    first: Seq<Seq<char>>,
    first_answers: Seq<Answer>,
    second: Seq<Seq<char>>,
    second_answers: Seq<Answer>,
)
    requires
        first.len() == first_answers.len(),
        second.len() == second_answers.len(),
    ensures
        dialogue(seq![question], seq![answer]) == "Q: "@ + question + "\n"@ + answer.text@
            + "\n\n"@,
        dialogue(first + second, first_answers + second_answers) == dialogue(first, first_answers)
            + dialogue(second, second_answers),
    decreases second.len(),
{
    assert(dialogue(Seq::empty(), Seq::empty()) =~= Seq::empty());
    assert(seq![question].drop_last() =~= Seq::empty());
    assert(seq![answer].drop_last() =~= Seq::empty());
    assert(dialogue(seq![question], seq![answer]) =~= "Q: "@ + question + "\n"@ + answer.text@
        + "\n\n"@);
    if second.len() == 0 {
        assert(first + second =~= first && first_answers + second_answers =~= first_answers);
        assert(dialogue(first, first_answers) + dialogue(second, second_answers) =~= dialogue(
            first,
            first_answers,
        ));
    } else {
        law_answers_follow_their_questions(
            question,
            answer,
            first,
            first_answers,
            second.drop_last(),
            second_answers.drop_last(),
        );
        assert((first + second).drop_last() =~= first + second.drop_last());
        assert((first_answers + second_answers).drop_last() =~= first_answers
            + second_answers.drop_last());
        assert(dialogue(first + second, first_answers + second_answers) =~= dialogue(
            first,
            first_answers,
        ) + dialogue(second, second_answers));
    }
}

/// The evidence is numbered from one, a line each.
pub proof fn law_evidence_is_numbered_from_one(list: Seq<Seq<char>>, one: Seq<char>)
    ensures
        evidence_lines(Seq::empty()).len() == 0,
        evidence_lines(seq![one]) == "  ["@ + decimal_of(1) + "] "@ + one + "\n"@,
        evidence_lines(list.push(one)) == evidence_lines(list) + ("  ["@ + decimal_of(
            list.len() + 1,
        ) + "] "@ + one + "\n"@),
{
    let none = Seq::<Seq<char>>::empty();
    assert(list.push(one).drop_last() =~= list);
    assert(seq![one].drop_last() =~= none);
    assert(evidence_lines(none) =~= Seq::empty());
    assert(evidence_lines(seq![one]) =~= "  ["@ + decimal_of(1) + "] "@ + one + "\n"@);
}

/// A briefing without evidence says nothing of any; one with evidence lists it after the answers.
pub proof fn law_a_briefing_ends_with_its_evidence(
    questions: Seq<Seq<char>>,
    answers: Seq<Answer>,
)
    ensures
        ({
            let start = "Aether cluster briefing\n=======================\n\n"@ + dialogue(
                questions,
                answers,
            );
            &&& evidence(answers).len() == 0 ==> briefing_body(questions, answers) == start
            &&& evidence(answers).len() > 0 ==> briefing_body(questions, answers) == start
                + ("— evidence —\n"@ + evidence_lines(evidence(answers)))
        }),
{
    let start = "Aether cluster briefing\n=======================\n\n"@ + dialogue(
        questions,
        answers,
    );
    assert(start + Seq::<char>::empty() =~= start);
}

/// Every permitted recipient is posted the briefing, its own subject and body, once and in order.
pub proof fn law_every_permitted_recipient_gets_the_briefing(
    posted: Seq<Posting>,
    list: Allowlist,
    recipients: Seq<Seq<char>>,
    briefing: Briefing,
    i: int,
)
    requires
        posts_briefing(posted, list, recipients, briefing),
    ensures
        posted.len() == permitted(list, recipients).len(),
        0 <= i < posted.len() ==> posted[i].to == permitted(list, recipients)[i]
            && posted[i].subject == briefing.subject@ && posted[i].body == briefing.body@,
{
}

} // verus!
