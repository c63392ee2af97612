//! Client-side helpers for dashboards, examples and agents: coordinator address lists, filter
//! arguments, and the one-line summary of a query manifest.

use vstd::prelude::*;
use vstd::string::*;

use crate::double::Double;
use crate::text::{
    cut_once, decimal, decimal_of, join, joined, lemma_texts_push, owned, same, signed_decimal,
    signed_decimal_of, split_once, split_trimmed, texts, trimmed, trimmed_pieces,
};
use crate::wire::{Filter, FilterCondition, NumericRange, OmittedShard, QueryManifest, Test};

verus! {

/// The addresses that a comma-separated list names, or the default where it names none.
pub open spec fn addresses(raw: Seq<char>, default: Seq<char>) -> Seq<Seq<char>> {
    let list = trimmed_pieces(raw, ',');
    if list.len() == 0 {
        seq![default]
    } else {
        list
    }
}

/// Split a comma-separated address list; falls back to `default` if it comes up empty.
pub fn parse_addr_list(raw: &str, default: &str) -> (list: Vec<String>)
    ensures
        texts(list@) == addresses(raw@, default@),
{
    let list = split_trimmed(raw, ',');
    if list.len() == 0 {
        let mut only: Vec<String> = Vec::new();
        only.push(owned(default));
        assert(texts(only@) =~= seq![default@]);
        only
    } else {
        list
    }
}

/// There is always an address to try, whatever a list holds.
pub proof fn law_some_address_is_listed(raw: Seq<char>, default: Seq<char>)
    ensures
        addresses(raw, default).len() > 0,
{
}

/// Coordinator addresses from the values of the two address variables: the list wins, the
/// singular still works, and `default` covers neither.
pub fn coordinator_addrs(list: Option<&str>, single: Option<&str>, default: &str) -> (addrs: Vec<
    String,
>)
    ensures
        texts(addrs@) == match (list, single) {
            (Some(raw), _) => addresses(raw@, default@),
            (None, Some(raw)) => addresses(raw@, default@),
            (None, None) => addresses(default@, default@),
        },
{
    match (list, single) {
        (Some(raw), _) => parse_addr_list(raw, default),
        (None, Some(raw)) => parse_addr_list(raw, default),
        (None, None) => parse_addr_list(default, default),
    }
}

/// What to do next when connecting to the first coordinator that answers.
#[derive(Debug, PartialEq)]
pub enum Dial {
    /// Try this address.
    Try(String),
    /// Every address has failed: the message of the error.
    GiveUp(String),
}

/// Whether `step` is what to do when the first `failed` addresses have failed: try the next one, or
/// give up when there is none.
pub open spec fn dials(addrs: Seq<Seq<char>>, failed: int, step: Dial) -> bool {
    match step {
        Dial::Try(addr) => failed < addrs.len() && addr@ == addrs[failed],
        Dial::GiveUp(message) => failed >= addrs.len() && message@
            == "no coordinator reachable (tried: "@ + joined(addrs, ", "@) + ")"@,
    }
}

/// What to do once the first `failed` addresses have not answered: addresses are tried in order,
/// and the error names them all.
pub fn next_dial(addrs: &Vec<String>, failed: usize) -> (step: Dial)
    ensures
        dials(texts(addrs@), failed as int, step),
{
    if failed < addrs.len() {
        Dial::Try(addrs[failed].clone())
    } else {
        let mut message = owned("no coordinator reachable (tried: ");
        message.append(join(addrs, ", ").as_str());
        message.append(")");
        Dial::GiveUp(message)
    }
}

/// How an omitted shard is named in a summary.
pub open spec fn omission(o: OmittedShard) -> Seq<char> {
    o.address@ + " ("@ + o.reason@ + ")"@
}

/// Division that rounds toward zero.
pub open spec fn truncated_seconds(ms: int) -> int {
    if ms >= 0 {
        ms / 1000
    } else {
        -((-ms) / 1000)
    }
}

/// The difference of two times, held within the range of a 64-bit number.
pub open spec fn age_ms(now_ms: i64, then_ms: i64) -> int {
    if now_ms - then_ms > i64::MAX {
        i64::MAX as int
    } else if now_ms - then_ms < i64::MIN {
        i64::MIN as int
    } else {
        now_ms - then_ms
    }
}

/// The parts of a manifest summary, in order.
pub open spec fn summary_parts(m: QueryManifest, now_ms: i64) -> Seq<Seq<char>> {
    let coverage = seq![
        "answered "@ + decimal_of(m.shards_answered as nat) + "/"@ + decimal_of(
            m.shards_queried as nat,
        ) + " shards"@,
    ];
    let omitted = if m.omitted@.len() > 0 {
        seq![
            "omitted: "@ + joined(m.omitted@.map_values(|o: OmittedShard| omission(o)), ", "@),
        ]
    } else {
        Seq::empty()
    };
    let deduped = if m.deduped > 0 {
        seq![decimal_of(m.deduped as nat) + " cross-shard duplicates dropped"@]
    } else {
        Seq::empty()
    };
    let fresh = if m.freshest_observed_at > 0 {
        seq![
            "freshest "@ + signed_decimal_of(
                truncated_seconds(age_ms(now_ms, m.freshest_observed_at)),
            ) + "s old"@,
        ]
    } else {
        Seq::empty()
    };
    coverage + omitted + deduped + fresh + seq![
        "placement v"@ + decimal_of(m.placement_version as nat),
        decimal_of(m.elapsed_ms as nat) + "ms"@,
    ]
}

fn add_part(parts: &mut Vec<String>, part: String)
    ensures
        texts(final(parts)@) == texts(old(parts)@).push(part@),
{
    proof {
        lemma_texts_push(parts@, part);
    }
    parts.push(part);
}

fn omissions(omitted: &Vec<OmittedShard>) -> (names: Vec<String>)
    ensures
        texts(names@) == omitted@.map_values(|o: OmittedShard| omission(o)),
{
    let mut names: Vec<String> = Vec::new();
    let mut i: usize = 0;
    while i < omitted.len()
        invariant
            i <= omitted@.len(),
            texts(names@) == omitted@.take(i as int).map_values(|o: OmittedShard| omission(o)),
        decreases omitted@.len() - i,
    {
        let mut name = omitted[i].address.clone();
        name.append(" (");
        name.append(omitted[i].reason.as_str());
        name.append(")");
        proof {
            assert(omitted@.take(i + 1).map_values(|o: OmittedShard| omission(o))
                =~= omitted@.take(i as int).map_values(|o: OmittedShard| omission(o)).push(
                omission(omitted@[i as int]),
            ));
        }
        add_part(&mut names, name);
        i = i + 1;
    }
    assert(omitted@.take(i as int) =~= omitted@);
    names
}

fn seconds_old(now_ms: i64, then_ms: i64) -> (seconds: i64)
    ensures
        seconds == truncated_seconds(age_ms(now_ms, then_ms)),
{
    let difference: i128 = now_ms as i128 - then_ms as i128;
    let age: i128 = if difference > i64::MAX as i128 {
        i64::MAX as i128
    } else if difference < i64::MIN as i128 {
        i64::MIN as i128
    } else {
        difference
    };
    if age >= 0 {
        (age / 1000) as i64
    } else {
        let magnitude: i128 = -age;
        (-(magnitude / 1000)) as i64
    }
}

/// A one-line, human-readable summary of a query manifest at time `now_ms`: coverage, what was
/// dropped and why, the number of duplicates, freshness, and the placement version.
pub fn manifest_summary(m: &QueryManifest, now_ms: i64) -> (text: String)
    ensures
        text@ == joined(summary_parts(*m, now_ms), " · "@),
{
    let mut parts: Vec<String> = Vec::new();
    let mut coverage = owned("answered ");
    coverage.append(decimal(m.shards_answered as u64).as_str());
    coverage.append("/");
    coverage.append(decimal(m.shards_queried as u64).as_str());
    coverage.append(" shards");
    add_part(&mut parts, coverage);
    if m.omitted.len() > 0 {
        let mut omitted = owned("omitted: ");
        let names = omissions(&m.omitted);
        omitted.append(join(&names, ", ").as_str());
        add_part(&mut parts, omitted);
    }
    if m.deduped > 0 {
        let mut deduped = decimal(m.deduped as u64);
        deduped.append(" cross-shard duplicates dropped");
        add_part(&mut parts, deduped);
    }
    if m.freshest_observed_at > 0 {
        let mut fresh = owned("freshest ");
        fresh.append(signed_decimal(seconds_old(now_ms, m.freshest_observed_at)).as_str());
        fresh.append("s old");
        add_part(&mut parts, fresh);
    }
    let mut placement = owned("placement v");
    placement.append(decimal(m.placement_version).as_str());
    add_part(&mut parts, placement);
    let mut elapsed = decimal(m.elapsed_ms);
    elapsed.append("ms");
    add_part(&mut parts, elapsed);
    assert(texts(parts@) =~= summary_parts(*m, now_ms));
    join(&parts, " · ")
}

/// The numbers that the two sides of a range argument read as; `None` for a side that is empty or
/// no number.
#[derive(Clone, Copy, Debug, PartialEq, Eq, Structural)]
pub struct Reading {
    pub min: Option<Double>,
    pub max: Option<Double>,
}

/// What is wrong with a filter argument.
#[derive(Debug, PartialEq)]
pub enum ArgError {
    /// No equals sign.
    NoEquals { arg: String },
    /// A side of a range that is no number.
    NotANumber { side: String, arg: String },
}

impl ArgError {
    /// The message of the error.
    pub open spec fn spec_message(self) -> Seq<char> {
        match self {
            ArgError::NoEquals { arg } => "filter '"@ + arg@
                + "' must look like field=value or field=min..max"@,
            ArgError::NotANumber { side, arg } => "'"@ + side@ + "' is not a number in '"@ + arg@
                + "'"@,
        }
    }

    /// The message of the error.
    pub fn message(&self) -> (text: String)
        ensures
            text@ == self.spec_message(),
    {
        match self {
            ArgError::NoEquals { arg } => {
                let mut text = owned("filter '");
                text.append(arg.as_str());
                text.append("' must look like field=value or field=min..max");
                text
            },
            ArgError::NotANumber { side, arg } => {
                let mut text = owned("'");
                text.append(side.as_str());
                text.append("' is not a number in '");
                text.append(arg.as_str());
                text.append("'");
                text
            },
        }
    }
}

/// What a filter argument means.
pub enum ArgMeaning {
    NoEquals,
    NotANumber(Seq<char>),
    Range(Seq<char>, Option<Double>, Option<Double>),
    Is(Seq<char>, bool),
    Equals(Seq<char>, Seq<char>),
}

/// The two sides of a range argument (`field=min..max`), if it is one.
pub open spec fn sides_of(arg: Seq<char>) -> Option<(Seq<char>, Seq<char>)> {
    match cut_once(arg, "="@) {
        None => None,
        Some((field, value)) => cut_once(value, ".."@),
    }
}

/// What a filter argument means, where `reading` tells the numbers of its sides:
/// `field=min..max` is a range (either side may be empty), `field=true` and `field=false` test a
/// boolean, and any other `field=value` a text.
pub open spec fn meaning_of(arg: Seq<char>, reading: Reading) -> ArgMeaning {
    match cut_once(arg, "="@) {
        None => ArgMeaning::NoEquals,
        Some((field, value)) => match cut_once(value, ".."@) {
            Some((low, high)) => if low.len() > 0 && reading.min is None {
                ArgMeaning::NotANumber(low)
            } else if high.len() > 0 && reading.max is None {
                ArgMeaning::NotANumber(high)
            } else {
                ArgMeaning::Range(
                    field,
                    if low.len() == 0 {
                        None
                    } else {
                        reading.min
                    },
                    if high.len() == 0 {
                        None
                    } else {
                        reading.max
                    },
                )
            },
            None => if value == "true"@ {
                ArgMeaning::Is(field, true)
            } else if value == "false"@ {
                ArgMeaning::Is(field, false)
            } else {
                ArgMeaning::Equals(field, value)
            },
        },
    }
}

/// Whether a condition is what an argument means.
pub open spec fn expresses(condition: FilterCondition, meaning: ArgMeaning) -> bool {
    match (meaning, condition.test) {
        (ArgMeaning::Range(field, min, max), Some(Test::Range(range))) => condition.field@ == field
            && range.min == min && range.max == max,
        (ArgMeaning::Is(field, want), Some(Test::Is(value))) => condition.field@ == field && value
            == want,
        (ArgMeaning::Equals(field, want), Some(Test::Equals(value))) => condition.field@ == field
            && value@ == want,
        _ => false,
    }
}

/// Whether an error is what is wrong with an argument.
pub open spec fn complains(error: ArgError, arg: Seq<char>, meaning: ArgMeaning) -> bool {
    match (meaning, error) {
        (ArgMeaning::NoEquals, ArgError::NoEquals { arg: text }) => text@ == arg,
        (ArgMeaning::NotANumber(side), ArgError::NotANumber { side: which, arg: text }) => which@
            == side && text@ == arg,
        _ => false,
    }
}

/// Whether an argument is refused.
pub open spec fn is_refused(meaning: ArgMeaning) -> bool {
    meaning is NoEquals || meaning is NotANumber
}

/// The two sides of a range argument, if it is one: what a caller reads as numbers.
pub fn range_sides(arg: &str) -> (sides: Option<(String, String)>)
    ensures
        match sides {
            Some((low, high)) => sides_of(arg@) == Some((low@, high@)),
            None => sides_of(arg@) is None,
        },
{
    match split_once(arg, "=") {
        None => None,
        Some((field, value)) => split_once(value.as_str(), ".."),
    }
}

fn parse_arg(arg: &String, reading: Reading) -> (result: Result<FilterCondition, ArgError>)
    ensures
        match result {
            Ok(condition) => expresses(condition, meaning_of(arg@, reading)),
            Err(error) => complains(error, arg@, meaning_of(arg@, reading)),
        },
{
    match split_once(arg.as_str(), "=") {
        None => Err(ArgError::NoEquals { arg: arg.clone() }),
        Some((field, value)) => match split_once(value.as_str(), "..") {
            Some((low, high)) => {
                let min: Option<Double> = if low.as_str().is_empty() {
                    None
                } else {
                    match reading.min {
                        Some(d) => Some(d),
                        None => {
                            return Err(ArgError::NotANumber { side: low, arg: arg.clone() });
                        },
                    }
                };
                let max: Option<Double> = if high.as_str().is_empty() {
                    None
                } else {
                    match reading.max {
                        Some(d) => Some(d),
                        None => {
                            return Err(ArgError::NotANumber { side: high, arg: arg.clone() });
                        },
                    }
                };
                Ok(FilterCondition { field, test: Some(Test::Range(NumericRange { min, max })) })
            },
            None => if same(value.as_str(), "true") {
                Ok(FilterCondition { field, test: Some(Test::Is(true)) })
            } else if same(value.as_str(), "false") {
                Ok(FilterCondition { field, test: Some(Test::Is(false)) })
            } else {
                Ok(FilterCondition { field, test: Some(Test::Equals(value)) })
            },
        },
    }
}

/// Whether `result` is the filter that a list of arguments asks for: a condition for each, or what
/// is wrong with the first that cannot be read.
pub open spec fn reads_args(
    args: Seq<Seq<char>>,
    readings: Seq<Reading>,
    result: Result<Option<Filter>, ArgError>,
) -> bool {
    match result {
        Ok(None) => args.len() == 0,
        Ok(Some(filter)) => args.len() > 0 && filter.conditions@.len() == args.len() && forall|i: int|
            0 <= i < args.len() ==> expresses(
                #[trigger] filter.conditions@[i],
                meaning_of(args[i], readings[i]),
            ),
        Err(error) => exists|i: int|
            0 <= i < args.len() && complains(
                error,
                #[trigger] args[i],
                meaning_of(args[i], readings[i]),
            ) && forall|j: int|
                0 <= j < i ==> !is_refused(meaning_of(#[trigger] args[j], readings[j])),
    }
}

/// Parse filter arguments: `field=value` (text equals), `field=min..max` (numeric range; either
/// side may be empty), `field=true|false` (boolean). `readings` tells, argument by argument, the
/// numbers that the sides of a range read as. No filter for an empty list; the first argument
/// that is refused is reported.
pub fn parse_filter_args(args: &Vec<String>, readings: &Vec<Reading>) -> (result: Result<
    Option<Filter>,
    ArgError,
>)
    requires
        args@.len() == readings@.len(),
    ensures
        reads_args(texts(args@), readings@, result),
{
    let mut conditions: Vec<FilterCondition> = Vec::new();
    let mut i: usize = 0;
    while i < args.len()
        invariant
            i <= args@.len(),
            args@.len() == readings@.len(),
            conditions@.len() == i,
            forall|j: int|
                0 <= j < i ==> expresses(
                    #[trigger] conditions@[j],
                    meaning_of(args@[j]@, readings@[j]),
                ),
        decreases args@.len() - i,
    {
        match parse_arg(&args[i], readings[i]) {
            Ok(condition) => {
                conditions.push(condition);
            },
            Err(error) => {
                proof {
                    let list = texts(args@);
                    assert(complains(
                        error,
                        list[i as int],
                        meaning_of(list[i as int], readings@[i as int]),
                    ));
                    assert forall|j: int| 0 <= j < i implies !is_refused(
                        meaning_of(#[trigger] list[j], readings@[j]),
                    ) by {
                        assert(expresses(conditions@[j], meaning_of(args@[j]@, readings@[j])));
                    }
                }
                return Err(error);
            },
        }
        i = i + 1;
    }
    if conditions.len() == 0 {
        Ok(None)
    } else {
        Ok(Some(Filter { conditions }))
    }
}

/// An address list is read part by part: what stands between commas, without the whitespace
/// around it. Blank parts are none, and only a list without any address stands for the default.
pub proof fn law_addresses_stand_between_commas(a: Seq<char>, b: Seq<char>, default: Seq<char>)
    requires
        !a.contains(','),
    ensures
        trimmed(a).len() > 0 ==> addresses(a, default) == seq![trimmed(a)],
        trimmed(a).len() == 0 ==> addresses(a, default) == seq![default],
        trimmed(a).len() > 0 && !b.contains(',') && trimmed(b).len() > 0 ==> addresses(
            a.push(',') + b,
            default,
        ) == seq![trimmed(a), trimmed(b)],
        trimmed(a).len() == 0 ==> addresses(a.push(',') + b, default) == addresses(b, default),
{
    crate::text::law_lists_are_read_part_by_part(a, ',', b);
    crate::text::law_lists_are_read_part_by_part(b, ',', Seq::empty());
    let x = trimmed_pieces(a, ',');
    let y = trimmed_pieces(b, ',');
    if trimmed(a).len() == 0 {
        assert(x + y =~= y);
    } else if !b.contains(',') && trimmed(b).len() > 0 {
        assert(x + y =~= seq![trimmed(a), trimmed(b)]);
    }
}

/// An age in seconds leaves the broken second off, before and after the moment alike.
pub proof fn law_seconds_leave_the_rest_off(ms: int)
    ensures
        ms >= 0 ==> 1000 * truncated_seconds(ms) <= ms < 1000 * truncated_seconds(ms) + 1000,
        ms < 0 ==> 1000 * truncated_seconds(ms) - 1000 < ms <= 1000 * truncated_seconds(ms),
        truncated_seconds(-ms) == -truncated_seconds(ms),
{
}

/// An age is the time passed since, or the nearest that can be counted.
pub proof fn law_age_is_time_passed(now_ms: i64, then_ms: i64)
    ensures
        then_ms + age_ms(now_ms, then_ms) == now_ms || age_ms(now_ms, then_ms) == i64::MAX
            || age_ms(now_ms, then_ms) == i64::MIN,
        i64::MIN <= now_ms - then_ms <= i64::MAX ==> then_ms + age_ms(now_ms, then_ms) == now_ms,
        now_ms - then_ms > i64::MAX ==> age_ms(now_ms, then_ms) == i64::MAX,
        now_ms - then_ms < i64::MIN ==> age_ms(now_ms, then_ms) == i64::MIN,
{
}

/// A filter argument is a field, an equals sign and a value: two dots in the value make a range
/// of what stands before and after them, `true` and `false` a flag, anything else a text.
pub proof fn law_arguments_are_read_as_written(
    field: Seq<char>,
    value: Seq<char>,
    low: Seq<char>,
    high: Seq<char>,
    reading: Reading,
)
    requires
        !field.contains('='),
    ensures
        ({
            let meaning = meaning_of(field + "="@ + value, reading);
            let dots = |s: Seq<char>, i: int| 0 <= i && i + 2 <= s.len() && s[i] == '.' && s[i + 1]
                == '.';
            let plain = forall|i: int| !#[trigger] dots(value, i);
            &&& plain && value == "true"@ ==> meaning == ArgMeaning::Is(field, true)
            &&& plain && value == "false"@ ==> meaning == ArgMeaning::Is(field, false)
            &&& plain && value != "true"@ && value != "false"@ ==> meaning == ArgMeaning::Equals(
                field,
                value,
            )
            &&& value == low + ".."@ + high && (forall|i: int|
                0 <= i < low.len() ==> !#[trigger] dots(value, i)) ==> {
                &&& low.len() > 0 && reading.min is None ==> meaning == ArgMeaning::NotANumber(low)
                &&& (low.len() == 0 || reading.min is Some) && high.len() > 0 && reading.max is None
                    ==> meaning == ArgMeaning::NotANumber(high)
                &&& (low.len() == 0 || reading.min is Some) && (high.len() == 0 || reading.max
                    is Some) ==> meaning == ArgMeaning::Range(
                    field,
                    if low.len() == 0 {
                        None
                    } else {
                        reading.min
                    },
                    if high.len() == 0 {
                        None
                    } else {
                        reading.max
                    },
                )
            }
        }),
        meaning_of(field, reading) == ArgMeaning::NoEquals,
{
    reveal_strlit("=");
    reveal_strlit("..");
    reveal_strlit("true");
    reveal_strlit("false");
    assert("="@ =~= seq!['=']);
    assert(".."@ =~= seq!['.', '.']);
    assert("true"@.len() == 4 && "false"@.len() == 5);
    let arg = field + "="@ + value;
    lemma_cut_at(arg, "="@, field.len() as int);
    assert(arg.take(field.len() as int) =~= field);
    assert(arg.skip(field.len() as int + 1) =~= value);
    crate::text::law_a_cut_is_at_the_first_place(field, "="@);
    if let Some((before, after)) = cut_once(field, "="@) {
        assert(field[before.len() as int] == '=');
    }
    let dots = |s: Seq<char>, i: int| 0 <= i && i + 2 <= s.len() && s[i] == '.' && s[i + 1] == '.';
    if forall|i: int| !#[trigger] dots(value, i) {
        crate::text::law_a_cut_is_at_the_first_place(value, ".."@);
        if let Some((before, after)) = cut_once(value, ".."@) {
            let at = before.len() as int;
            assert(value[at] == '.' && value[at + 1] == '.');
            assert(dots(value, at));
        }
    }
    if value == low + ".."@ + high && (forall|i: int|
        0 <= i < low.len() ==> !#[trigger] dots(value, i)) {
        let at = low.len() as int;
        assert forall|i: int|
            #![trigger value.subrange(i, i + ".."@.len())]
            0 <= i < at implies value.subrange(i, i + ".."@.len()) != ".."@ by {
            assert(!dots(value, i));
            let part = value.subrange(i, i + 2);
            assert(part[0] == value[i] && part[1] == value[i + 1]);
        }
        assert(value.subrange(at, at + 2) =~= ".."@);
        lemma_cut_at_first(value, ".."@, at);
        assert(value.take(at) =~= low);
        assert(value.skip(at + 2) =~= high);
    }
}

proof fn lemma_cut_at(s: Seq<char>, mark: Seq<char>, at: int)
    requires
        mark.len() == 1,
        0 <= at < s.len(),
        s[at] == mark[0],
        forall|i: int| 0 <= i < at ==> #[trigger] s[i] != mark[0],
    ensures
        cut_once(s, mark) == Some((s.take(at), s.skip(at + 1))),
{
    assert forall|i: int|
        #![trigger s.subrange(i, i + mark.len())]
        0 <= i < at implies s.subrange(i, i + mark.len()) != mark by {
        assert(s.subrange(i, i + 1)[0] == s[i]);
    }
    assert(s.subrange(at, at + 1) =~= mark);
    lemma_cut_at_first(s, mark, at);
}

proof fn lemma_cut_at_first(s: Seq<char>, pattern: Seq<char>, at: int)
    requires
        0 <= at,
        at + pattern.len() <= s.len(),
        s.subrange(at, at + pattern.len()) == pattern,
        forall|i: int|
            #![trigger s.subrange(i, i + pattern.len())]
            0 <= i < at ==> s.subrange(i, i + pattern.len()) != pattern,
    ensures
        cut_once(s, pattern) == Some((s.take(at), s.skip(at + pattern.len()))),
{
    crate::text::law_a_cut_is_at_the_first_place(s, pattern);
    match cut_once(s, pattern) {
        None => {
            assert(s.subrange(at, at + pattern.len()) != pattern);
        },
        Some((before, after)) => {
            let found = before.len() as int;
            assert(s.subrange(found, found + pattern.len()) =~= pattern);
            assert(found == at);
            assert(s.take(at) =~= before);
            assert(s.skip(at + pattern.len()) =~= after);
        },
    }
}

/// A condition expresses what its argument says: the field, and of a range each bound on its own
/// side.
pub proof fn law_conditions_express_their_argument(
    condition: FilterCondition,
    field: Seq<char>,
    min: Option<Double>,
    max: Option<Double>,
    text: Seq<char>,
    flag: bool,
)
    ensures
        expresses(condition, ArgMeaning::Range(field, min, max)) <==> condition.field@ == field
            && condition.test == Some(Test::Range(NumericRange { min, max })),
        expresses(condition, ArgMeaning::Is(field, flag)) <==> condition.field@ == field
            && condition.test == Some(Test::Is(flag)),
        expresses(condition, ArgMeaning::Equals(field, text)) <==> condition.field@ == field && (
        condition.test matches Some(Test::Equals(want)) && want@ == text),
        !expresses(condition, ArgMeaning::NoEquals),
        !expresses(condition, ArgMeaning::NotANumber(text)),
{
}

/// A summary tells how many shards answered of how many, and the placement and the time; of
/// omitted shards, dropped duplicates and freshness it tells exactly where there are any.
pub proof fn law_a_summary_tells_what_there_is(m: QueryManifest, now_ms: i64)
    ensures
        ({
            let parts = summary_parts(m, now_ms);
            &&& parts[0] == "answered "@ + decimal_of(m.shards_answered as nat) + "/"@ + decimal_of(
                m.shards_queried as nat,
            ) + " shards"@
            &&& parts[parts.len() - 2] == "placement v"@ + decimal_of(m.placement_version as nat)
            &&& parts[parts.len() - 1] == decimal_of(m.elapsed_ms as nat) + "ms"@
            &&& parts.len() == 3 + (if m.omitted@.len() > 0 {
                1int
            } else {
                0int
            }) + (if m.deduped > 0 {
                1int
            } else {
                0int
            }) + (if m.freshest_observed_at > 0 {
                1int
            } else {
                0int
            })
            &&& m.deduped > 0 ==> parts.contains(
                decimal_of(m.deduped as nat) + " cross-shard duplicates dropped"@,
            )
            &&& m.freshest_observed_at > 0 ==> parts[parts.len() - 3] == "freshest "@
                + signed_decimal_of(truncated_seconds(age_ms(now_ms, m.freshest_observed_at)))
                + "s old"@
            &&& m.omitted@.len() > 0 ==> parts[1] == "omitted: "@ + joined(
                m.omitted@.map_values(
                    |o: OmittedShard| o.address@ + " ("@ + o.reason@ + ")"@,
                ),
                ", "@,
            )
        }),
{
    let parts = summary_parts(m, now_ms);
    if m.omitted@.len() > 0 {
        assert(m.omitted@.map_values(|o: OmittedShard| omission(o)) =~= m.omitted@.map_values(
            |o: OmittedShard| o.address@ + " ("@ + o.reason@ + ")"@,
        ));
    }
    if m.deduped > 0 {
        let at = if m.omitted@.len() > 0 { 2int } else { 1int };
        assert(parts[at] == decimal_of(m.deduped as nat) + " cross-shard duplicates dropped"@);
    }
}

/// Arguments make a condition each, in order; without any there is no filter, and one that cannot
/// be read fails them all, with the first such argument named.
pub proof fn law_arguments_make_a_condition_each(
    args: Seq<Seq<char>>,
    readings: Seq<Reading>,
    result: Result<Option<Filter>, ArgError>,
    i: int,
)
    requires
        reads_args(args, readings, result),
    ensures
        args.len() == 0 ==> result matches Ok(None),
        result matches Ok(Some(filter)) ==> filter.conditions@.len() == args.len() && (0 <= i
            < args.len() ==> expresses(filter.conditions@[i], meaning_of(args[i], readings[i]))),
        0 <= i < args.len() && (meaning_of(args[i], readings[i]) is NoEquals || meaning_of(
            args[i],
            readings[i],
        ) is NotANumber) ==> result is Err,
        result matches Err(ArgError::NoEquals { arg }) ==> exists|k: int|
            0 <= k < args.len() && #[trigger] args[k] == arg@ && meaning_of(args[k], readings[k])
                is NoEquals,
        result matches Err(ArgError::NotANumber { side, arg }) ==> exists|k: int|
            0 <= k < args.len() && #[trigger] args[k] == arg@ && meaning_of(args[k], readings[k])
                == ArgMeaning::NotANumber(side@),
{
    if let Ok(Some(filter)) = result {
        if 0 <= i < args.len() {
            assert(expresses(filter.conditions@[i], meaning_of(args[i], readings[i])));
        }
    }
}

/// The addresses are tried in turn, each once: after as many failures as there are addresses, and
/// no sooner, the dial is given up, and all of them are told.
pub proof fn law_addresses_are_tried_in_turn(addrs: Seq<Seq<char>>, failed: int, step: Dial)
    requires
        dials(addrs, failed, step),
        failed >= 0,
    ensures
        failed < addrs.len() ==> (step matches Dial::Try(addr) && addr@ == addrs[failed]),
        failed >= addrs.len() ==> (step matches Dial::GiveUp(message) && message@
            == "no coordinator reachable (tried: "@ + joined(addrs, ", "@) + ")"@),
{
}

} // verus!
