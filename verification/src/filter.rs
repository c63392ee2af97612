//! Structured-filter evaluation: validate a filter's shape once (an unknown field or a test of
//! the wrong kind is a loud error, never a silent no-op), then test documents against it.

use vstd::prelude::*;
use vstd::string::*;

use crate::double::{from_integer, integer_bits, Double, NAN_BITS};
use crate::text::{owned, same};
use crate::tokens::{ascii_known, lowercase, to_lowercase};
use crate::wire::{Filter, FilterCondition, FlightDocument, NumericRange, Test};

verus! {

/// Text fields, which an `equals` test addresses.
pub open spec fn is_text_field(field: Seq<char>) -> bool {
    ||| field == "callsign"@
    ||| field == "origin"@
    ||| field == "destination"@
    ||| field == "aircraft_type"@
    ||| field == "tenant_id"@
    ||| field == "icao24"@
}

/// Numeric fields, which a `range` test addresses.
pub open spec fn is_numeric_field(field: Seq<char>) -> bool {
    ||| field == "altitude"@
    ||| field == "velocity"@
    ||| field == "heading"@
    ||| field == "vertical_rate"@
    ||| field == "latitude"@
    ||| field == "longitude"@
    ||| field == "observed_at"@
}

/// Boolean fields, which an `is` test addresses.
pub open spec fn is_bool_field(field: Seq<char>) -> bool {
    field == "on_ground"@
}

fn text_field(field: &str) -> (result: bool)
    ensures
        result == is_text_field(field@),
{
    same(field, "callsign") || same(field, "origin") || same(field, "destination") || same(
        field,
        "aircraft_type",
    ) || same(field, "tenant_id") || same(field, "icao24")
}

fn numeric_field(field: &str) -> (result: bool)
    ensures
        result == is_numeric_field(field@),
{
    same(field, "altitude") || same(field, "velocity") || same(field, "heading") || same(
        field,
        "vertical_rate",
    ) || same(field, "latitude") || same(field, "longitude") || same(field, "observed_at")
}

fn bool_field(field: &str) -> (result: bool)
    ensures
        result == is_bool_field(field@),
{
    same(field, "on_ground")
}

/// What is wrong with a condition.
#[derive(Clone, Copy, Debug, PartialEq, Eq, Structural)]
pub enum Fault {
    /// An `equals` test on a field that is not text.
    NotText,
    /// A `range` test on a field that is not numeric.
    NotNumeric,
    /// A range whose minimum exceeds its maximum.
    EmptyRange { min: Double, max: Double },
    /// An `is` test on a field that is not boolean.
    NotBoolean,
    /// No test at all.
    NoTest,
}

/// Why a filter is refused: the field of the offending condition and what is wrong with it.
#[derive(Debug, PartialEq)]
pub struct FilterError {
    pub field: String,
    pub fault: Fault,
}

/// What is wrong with a range on a numeric field.
pub open spec fn range_fault(range: NumericRange) -> Option<Fault> {
    match (range.min, range.max) {
        (Some(min), Some(max)) => if max.spec_less(min) {
            Some(Fault::EmptyRange { min, max })
        } else {
            None
        },
        _ => None,
    }
}

/// What is wrong with a condition, if anything.
pub open spec fn fault_of(condition: FilterCondition) -> Option<Fault> {
    let field = condition.field@;
    match condition.test {
        Some(Test::Equals(_)) => if is_text_field(field) {
            None
        } else {
            Some(Fault::NotText)
        },
        Some(Test::Range(range)) => if is_numeric_field(field) {
            range_fault(range)
        } else {
            Some(Fault::NotNumeric)
        },
        Some(Test::Is(_)) => if is_bool_field(field) {
            None
        } else {
            Some(Fault::NotBoolean)
        },
        None => Some(Fault::NoTest),
    }
}

/// Whether every condition names a known field with the right kind of test.
pub open spec fn well_shaped(filter: Filter) -> bool {
    forall|i: int|
        0 <= i < filter.conditions@.len() ==> fault_of(#[trigger] filter.conditions@[i]) is None
}

fn check_condition(condition: &FilterCondition) -> (fault: Option<Fault>)
    ensures
        fault == fault_of(*condition),
{
    let field = condition.field.as_str();
    match &condition.test {
        Some(Test::Equals(_)) => if text_field(field) {
            None
        } else {
            Some(Fault::NotText)
        },
        Some(Test::Range(range)) => if numeric_field(field) {
            match (range.min, range.max) {
                (Some(min), Some(max)) => if max.less(min) {
                    Some(Fault::EmptyRange { min, max })
                } else {
                    None
                },
                _ => None,
            }
        } else {
            Some(Fault::NotNumeric)
        },
        Some(Test::Is(_)) => if bool_field(field) {
            None
        } else {
            Some(Fault::NotBoolean)
        },
        None => Some(Fault::NoTest),
    }
}

/// Whether an error is what the first faulty condition of a filter is refused for.
pub open spec fn names_first_fault(error: FilterError, filter: Filter) -> bool {
    exists|i: int|
        0 <= i < filter.conditions@.len() && fault_of(#[trigger] filter.conditions@[i]) == Some(
            error.fault,
        ) && error.field@ == filter.conditions@[i].field@ && forall|j: int|
            0 <= j < i ==> fault_of(#[trigger] filter.conditions@[j]) is None
}

/// Check that every condition names a known field with the right kind of test. The error names
/// the first offending condition.
pub fn validate(filter: &Filter) -> (result: Result<(), FilterError>)
    ensures
        result is Ok <==> well_shaped(*filter),
        result matches Err(error) ==> names_first_fault(error, *filter),
{
    let mut i: usize = 0;
    while i < filter.conditions.len()
        invariant
            i <= filter.conditions@.len(),
            forall|j: int| 0 <= j < i ==> fault_of(#[trigger] filter.conditions@[j]) is None,
        decreases filter.conditions@.len() - i,
    {
        let condition = &filter.conditions[i];
        match check_condition(condition) {
            Some(fault) => {
                assert(fault_of(filter.conditions@[i as int]) == Some(fault));
                return Err(FilterError { field: condition.field.clone(), fault });
            },
            None => {},
        }
        i = i + 1;
    }
    Ok(())
}

impl FilterError {
    /// The message of the error, where `min` and `max` are the texts of an empty range's bounds.
    pub open spec fn spec_message(self, min: Seq<char>, max: Seq<char>) -> Seq<char> {
        let name = "'"@ + self.field@ + "'"@;
        match self.fault {
            Fault::NotText => name
                + " is not a text field (equals applies to: callsign, origin, destination, aircraft_type, tenant_id, icao24)"@,
            Fault::NotNumeric => name
                + " is not a numeric field (range applies to: altitude, velocity, heading, vertical_rate, latitude, longitude, observed_at)"@,
            Fault::EmptyRange { .. } => name + " range has min "@ + min + " > max "@ + max,
            Fault::NotBoolean => name + " is not a boolean field (is applies to: on_ground)"@,
            Fault::NoTest => "condition on "@ + name + " has no test"@,
        }
    }

    /// A human-readable message, where `min` and `max` are the texts of an empty range's bounds.
    pub fn message(&self, min: &str, max: &str) -> (text: String)
        ensures
            text@ == self.spec_message(min@, max@),
    {
        let mut name = owned("'");
        name.append(self.field.as_str());
        name.append("'");
        match self.fault {
            Fault::NotText => {
                name.append(
                    " is not a text field (equals applies to: callsign, origin, destination, aircraft_type, tenant_id, icao24)",
                );
                name
            },
            Fault::NotNumeric => {
                name.append(
                    " is not a numeric field (range applies to: altitude, velocity, heading, vertical_rate, latitude, longitude, observed_at)",
                );
                name
            },
            Fault::EmptyRange { .. } => {
                name.append(" range has min ");
                name.append(min);
                name.append(" > max ");
                name.append(max);
                name
            },
            Fault::NotBoolean => {
                name.append(" is not a boolean field (is applies to: on_ground)");
                name
            },
            Fault::NoTest => {
                let mut text = owned("condition on ");
                text.append(name.as_str());
                text.append(" has no test");
                text
            },
        }
    }
}

/// The text of a document's text field; empty for any other field.
pub open spec fn text_value(doc: FlightDocument, field: Seq<char>) -> Seq<char> {
    if field == "callsign"@ {
        doc.callsign@
    } else if field == "origin"@ {
        doc.origin@
    } else if field == "destination"@ {
        doc.destination@
    } else if field == "aircraft_type"@ {
        doc.aircraft_type@
    } else if field == "tenant_id"@ {
        doc.tenant_id@
    } else if field == "icao24"@ {
        doc.icao24@
    } else {
        Seq::empty()
    }
}

/// The number in a document's numeric field; "not a number" for any other field.
pub open spec fn numeric_value(doc: FlightDocument, field: Seq<char>) -> Double {
    if field == "altitude"@ {
        doc.altitude
    } else if field == "velocity"@ {
        doc.velocity
    } else if field == "heading"@ {
        doc.heading
    } else if field == "vertical_rate"@ {
        doc.vertical_rate
    } else if field == "latitude"@ {
        doc.latitude
    } else if field == "longitude"@ {
        doc.longitude
    } else if field == "observed_at"@ {
        Double { bits: integer_bits(doc.observed_at as int) as u64 }
    } else {
        Double { bits: NAN_BITS }
    }
}

/// Whether a number lies in a range, bounds included.
pub open spec fn within(value: Double, range: NumericRange) -> bool {
    &&& range.min matches Some(min) ==> min.spec_at_most(value)
    &&& range.max matches Some(max) ==> value.spec_at_most(max)
}

/// Whether a document meets a condition. Texts are compared in lower case, as the keyword index
/// folds its tokens.
pub open spec fn holds(doc: FlightDocument, condition: FilterCondition) -> bool {
    match condition.test {
        Some(Test::Equals(want)) => lowercase(text_value(doc, condition.field@)) == lowercase(want@),
        Some(Test::Range(range)) => within(numeric_value(doc, condition.field@), range),
        Some(Test::Is(want)) => doc.on_ground == want,
        None => false,
    }
}

fn text_of(doc: &FlightDocument, field: &str) -> (value: String)
    ensures
        value@ == text_value(*doc, field@),
{
    if same(field, "callsign") {
        doc.callsign.clone()
    } else if same(field, "origin") {
        doc.origin.clone()
    } else if same(field, "destination") {
        doc.destination.clone()
    } else if same(field, "aircraft_type") {
        doc.aircraft_type.clone()
    } else if same(field, "tenant_id") {
        doc.tenant_id.clone()
    } else if same(field, "icao24") {
        doc.icao24.clone()
    } else {
        String::new()
    }
}

fn number_of(doc: &FlightDocument, field: &str) -> (value: Double)
    ensures
        value == numeric_value(*doc, field@),
{
    if same(field, "altitude") {
        doc.altitude
    } else if same(field, "velocity") {
        doc.velocity
    } else if same(field, "heading") {
        doc.heading
    } else if same(field, "vertical_rate") {
        doc.vertical_rate
    } else if same(field, "latitude") {
        doc.latitude
    } else if same(field, "longitude") {
        doc.longitude
    } else if same(field, "observed_at") {
        from_integer(doc.observed_at)
    } else {
        Double { bits: NAN_BITS }
    }
}

/// What is known of the lower case of the texts that a condition compares.
pub open spec fn compares_ascii(doc: FlightDocument, condition: FilterCondition) -> bool {
    condition.test matches Some(Test::Equals(want)) ==> ascii_known(want@) && ascii_known(
        text_value(doc, condition.field@),
    )
}

fn condition_holds(doc: &FlightDocument, condition: &FilterCondition) -> (result: bool)
    ensures
        result == holds(*doc, *condition),
        compares_ascii(*doc, *condition),
{
    let field = condition.field.as_str();
    match &condition.test {
        Some(Test::Equals(want)) => {
            let value = to_lowercase(text_of(doc, field).as_str());
            let wanted = to_lowercase(want.as_str());
            same(value.as_str(), wanted.as_str())
        },
        Some(Test::Range(range)) => {
            let value = number_of(doc, field);
            let above = match range.min {
                Some(min) => min.at_most(value),
                None => true,
            };
            let below = match range.max {
                Some(max) => value.at_most(max),
                None => true,
            };
            above && below
        },
        Some(Test::Is(want)) => doc.on_ground == *want,
        None => false,
    }
}

/// Whether a document meets every condition.
pub open spec fn meets(doc: FlightDocument, conditions: Seq<FilterCondition>) -> bool {
    forall|i: int| 0 <= i < conditions.len() ==> holds(doc, #[trigger] conditions[i])
}

/// Whether `doc` passes the filter: all conditions, or no filter at all.
pub fn passes(doc: &FlightDocument, filter: Option<&Filter>) -> (result: bool)
    ensures
        result == (filter matches Some(f) ==> meets(*doc, f.conditions@)),
        filter matches Some(f) ==> forall|i: int|
            0 <= i < f.conditions@.len() ==> compares_ascii(*doc, #[trigger] f.conditions@[i]),
{
    match filter {
        None => true,
        Some(f) => {
            let mut all_hold = true;
            let mut i: usize = 0;
            while i < f.conditions.len()
                invariant
                    i <= f.conditions@.len(),
                    all_hold <==> forall|j: int|
                        0 <= j < i ==> holds(*doc, #[trigger] f.conditions@[j]),
                    forall|j: int|
                        0 <= j < i ==> compares_ascii(*doc, #[trigger] f.conditions@[j]),
                decreases f.conditions@.len() - i,
            {
                let met = condition_holds(doc, &f.conditions[i]);
                all_hold = all_hold && met;
                i = i + 1;
            }
            all_hold
        },
    }
}

/// A filter without conditions passes every document.
pub proof fn law_empty_filter_passes_everything(doc: FlightDocument)
    ensures
        meets(doc, Seq::empty()),
{
}

/// Conditions are ANDed: a document meets two lists together exactly when it meets each.
pub proof fn law_conditions_are_anded(
    doc: FlightDocument,
    first: Seq<FilterCondition>,
    second: Seq<FilterCondition>,
)
    ensures
        meets(doc, first + second) <==> meets(doc, first) && meets(doc, second),
{
    let both = first + second;
    if meets(doc, both) {
        assert forall|i: int| 0 <= i < first.len() implies holds(doc, #[trigger] first[i]) by {
            assert(both[i] == first[i]);
        }
        assert forall|i: int| 0 <= i < second.len() implies holds(doc, #[trigger] second[i]) by {
            assert(both[first.len() + i] == second[i]);
        }
    }
}

/// Text equality ignores case: wanted texts with the same lower case select the same documents.
pub proof fn law_equals_ignores_case(
    doc: FlightDocument,
    condition: FilterCondition,
    other: FilterCondition,
)
    requires
        condition.field@ == other.field@,
        condition.test matches Some(Test::Equals(_)),
        other.test matches Some(Test::Equals(_)),
        lowercase(condition.test->Some_0->Equals_0@) == lowercase(other.test->Some_0->Equals_0@),
    ensures
        holds(doc, condition) == holds(doc, other),
{
}

/// Ranges are inclusive: the bounds of a validated range of numbers lie in it.
pub proof fn law_bounds_are_inclusive(range: NumericRange, min: Double, max: Double)
    requires
        range.min == Some(min),
        range.max == Some(max),
        !min.spec_is_nan(),
        !max.spec_is_nan(),
        range_fault(range) is None,
    ensures
        within(min, range),
        within(max, range),
{
}

/// A range with both bounds selects exactly the documents that its lower half and its upper half
/// both select.
pub proof fn law_a_range_is_both_of_its_halves(
    doc: FlightDocument,
    range: FilterCondition,
    lower: FilterCondition,
    upper: FilterCondition,
    min: Option<Double>,
    max: Option<Double>,
)
    requires
        range.test == Some(Test::Range(NumericRange { min, max })),
        lower.test == Some(Test::Range(NumericRange { min, max: None })),
        upper.test == Some(Test::Range(NumericRange { min: None, max })),
        lower.field@ == range.field@,
        upper.field@ == range.field@,
    ensures
        meets(doc, seq![range]) <==> meets(doc, seq![lower]) && meets(doc, seq![upper]),
{
    assert(seq![range][0] == range);
    assert(seq![lower][0] == lower);
    assert(seq![upper][0] == upper);
    if meets(doc, seq![range]) {
        assert(holds(doc, seq![range][0]));
    }
    if meets(doc, seq![lower]) && meets(doc, seq![upper]) {
        assert(holds(doc, seq![lower][0]) && holds(doc, seq![upper][0]));
    }
}

proof fn lemma_numeric_names()
    ensures
        "altitude"@ != "velocity"@ && "altitude"@ != "latitude"@ && "velocity"@ != "latitude"@,
        "altitude"@.len() == 8 && "velocity"@.len() == 8 && "latitude"@.len() == 8,
        "heading"@.len() == 7,
        "vertical_rate"@.len() == 13,
        "longitude"@.len() == 9,
        "observed_at"@.len() == 11,
{
    reveal_strlit("altitude");
    reveal_strlit("velocity");
    reveal_strlit("heading");
    reveal_strlit("vertical_rate");
    reveal_strlit("latitude");
    reveal_strlit("longitude");
    reveal_strlit("observed_at");
    assert("altitude"@[0] == 'a' && "velocity"@[0] == 'v' && "latitude"@[0] == 'l');
}

/// A range condition tests the number that its field names: a document whose number lies below
/// the minimum or above the maximum does not pass, whichever of the two are given, and one whose
/// number lies between them, bounds included, does.
pub proof fn law_a_range_tests_the_named_number(
    doc: FlightDocument,
    condition: FilterCondition,
    min: Option<Double>,
    max: Option<Double>,
)
    requires
        condition.test == Some(Test::Range(NumericRange { min, max })),
    ensures
        ({
            let inside = |number: Double|
                (min is Some ==> min->0.spec_at_most(number)) && (max is Some
                    ==> number.spec_at_most(max->0));
            let passes = meets(doc, seq![condition]);
            let observed = Double { bits: integer_bits(doc.observed_at as int) as u64 };
            &&& condition.field@ == "altitude"@ ==> (passes <==> inside(doc.altitude))
            &&& condition.field@ == "velocity"@ ==> (passes <==> inside(doc.velocity))
            &&& condition.field@ == "heading"@ ==> (passes <==> inside(doc.heading))
            &&& condition.field@ == "vertical_rate"@ ==> (passes <==> inside(doc.vertical_rate))
            &&& condition.field@ == "latitude"@ ==> (passes <==> inside(doc.latitude))
            &&& condition.field@ == "longitude"@ ==> (passes <==> inside(doc.longitude))
            &&& condition.field@ == "observed_at"@ ==> (passes <==> inside(observed))
        }),
{
    lemma_numeric_names();
    assert(seq![condition][0] == condition);
    if meets(doc, seq![condition]) {
        assert(holds(doc, seq![condition][0]));
    }
}

/// A range on the time of observation compares milliseconds: a document passes exactly where it
/// was observed at or after the minimum and at or before the maximum.
pub proof fn law_a_range_on_time_compares_milliseconds(
    doc: FlightDocument,
    condition: FilterCondition,
    from: int,
    to: int,
)
    requires
        condition.field@ == "observed_at"@,
        condition.test == Some(
            Test::Range(
                NumericRange {
                    min: Some(Double { bits: integer_bits(from) as u64 }),
                    max: Some(Double { bits: integer_bits(to) as u64 }),
                },
            ),
        ),
        -0x20_0000_0000_0000 < from < 0x20_0000_0000_0000,
        -0x20_0000_0000_0000 < to < 0x20_0000_0000_0000,
        -0x20_0000_0000_0000 < doc.observed_at < 0x20_0000_0000_0000,
    ensures
        meets(doc, seq![condition]) <==> from <= doc.observed_at <= to,
{
    vstd::arithmetic::power2::lemma2_to64();
    vstd::arithmetic::power2::lemma2_to64_rest();
    let min = Some(Double { bits: integer_bits(from) as u64 });
    let max = Some(Double { bits: integer_bits(to) as u64 });
    law_a_range_tests_the_named_number(doc, condition, min, max);
    crate::double::law_integers_keep_their_order(from, doc.observed_at as int);
    crate::double::law_integers_keep_their_order(doc.observed_at as int, to);
}

proof fn lemma_text_names()
    ensures
        "origin"@ != "icao24"@,
        "origin"@.len() == 6 && "icao24"@.len() == 6,
        "callsign"@.len() == 8,
        "destination"@.len() == 11,
        "aircraft_type"@.len() == 13,
        "tenant_id"@.len() == 9,
{
    reveal_strlit("callsign");
    reveal_strlit("origin");
    reveal_strlit("destination");
    reveal_strlit("aircraft_type");
    reveal_strlit("tenant_id");
    reveal_strlit("icao24");
    assert("origin"@[0] == 'o' && "icao24"@[0] == 'i');
}

/// An equality condition compares the text that its field names, whatever the case of the
/// letters; an `is` condition compares the ground flag; a condition without a test selects
/// nothing.
pub proof fn law_a_test_compares_the_named_field(doc: FlightDocument, condition: FilterCondition)
    ensures
        condition.test matches Some(Test::Equals(want)) ==> {
            let passes = meets(doc, seq![condition]);
            let same = |text: Seq<char>| lowercase(text) == lowercase(want@);
            &&& condition.field@ == "callsign"@ ==> (passes <==> same(doc.callsign@))
            &&& condition.field@ == "origin"@ ==> (passes <==> same(doc.origin@))
            &&& condition.field@ == "destination"@ ==> (passes <==> same(doc.destination@))
            &&& condition.field@ == "aircraft_type"@ ==> (passes <==> same(doc.aircraft_type@))
            &&& condition.field@ == "tenant_id"@ ==> (passes <==> same(doc.tenant_id@))
            &&& condition.field@ == "icao24"@ ==> (passes <==> same(doc.icao24@))
        },
        condition.test matches Some(Test::Is(want)) ==> (meets(doc, seq![condition])
            <==> doc.on_ground == want),
        condition.test is None ==> !meets(doc, seq![condition]),
{
    lemma_text_names();
    assert(seq![condition][0] == condition);
    if meets(doc, seq![condition]) {
        assert(holds(doc, seq![condition][0]));
    }
}

/// A filter is well shaped exactly where each condition tests a field of its own type, with a
/// range that is not inside out.
pub proof fn law_a_condition_suits_its_field(filter: Filter, condition: FilterCondition)
    requires
        filter.conditions@ == seq![condition],
    ensures
        condition.test matches Some(Test::Equals(_)) ==> (well_shaped(filter) <==> condition.field@
            == "callsign"@ || condition.field@ == "origin"@ || condition.field@ == "destination"@
            || condition.field@ == "aircraft_type"@ || condition.field@ == "tenant_id"@
            || condition.field@ == "icao24"@),
        condition.test matches Some(Test::Is(_)) ==> (well_shaped(filter) <==> condition.field@
            == "on_ground"@),
        condition.test matches Some(Test::Range(range)) ==> (well_shaped(filter) <==> (
        condition.field@ == "altitude"@ || condition.field@ == "velocity"@ || condition.field@
            == "heading"@ || condition.field@ == "vertical_rate"@ || condition.field@
            == "latitude"@ || condition.field@ == "longitude"@ || condition.field@
            == "observed_at"@) && !(range.min is Some && range.max is Some
            && range.max->0.spec_less(range.min->0))),
        condition.test is None ==> !well_shaped(filter),
{
    assert(filter.conditions@[0] == condition);
    if well_shaped(filter) {
        assert(fault_of(filter.conditions@[0]) is None);
    }
}

/// A range that is inside out selects nothing, so that refusing it loses no document.
pub proof fn law_an_empty_range_selects_nothing(
    doc: FlightDocument,
    condition: FilterCondition,
    range: NumericRange,
)
    requires
        condition.test == Some(Test::Range(range)),
        range_fault(range) is Some,
    ensures
        !meets(doc, seq![condition]),
{
    assert(seq![condition][0] == condition);
    if meets(doc, seq![condition]) {
        assert(holds(doc, seq![condition][0]));
    }
}

/// A fault says what is wrong: which type of field the test would need, which bounds are inside
/// out, or that there is no test.
pub proof fn law_faults_say_what_is_wrong(condition: FilterCondition, min: Double, max: Double)
    ensures
        fault_of(condition) == Some(Fault::NoTest) <==> condition.test is None,
        fault_of(condition) == Some(Fault::NotText) ==> (condition.test matches Some(
            Test::Equals(_),
        )),
        fault_of(condition) == Some(Fault::NotBoolean) ==> (condition.test matches Some(
            Test::Is(_),
        )),
        fault_of(condition) == Some(Fault::NotNumeric) ==> (condition.test matches Some(
            Test::Range(_),
        )),
        fault_of(condition) == Some(Fault::EmptyRange { min, max }) ==> condition.test == Some(
            Test::Range(NumericRange { min: Some(min), max: Some(max) }),
        ) && max.spec_less(min),
{
}

/// A refused filter is told by its first faulty condition: that field, and what is wrong there.
pub proof fn law_the_first_fault_is_told(error: FilterError, filter: Filter)
    requires
        names_first_fault(error, filter),
    ensures
        !well_shaped(filter),
        exists|i: int|
            0 <= i < filter.conditions@.len() && (#[trigger] filter.conditions@[i]).field@
                == error.field@ && fault_of(filter.conditions@[i]) == Some(error.fault)
                && forall|j: int|
                0 <= j < i ==> fault_of(#[trigger] filter.conditions@[j]) is None,
{
}

} // verus!
