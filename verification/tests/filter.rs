use aether::double::Double;
use aether::filter::{passes, validate, Fault};
use aether::wire::{Filter, FilterCondition, FlightDocument, NumericRange, Test};

fn d(x: f64) -> Double {
    Double { bits: x.to_bits() }
}

fn doc() -> FlightDocument {
    FlightDocument {
        icao24: "abc123".into(),
        callsign: "UAL231".into(),
        origin: "France".into(),
        altitude: d(2500.0),
        observed_at: 1_000_000,
        on_ground: false,
        ..Default::default()
    }
}

fn equals(field: &str, v: &str) -> FilterCondition {
    FilterCondition { field: field.into(), test: Some(Test::Equals(v.into())) }
}

fn range(field: &str, min: Option<f64>, max: Option<f64>) -> FilterCondition {
    FilterCondition {
        field: field.into(),
        test: Some(Test::Range(NumericRange { min: min.map(d), max: max.map(d) })),
    }
}

fn filter(conds: Vec<FilterCondition>) -> Filter {
    Filter { conditions: conds }
}

#[test]
fn equals_is_case_insensitive_and_anded() {
    let f = filter(vec![equals("origin", "france"), equals("callsign", "ual231")]);
    assert!(validate(&f).is_ok());
    assert!(passes(&doc(), Some(&f)));
    let f = filter(vec![equals("origin", "france"), equals("callsign", "nope")]);
    assert!(!passes(&doc(), Some(&f)), "AND semantics: one failing condition fails all");
}

#[test]
fn ranges_are_inclusive_and_half_open() {
    assert!(passes(&doc(), Some(&filter(vec![range("altitude", Some(2500.0), None)]))));
    assert!(passes(&doc(), Some(&filter(vec![range("altitude", None, Some(2500.0))]))));
    assert!(!passes(&doc(), Some(&filter(vec![range("altitude", Some(3000.0), None)]))));
    // A time window is a range on observed_at.
    assert!(passes(&doc(), Some(&filter(vec![range("observed_at", Some(999_999.0), Some(1_000_001.0))]))));
}

#[test]
fn boolean_field_filters() {
    let f = filter(vec![FilterCondition { field: "on_ground".into(), test: Some(Test::Is(false)) }]);
    assert!(validate(&f).is_ok());
    assert!(passes(&doc(), Some(&f)));
}

#[test]
fn unknown_or_mismatched_fields_are_loud_errors() {
    assert!(validate(&filter(vec![equals("altitude", "high")])).is_err(), "range field with equals");
    assert!(validate(&filter(vec![range("origin", Some(0.0), None)])).is_err(), "text field with range");
    assert!(validate(&filter(vec![equals("no_such_field", "x")])).is_err(), "unknown field");
    assert!(validate(&filter(vec![range("altitude", Some(5.0), Some(1.0))])).is_err(), "min > max");
}

#[test]
fn empty_filter_passes_everything() {
    assert!(passes(&doc(), None));
    assert!(passes(&doc(), Some(&filter(vec![]))));
}

#[test]
fn every_fault_is_named_with_its_field() {
    let fault = |c: FilterCondition| validate(&filter(vec![equals("origin", "x"), c])).unwrap_err();
    let e = fault(equals("altitude", "high"));
    assert_eq!((e.field.as_str(), e.fault), ("altitude", Fault::NotText));
    assert_eq!(
        e.message("", ""),
        "'altitude' is not a text field (equals applies to: callsign, origin, destination, aircraft_type, tenant_id, icao24)"
    );
    let e = fault(range("origin", None, None));
    assert_eq!(e.fault, Fault::NotNumeric);
    assert_eq!(
        e.message("", ""),
        "'origin' is not a numeric field (range applies to: altitude, velocity, heading, vertical_rate, latitude, longitude, observed_at)"
    );
    let e = fault(range("altitude", Some(5.0), Some(1.0)));
    assert_eq!(e.fault, Fault::EmptyRange { min: d(5.0), max: d(1.0) });
    assert_eq!(e.message("5", "1"), "'altitude' range has min 5 > max 1");
    let e = fault(FilterCondition { field: "origin".into(), test: Some(Test::Is(true)) });
    assert_eq!(e.fault, Fault::NotBoolean);
    assert_eq!(e.message("", ""), "'origin' is not a boolean field (is applies to: on_ground)");
    let e = fault(FilterCondition { field: "origin".into(), test: None });
    assert_eq!(e.fault, Fault::NoTest);
    assert_eq!(e.message("", ""), "condition on 'origin' has no test");
}

#[test]
fn a_range_with_an_unordered_bound_is_accepted_and_passes_nothing() {
    let f = filter(vec![range("altitude", Some(f64::NAN), Some(1.0))]);
    assert!(validate(&f).is_ok());
    assert!(!passes(&doc(), Some(&f)));
    let f = filter(vec![range("altitude", Some(f64::NEG_INFINITY), Some(f64::INFINITY))]);
    assert!(passes(&doc(), Some(&f)));
    let f = filter(vec![range("velocity", Some(-0.0), Some(0.0))]);
    assert!(passes(&doc(), Some(&f)), "both zeros are equal");
}

#[test]
fn the_first_of_several_faults_is_reported() {
    let f = filter(vec![range("origin", None, None), equals("altitude", "x")]);
    assert_eq!(validate(&f).unwrap_err().field, "origin");
}

#[test]
fn equals_ignores_the_case_of_every_letter() {
    let doc = FlightDocument { origin: "CÔTE D'IVOIRE".into(), ..doc() };
    assert!(passes(&doc, Some(&filter(vec![equals("origin", "côte d'ivoire")]))));
    assert!(passes(&doc, Some(&filter(vec![equals("origin", "Côte d'Ivoire")]))));
    assert!(!passes(&doc, Some(&filter(vec![equals("origin", "cote d'ivoire")]))));
}
