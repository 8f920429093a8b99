use heat_units::date::CalendarDate;
use heat_units::decimal::{heat_units, Decimal};
use heat_units::number_text::parse_decimal;
use heat_units::observation::{
    day_fields, day_lookup, observe_day, observe_fields, observe_lookup, reading_from, DayFields,
    DayLookup, Field, FieldProblem, FieldText, FieldWarning, Observation, PipelineError,
};

fn observe_record(day: &serde_json::Value, date: CalendarDate) -> Observation {
    observe_fields(&day_fields(day), date)
}

fn value_of(d: Decimal) -> f64 {
    format!("{}e-{}", d.coefficient, d.scale).parse::<f64>().unwrap()
}

fn june_first() -> CalendarDate {
    CalendarDate::new(2023, 6, 1).unwrap()
}

fn doc(text: &str) -> serde_json::Value {
    serde_json::from_str(text).unwrap()
}

#[test]
fn full_record_yields_stored_row() {
    let day = doc(r#"{"temperatureMax": 80.0, "temperatureMin": 40.0, "precipitationIntensityMax": 0.12}"#);
    let o = observe_record(&day, june_first());
    assert_eq!(value_of(o.record.temp_min), 40.0);
    assert_eq!(value_of(o.record.temp_max), 80.0);
    assert_eq!(o.record.date.key(), "2023-06-01");
    assert_eq!(value_of(o.record.heat_units), 5.0);
    assert_eq!(value_of(o.record.rainfall), 0.12);
    assert!(o.warnings.is_empty());
}

#[test]
fn missing_precipitation_defaults_to_zero_with_warning() {
    let day = doc(r#"{"temperatureMax": 30.0, "temperatureMin": -10.0}"#);
    let o = observe_record(&day, june_first());
    assert_eq!(value_of(o.record.heat_units), -45.0);
    assert_eq!(value_of(o.record.rainfall), 0.0);
    assert_eq!(
        o.warnings,
        vec![FieldWarning { field: Field::PrecipitationIntensityMax, problem: FieldProblem::Absent }]
    );
}

#[test]
fn non_numeric_field_is_reported() {
    let day = doc(r#"{"temperatureMax": "hot", "temperatureMin": 50, "precipitationIntensityMax": null}"#);
    let o = observe_record(&day, june_first());
    assert_eq!(value_of(o.record.temp_max), 0.0);
    assert_eq!(value_of(o.record.temp_min), 50.0);
    assert_eq!(value_of(o.record.heat_units), -30.0);
    assert_eq!(
        o.warnings,
        vec![
            FieldWarning { field: Field::TemperatureMax, problem: FieldProblem::NotNumeric },
            FieldWarning { field: Field::PrecipitationIntensityMax, problem: FieldProblem::NotNumeric },
        ]
    );
}

#[test]
fn heat_units_is_exact_mean_less_baseline() {
    let a = Decimal { coefficient: 7525, scale: 2 };
    let b = Decimal { coefficient: 401, scale: 1 };
    let h = heat_units(a, b);
    assert_eq!(h, Decimal { coefficient: 2675, scale: 3 });
    assert_eq!(value_of(h), 2.675);
    let h2 = heat_units(Decimal { coefficient: 55, scale: 0 }, Decimal { coefficient: 56, scale: 0 });
    assert_eq!(value_of(h2), 0.5);
}

#[test]
fn parse_decimal_forms() {
    assert_eq!(parse_decimal("80.0"), Some(Decimal { coefficient: 800, scale: 1 }));
    assert_eq!(parse_decimal("-10"), Some(Decimal { coefficient: -10, scale: 0 }));
    assert_eq!(parse_decimal("0.12"), Some(Decimal { coefficient: 12, scale: 2 }));
    assert_eq!(parse_decimal("1.5e-7"), Some(Decimal { coefficient: 15, scale: 8 }));
    assert_eq!(parse_decimal("5e+02"), Some(Decimal { coefficient: 500, scale: 0 }));
    assert_eq!(parse_decimal("1E3"), Some(Decimal { coefficient: 1000, scale: 0 }));
    assert_eq!(parse_decimal("-0.5"), Some(Decimal { coefficient: -5, scale: 1 }));
    assert_eq!(parse_decimal("0e99999999999999999999999999999999999999999"), Some(Decimal { coefficient: 0, scale: 0 }));
    assert_eq!(parse_decimal("0.000000000000000001"), Some(Decimal { coefficient: 1, scale: 18 }));
    assert_eq!(parse_decimal("0.0000000000000000001"), None);
    assert_eq!(parse_decimal("999999999999999999"), Some(Decimal { coefficient: 999999999999999999, scale: 0 }));
    assert_eq!(parse_decimal("1e99999999999999999999999999999999999999999"), None);
    assert_eq!(parse_decimal(".5"), None);
    assert_eq!(parse_decimal("+5"), None);
    assert_eq!(parse_decimal(""), None);
    assert_eq!(parse_decimal("-"), None);
    assert_eq!(parse_decimal("1."), None);
    assert_eq!(parse_decimal("1e"), None);
    assert_eq!(parse_decimal("1.0x"), None);
    assert_eq!(parse_decimal("1e300"), None);
    assert_eq!(parse_decimal("12345678901234567890"), None);
}

#[test]
fn number_text_reaches_the_parser() {
    let day = doc(r#"{"temperatureMax": 1e-5, "temperatureMin": 1e300, "precipitationIntensityMax": 2}"#);
    let o = observe_record(&day, june_first());
    assert_eq!(value_of(o.record.temp_max), 0.00001);
    assert_eq!(value_of(o.record.temp_min), 0.0);
    assert_eq!(value_of(o.record.rainfall), 2.0);
    assert_eq!(
        o.warnings,
        vec![FieldWarning { field: Field::TemperatureMin, problem: FieldProblem::OutOfRange }]
    );
}

#[test]
fn reading_policy() {
    let r = reading_from(&FieldText::Absent);
    assert_eq!(r.problem, Some(FieldProblem::Absent));
    assert_eq!(value_of(r.value), 0.0);
    let r = reading_from(&FieldText::Number("72.5".to_string()));
    assert_eq!(r.problem, None);
    assert_eq!(r.value, Decimal { coefficient: 725, scale: 1 });
}

#[test]
fn null_day_record_is_an_upstream_error() {
    let response = doc(r#"{"daily": {"data": [null]}}"#);
    let r = observe_day(&response, "https://example.test/q".to_string(), june_first());
    assert_eq!(r, Err(PipelineError::UpstreamData("https://example.test/q".to_string())));
    assert_eq!(day_lookup(&response), DayLookup::Null);
    let response = doc(r#"{"daily": {"data": []}}"#);
    assert_eq!(day_lookup(&response), DayLookup::Missing);
    let response = doc(r#"{"hourly": {}}"#);
    assert_eq!(day_lookup(&response), DayLookup::Missing);
    assert_eq!(
        observe_day(&response, "u".to_string(), june_first()),
        Err(PipelineError::UpstreamData("u".to_string()))
    );
}

#[test]
fn non_object_day_record_is_an_upstream_error() {
    for body in [r#"{"daily": {"data": [42]}}"#, r#"{"daily": {"data": [[1, 2]]}}"#, r#"{"daily": {"data": ["x"]}}"#] {
        let response = doc(body);
        assert_eq!(day_lookup(&response), DayLookup::NotObject);
        assert_eq!(
            observe_day(&response, "https://example.test/q".to_string(), june_first()),
            Err(PipelineError::UpstreamData("https://example.test/q".to_string()))
        );
    }
}

#[test]
fn day_lookup_reads_the_record_fields() {
    let response = doc(r#"{"daily": {"data": [{"temperatureMax": 80.0, "temperatureMin": "cold"}, {"temperatureMax": 1}]}}"#);
    assert_eq!(
        day_lookup(&response),
        DayLookup::Record(DayFields {
            temperature_max: FieldText::Number("80.0".to_string()),
            temperature_min: FieldText::NotNumeric,
            precipitation_intensity_max: FieldText::Absent,
        })
    );
}

#[test]
fn observe_lookup_outcomes() {
    for lookup in [DayLookup::Missing, DayLookup::Null, DayLookup::NotObject] {
        assert_eq!(
            observe_lookup(&lookup, "u".to_string(), june_first()),
            Err(PipelineError::UpstreamData("u".to_string()))
        );
    }
    let fields = DayFields {
        temperature_max: FieldText::Number("30.0".to_string()),
        temperature_min: FieldText::Number("-10.0".to_string()),
        precipitation_intensity_max: FieldText::Absent,
    };
    let o = observe_lookup(&DayLookup::Record(fields), "u".to_string(), june_first()).unwrap();
    assert_eq!(value_of(o.record.heat_units), -45.0);
    assert_eq!(value_of(o.record.rainfall), 0.0);
    assert_eq!(o.warnings.len(), 1);
}

#[test]
fn day_record_is_first_daily_entry() {
    let response = doc(
        r#"{"daily": {"data": [{"temperatureMax": 80.0, "temperatureMin": 40.0, "precipitationIntensityMax": 0.12}]}}"#,
    );
    let o = observe_day(&response, "u".to_string(), june_first()).unwrap();
    assert_eq!(value_of(o.record.heat_units), 5.0);
    assert_eq!(value_of(o.record.rainfall), 0.12);
}

#[test]
fn calendar_dates() {
    assert!(CalendarDate::new(2024, 2, 29).is_some());
    assert!(CalendarDate::new(2023, 2, 29).is_none());
    assert!(CalendarDate::new(1900, 2, 29).is_none());
    assert!(CalendarDate::new(2000, 2, 29).is_some());
    assert!(CalendarDate::new(2023, 4, 31).is_none());
    assert!(CalendarDate::new(2023, 13, 1).is_none());
    assert!(CalendarDate::new(2023, 1, 0).is_none());
    assert_eq!(CalendarDate::new(987, 12, 9).unwrap().key(), "0987-12-09");
}

#[test]
fn day_before_steps_back_one_day() {
    assert_eq!(heat_units::date::day_before(1_685_664_000), Some(1_685_577_600));
    assert_eq!(heat_units::date::day_before(86_400), Some(0));
    assert_eq!(heat_units::date::day_before(86_399), None);
}
