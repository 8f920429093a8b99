use vstd::prelude::*;

use crate::decimal::{heat_units, pow10, Decimal, BASELINE};
use crate::number_text::{parse_decimal, spells, spells_no_reading};

verus! {

#[verifier::external_type_specification]
#[verifier::external_body]
pub struct ExValue(serde_json::Value);

/// Relies on serde_json::Value::is_null: whether the value is JSON `null`.
pub assume_specification[ serde_json::Value::is_null ](v: &serde_json::Value) -> (r: bool);

/// Relies on serde_json::Value::is_object: whether the value is a JSON object.
pub assume_specification[ serde_json::Value::is_object ](v: &serde_json::Value) -> (r: bool);

/// Relies on serde_json::Value::get with a string key: the member of an object
/// under that key, `None` where there is none or the value is no object.
#[verifier::external_body]
fn member<'a>(v: &'a serde_json::Value, key: &str) -> (r: Option<&'a serde_json::Value>) {
    v.get(key)
}

/// Relies on serde_json::Value::get with an index: the element of an array at
/// that position, `None` where there is none or the value is no array.
#[verifier::external_body]
fn element(v: &serde_json::Value, index: usize) -> (r: Option<&serde_json::Value>) {
    v.get(index)
}

/// Relies on the `Display` impl of serde_json::Number: the decimal text of a
/// JSON number, `None` where the value is no number.
#[verifier::external_body]
fn number_text(v: &serde_json::Value) -> (r: Option<String>) {
    match v {
        serde_json::Value::Number(n) => Some(n.to_string()),
        _ => None,
    }
}

/// The three measurements read from a day's record.
#[derive(Clone, Copy, Debug, PartialEq, Eq, Structural)]
pub enum Field {
    TemperatureMax,
    TemperatureMin,
    PrecipitationIntensityMax,
}

impl Field {
    /// The member name under which the upstream record holds the field.
    pub fn key(self) -> (r: &'static str)
        ensures
            self == Field::TemperatureMax ==> r@ == "temperatureMax"@,
            self == Field::TemperatureMin ==> r@ == "temperatureMin"@,
            self == Field::PrecipitationIntensityMax ==> r@ == "precipitationIntensityMax"@,
    {
        match self {
            Field::TemperatureMax => "temperatureMax",
            Field::TemperatureMin => "temperatureMin",
            Field::PrecipitationIntensityMax => "precipitationIntensityMax",
        }
    }
}

/// Why a field could not be read, so that zero stands in its place.
#[derive(Clone, Copy, Debug, PartialEq, Eq, Structural)]
pub enum FieldProblem {
    /// The record has no such member.
    Absent,
    /// The member is not a number.
    NotNumeric,
    /// The number needs more digits than a reading holds.
    OutOfRange,
}

/// What the record holds under a field's name.
#[derive(Clone, Debug, PartialEq, Eq)]
pub enum FieldText {
    Absent,
    NotNumeric,
    /// A number, in the decimal text that JSON prints it with.
    Number(String),
}

/// A field that could not be read, and why.
#[derive(Clone, Copy, Debug, PartialEq, Eq, Structural)]
pub struct FieldWarning {
    pub field: Field,
    pub problem: FieldProblem,
}

/// A field's value, or zero together with the reason it stands in.
#[derive(Clone, Copy, Debug, PartialEq, Eq, Structural)]
pub struct Reading {
    pub value: Decimal,
    pub problem: Option<FieldProblem>,
}

impl Reading {
    pub open spec fn wf(self) -> bool {
        &&& self.value.is_reading()
        &&& self.problem is Some ==> self.value == Decimal { coefficient: 0, scale: 1 }
    }
}

/// What a record's field is read as: the reading its number spells, or zero
/// with the problem where it is absent, not a number, or spells no reading.
pub open spec fn reads_as(found: FieldText, r: Reading) -> bool {
    &&& r.wf()
    &&& match found {
        FieldText::Absent => r.problem == Some(FieldProblem::Absent),
        FieldText::NotNumeric => r.problem == Some(FieldProblem::NotNumeric),
        FieldText::Number(t) => match r.problem {
            None => spells(t@, r.value),
            Some(p) => p == FieldProblem::OutOfRange && spells_no_reading(t@),
        },
    }
}

/// Applies the policy for a field: a number is used as it stands, anything
/// else is replaced by zero and reported. Readings are exact decimals of at
/// most eighteen significant and eighteen fraction digits; a number beyond
/// that, such as `1e300` or `1e-19`, is replaced by zero and reported as
/// `OutOfRange`, never rounded.
pub fn reading_from(found: &FieldText) -> (r: Reading)
    ensures
        reads_as(*found, r),
{
    match found {
        FieldText::Absent => Reading { value: Decimal::zero(), problem: Some(FieldProblem::Absent) },
        FieldText::NotNumeric => Reading {
            value: Decimal::zero(),
            problem: Some(FieldProblem::NotNumeric),
        },
        FieldText::Number(t) => match parse_decimal(t.as_str()) {
            Some(d) => Reading { value: d, problem: None },
            None => Reading { value: Decimal::zero(), problem: Some(FieldProblem::OutOfRange) },
        },
    }
}

/// Looks a field up in a day's record.
fn field_text(day: &serde_json::Value, field: Field) -> (r: FieldText) {
    match member(day, field.key()) {
        None => FieldText::Absent,
        Some(v) => match number_text(v) {
            Some(t) => FieldText::Number(t),
            None => FieldText::NotNumeric,
        },
    }
}

/// The record that is persisted for one day.
#[derive(Clone, Copy, Debug, PartialEq, Eq, Structural)]
pub struct HeatUnitRecord {
    pub date: crate::date::CalendarDate,
    pub temp_min: Decimal,
    pub temp_max: Decimal,
    pub heat_units: Decimal,
    pub rainfall: Decimal,
}

/// A record together with the fields that had to be replaced by zero.
#[derive(Clone, Debug, PartialEq, Eq)]
pub struct Observation {
    pub record: HeatUnitRecord,
    pub warnings: Vec<FieldWarning>,
}

/// The warnings for three readings, in the order max, min, precipitation.
pub open spec fn warnings_for(max: Reading, min: Reading, rain: Reading) -> Seq<FieldWarning> {
    (if let Some(p) = max.problem {
        seq![FieldWarning { field: Field::TemperatureMax, problem: p }]
    } else {
        Seq::empty()
    }) + (if let Some(p) = min.problem {
        seq![FieldWarning { field: Field::TemperatureMin, problem: p }]
    } else {
        Seq::empty()
    }) + (if let Some(p) = rain.problem {
        seq![FieldWarning { field: Field::PrecipitationIntensityMax, problem: p }]
    } else {
        Seq::empty()
    })
}

/// The observation built from three readings: the temperatures and rainfall
/// as read, the heat units derived from the temperatures, and one warning per
/// field that was replaced.
pub open spec fn observation_of(
    date: crate::date::CalendarDate,
    max: Reading,
    min: Reading,
    rain: Reading,
    o: Observation,
) -> bool {
    &&& o.record.date == date
    &&& o.record.temp_max == max.value
    &&& o.record.temp_min == min.value
    &&& o.record.rainfall == rain.value
    &&& 2 * o.record.heat_units.at_scale(o.record.heat_units.scale as nat) == max.value.at_scale(
        o.record.heat_units.scale as nat,
    ) + min.value.at_scale(o.record.heat_units.scale as nat) - 2 * BASELINE * pow10(
        o.record.heat_units.scale as nat,
    )
    &&& o.record.heat_units.scale == 1 + if max.value.scale >= min.value.scale {
        max.value.scale
    } else {
        min.value.scale
    }
    &&& o.warnings@ == warnings_for(max, min, rain)
}

/// Builds the observation of a day from its three readings.
pub fn observe(date: crate::date::CalendarDate, max: Reading, min: Reading, rain: Reading) -> (r:
    Observation)
    requires
        max.wf(),
        min.wf(),
        rain.wf(),
    ensures
        observation_of(date, max, min, rain, r),
{
    let mut warnings: Vec<FieldWarning> = Vec::new();
    if let Some(p) = max.problem {
        warnings.push(FieldWarning { field: Field::TemperatureMax, problem: p });
    }
    if let Some(p) = min.problem {
        warnings.push(FieldWarning { field: Field::TemperatureMin, problem: p });
    }
    if let Some(p) = rain.problem {
        warnings.push(FieldWarning { field: Field::PrecipitationIntensityMax, problem: p });
    }
    assert(warnings@ =~= warnings_for(max, min, rain));
    let h = heat_units(max.value, min.value);
    let record = HeatUnitRecord {
        date,
        temp_min: min.value,
        temp_max: max.value,
        heat_units: h,
        rainfall: rain.value,
    };
    Observation { record, warnings }
}

/// Where both temperatures are numbers that spell readings, the stored
/// temperatures are those numbers and the heat units are exactly their mean
/// less the baseline.
pub proof fn lemma_numeric_temperatures(
    date: crate::date::CalendarDate,
    t_max: String,
    t_min: String,
    max: Reading,
    min: Reading,
    rain: Reading,
    o: Observation,
)
    requires
        reads_as(FieldText::Number(t_max), max),
        reads_as(FieldText::Number(t_min), min),
        !spells_no_reading(t_max@),
        !spells_no_reading(t_min@),
        observation_of(date, max, min, rain, o),
    ensures
        spells(t_max@, o.record.temp_max),
        spells(t_min@, o.record.temp_min),
        2 * o.record.heat_units.at_scale(o.record.heat_units.scale as nat)
            == o.record.temp_max.at_scale(o.record.heat_units.scale as nat)
            + o.record.temp_min.at_scale(o.record.heat_units.scale as nat) - 2 * BASELINE * pow10(
            o.record.heat_units.scale as nat,
        ),
{
}

/// A record without precipitation is stored with zero rainfall, and the
/// observation reports the missing field.
pub proof fn lemma_missing_precipitation(
    date: crate::date::CalendarDate,
    max: Reading,
    min: Reading,
    rain: Reading,
    o: Observation,
)
    requires
        reads_as(FieldText::Absent, rain),
        observation_of(date, max, min, rain, o),
    ensures
        o.record.rainfall == (Decimal { coefficient: 0, scale: 1 }),
        o.warnings@.len() >= 1,
        o.warnings@.last() == (FieldWarning {
            field: Field::PrecipitationIntensityMax,
            problem: FieldProblem::Absent,
        }),
{
}

/// What a day's record holds under the three field names.
#[derive(Clone, Debug, PartialEq, Eq)]
pub struct DayFields {
    pub temperature_max: FieldText,
    pub temperature_min: FieldText,
    pub precipitation_intensity_max: FieldText,
}

/// What a time-machine answer holds where the day's record belongs, the
/// first entry of `daily.data`.
#[derive(Clone, Debug, PartialEq, Eq)]
pub enum DayLookup {
    /// There is no `daily`, no `data` in it, or no first entry.
    Missing,
    /// The entry is `null`.
    Null,
    /// The entry is neither `null` nor an object.
    NotObject,
    /// The entry is an object, with what it holds under the field names.
    Record(DayFields),
}

/// `o` is the observation of `date` for the readings that the field policy
/// makes of the record's three fields.
pub open spec fn observes_fields(fields: DayFields, date: crate::date::CalendarDate, o: Observation) -> bool {
    exists|max: Reading, min: Reading, rain: Reading|
        #[trigger] observation_of(date, max, min, rain, o) && reads_as(fields.temperature_max, max)
            && reads_as(fields.temperature_min, min) && reads_as(
            fields.precipitation_intensity_max,
            rain,
        )
}

/// Reads the three fields of a day's record and derives its observation.
pub fn observe_fields(fields: &DayFields, date: crate::date::CalendarDate) -> (r: Observation)
    ensures
        observes_fields(*fields, date, r),
{
    let max = reading_from(&fields.temperature_max);
    let min = reading_from(&fields.temperature_min);
    let rain = reading_from(&fields.precipitation_intensity_max);
    observe(date, max, min, rain)
}

/// The outcome of a run's fetch for a looked-up entry: the observation of a
/// record, or, for anything else, an upstream error with the URL asked.
pub open spec fn lookup_outcome(
    lookup: DayLookup,
    url: String,
    date: crate::date::CalendarDate,
    r: Result<Observation, PipelineError>,
) -> bool {
    match lookup {
        DayLookup::Record(fields) => r is Ok && observes_fields(fields, date, r->Ok_0),
        _ => r == Err::<Observation, PipelineError>(PipelineError::UpstreamData(url)),
    }
}

/// The observation of a looked-up day's entry; an entry that is missing,
/// `null` or not an object fails the run with the URL that was asked.
pub fn observe_lookup(lookup: &DayLookup, url: String, date: crate::date::CalendarDate) -> (r:
    Result<Observation, PipelineError>)
    ensures
        lookup_outcome(*lookup, url, date, r),
        r is Err <==> !(lookup is Record),
{
    match lookup {
        DayLookup::Record(fields) => Ok(observe_fields(fields, date)),
        _ => Err(PipelineError::UpstreamData(url)),
    }
}

/// What a day's record holds under the three field names.
pub fn day_fields(day: &serde_json::Value) -> (r: DayFields) {
    DayFields {
        temperature_max: field_text(day, Field::TemperatureMax),
        temperature_min: field_text(day, Field::TemperatureMin),
        precipitation_intensity_max: field_text(day, Field::PrecipitationIntensityMax),
    }
}

/// Why a run stopped.
#[derive(Clone, Debug, PartialEq, Eq)]
pub enum PipelineError {
    /// The request could not be sent or its answer not received.
    Transport(String),
    /// The answer came but held no record for the day; the request's URL.
    UpstreamData(String),
    /// The store refused the schema or the row.
    Persistence(String),
}

/// Looks up the day's record in a time-machine answer: the first entry of
/// `daily.data`.
pub fn day_lookup(response: &serde_json::Value) -> (r: DayLookup) {
    let day = match member(response, "daily") {
        Some(daily) => match member(daily, "data") {
            Some(data) => element(data, 0),
            None => None,
        },
        None => None,
    };
    match day {
        None => DayLookup::Missing,
        Some(v) => {
            if v.is_null() {
                DayLookup::Null
            } else if v.is_object() {
                DayLookup::Record(day_fields(v))
            } else {
                DayLookup::NotObject
            }
        },
    }
}

/// The observation of the day that a time-machine answer describes, keyed by
/// `date`: the outcome for what the answer holds where the record belongs.
pub fn observe_day(response: &serde_json::Value, url: String, date: crate::date::CalendarDate) -> (r:
    Result<Observation, PipelineError>)
    ensures
        exists|lookup: DayLookup| #[trigger] lookup_outcome(lookup, url, date, r),
{
    let lookup = day_lookup(response);
    let r = observe_lookup(&lookup, url, date);
    assert(lookup_outcome(lookup, url, date, r));
    r
}

} // verus!
