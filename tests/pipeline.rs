use heat_units::date::CalendarDate;
use heat_units::decimal::Decimal;
use heat_units::observation::{HeatUnitRecord, PipelineError};
use heat_units::pipeline::{step, Action, Event, Stage, CREATE_TABLE_SQL, INSERT_SQL};

fn record(day: u32) -> HeatUnitRecord {
    HeatUnitRecord {
        date: CalendarDate::new(2023, 6, day).unwrap(),
        temp_min: Decimal { coefficient: 400, scale: 1 },
        temp_max: Decimal { coefficient: 800, scale: 1 },
        heat_units: Decimal { coefficient: 500, scale: 2 },
        rainfall: Decimal { coefficient: 12, scale: 2 },
    }
}

fn as_real(d: Decimal) -> f64 {
    format!("{}e-{}", d.coefficient, d.scale).parse::<f64>().unwrap()
}

fn insert(conn: &rusqlite::Connection, r: &HeatUnitRecord) -> rusqlite::Result<usize> {
    conn.execute(
        INSERT_SQL,
        (as_real(r.temp_min), as_real(r.temp_max), r.date.key(), as_real(r.heat_units), as_real(r.rainfall)),
    )
}

fn rows(conn: &rusqlite::Connection, key: &str) -> i64 {
    conn.query_row("select count(*) from heatunits where date = ?1", [key], |row| row.get(0)).unwrap()
}

#[test]
fn successful_run_orders_schema_then_insert() {
    let r = record(1);
    let (s, a) = step(Stage::AwaitingDay, Event::Day(Ok(r)));
    assert_eq!(a, Some(Action::EnsureSchema));
    let (s, a) = step(s, Event::SchemaReady);
    assert_eq!(a, Some(Action::Insert(r)));
    let (s, a) = step(s, Event::Inserted);
    assert_eq!(a, Some(Action::Finish));
    assert_eq!(s, Stage::Done);
    let (s, a) = step(s, Event::SchemaReady);
    assert_eq!(a, None);
    assert_eq!(s, Stage::Done);
}

#[test]
fn failed_fetch_aborts_before_any_write() {
    let e = PipelineError::UpstreamData("u".to_string());
    let (s, a) = step(Stage::AwaitingDay, Event::Day(Err(e.clone())));
    assert_eq!(a, Some(Action::Abort(e)));
    assert_eq!(s, Stage::Failed);
    let (s, a) = step(s, Event::SchemaReady);
    assert_eq!(a, None);
    let (_, a) = step(s, Event::Inserted);
    assert_eq!(a, None);
}

#[test]
fn refused_insert_is_a_persistence_error() {
    let (s, a) = step(Stage::AwaitingInsert(record(1)), Event::InsertFailed("UNIQUE".to_string()));
    assert_eq!(a, Some(Action::Abort(PipelineError::Persistence("UNIQUE".to_string()))));
    assert_eq!(s, Stage::Failed);
    let (s, a) = step(Stage::AwaitingSchema(record(1)), Event::SchemaFailed("locked".to_string()));
    assert_eq!(a, Some(Action::Abort(PipelineError::Persistence("locked".to_string()))));
    assert_eq!(s, Stage::Failed);
}

#[test]
fn empty_store_gets_table_and_one_row() {
    let conn = rusqlite::Connection::open_in_memory().unwrap();
    conn.execute(CREATE_TABLE_SQL, []).unwrap();
    conn.execute(CREATE_TABLE_SQL, []).unwrap();
    let r = record(1);
    assert_eq!(insert(&conn, &r).unwrap(), 1);
    assert_eq!(rows(&conn, "2023-06-01"), 1);
    let stored: (f64, f64, String, f64, f64) = conn
        .query_row("select temp_min, temp_max, date, heat_units, rainfall from heatunits", [], |row| {
            Ok((row.get(0)?, row.get(1)?, row.get(2)?, row.get(3)?, row.get(4)?))
        })
        .unwrap();
    assert_eq!(stored, (40.0, 80.0, "2023-06-01".to_string(), 5.0, 0.12));
}

#[test]
fn duplicate_date_is_refused_and_kept_once() {
    let conn = rusqlite::Connection::open_in_memory().unwrap();
    conn.execute(CREATE_TABLE_SQL, []).unwrap();
    insert(&conn, &record(1)).unwrap();
    let mut other = record(1);
    other.rainfall = Decimal { coefficient: 5, scale: 1 };
    assert!(insert(&conn, &other).is_err());
    assert_eq!(rows(&conn, "2023-06-01"), 1);
    let rain: f64 = conn.query_row("select rainfall from heatunits", [], |row| row.get(0)).unwrap();
    assert_eq!(rain, 0.12);
    insert(&conn, &record(2)).unwrap();
    assert_eq!(rows(&conn, "2023-06-02"), 1);
}
