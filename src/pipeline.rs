use vstd::prelude::*;

use crate::observation::{HeatUnitRecord, PipelineError};

verus! {

/// Creates the table of heat units where it is missing; a second run of it
/// changes nothing. The date is the primary key, so a day is stored once.
pub const CREATE_TABLE_SQL: &'static str =
    "create table if not exists heatunits (temp_min real, temp_max real, date text, heat_units real, rainfall real, primary key (date))";

/// Inserts one day; the parameters are temp_min, temp_max, date, heat_units
/// and rainfall. A date that is already stored makes it fail.
pub const INSERT_SQL: &'static str =
    "insert into heatunits (temp_min, temp_max, date, heat_units, rainfall) values (?1, ?2, ?3, ?4, ?5)";

/// Where a run stands.
#[derive(Debug, PartialEq, Eq)]
pub enum Stage {
    /// Waiting for the day's record from the provider.
    AwaitingDay,
    /// The record is known; the schema is being ensured.
    AwaitingSchema(HeatUnitRecord),
    /// The schema stands; the record is being inserted.
    AwaitingInsert(HeatUnitRecord),
    /// The row was stored.
    Done,
    /// The run stopped on an error.
    Failed,
}

/// What the outside work reports back.
#[derive(Debug, PartialEq, Eq)]
pub enum Event {
    /// The fetch ended, with the day's record or an error.
    Day(Result<HeatUnitRecord, PipelineError>),
    SchemaReady,
    SchemaFailed(String),
    Inserted,
    InsertFailed(String),
}

/// What the run asks to be done next.
#[derive(Debug, PartialEq, Eq)]
pub enum Action {
    EnsureSchema,
    Insert(HeatUnitRecord),
    Finish,
    Abort(PipelineError),
}

impl Stage {
    pub open spec fn is_terminal(self) -> bool {
        self is Done || self is Failed
    }
}

/// The next stage and the action to take, for a stage and an event. An event
/// that the stage does not wait for changes nothing and asks for nothing.
pub open spec fn step_spec(stage: Stage, event: Event) -> (Stage, Option<Action>) {
    match (stage, event) {
        (Stage::AwaitingDay, Event::Day(Ok(record))) => (
            Stage::AwaitingSchema(record),
            Some(Action::EnsureSchema),
        ),
        (Stage::AwaitingDay, Event::Day(Err(e))) => (Stage::Failed, Some(Action::Abort(e))),
        (Stage::AwaitingSchema(record), Event::SchemaReady) => (
            Stage::AwaitingInsert(record),
            Some(Action::Insert(record)),
        ),
        (Stage::AwaitingSchema(_), Event::SchemaFailed(m)) => (
            Stage::Failed,
            Some(Action::Abort(PipelineError::Persistence(m))),
        ),
        (Stage::AwaitingInsert(_), Event::Inserted) => (Stage::Done, Some(Action::Finish)),
        (Stage::AwaitingInsert(_), Event::InsertFailed(m)) => (
            Stage::Failed,
            Some(Action::Abort(PipelineError::Persistence(m))),
        ),
        (s, _) => (s, None),
    }
}

/// Advances a run by one event.
pub fn step(stage: Stage, event: Event) -> (r: (Stage, Option<Action>))
    ensures
        r == step_spec(stage, event),
{
    match (stage, event) {
        (Stage::AwaitingDay, Event::Day(Ok(record))) => (
            Stage::AwaitingSchema(record),
            Some(Action::EnsureSchema),
        ),
        (Stage::AwaitingDay, Event::Day(Err(e))) => (Stage::Failed, Some(Action::Abort(e))),
        (Stage::AwaitingSchema(record), Event::SchemaReady) => (
            Stage::AwaitingInsert(record),
            Some(Action::Insert(record)),
        ),
        (Stage::AwaitingSchema(_), Event::SchemaFailed(m)) => (
            Stage::Failed,
            Some(Action::Abort(PipelineError::Persistence(m))),
        ),
        (Stage::AwaitingInsert(_), Event::Inserted) => (Stage::Done, Some(Action::Finish)),
        (Stage::AwaitingInsert(_), Event::InsertFailed(m)) => (
            Stage::Failed,
            Some(Action::Abort(PipelineError::Persistence(m))),
        ),
        (s, _) => (s, None),
    }
}

/// The actions a run asks for, from a stage, over a sequence of events.
pub open spec fn actions(stage: Stage, events: Seq<Event>) -> Seq<Action>
    decreases events.len(),
{
    if events.len() == 0 {
        Seq::empty()
    } else {
        let (next, a) = step_spec(stage, events[0]);
        (if let Some(x) = a {
            seq![x]
        } else {
            Seq::empty()
        }) + actions(next, events.drop_first())
    }
}

/// The number of inserts among actions.
pub open spec fn insert_count(acts: Seq<Action>) -> nat
    decreases acts.len(),
{
    if acts.len() == 0 {
        0
    } else {
        (if acts[0] is Insert {
            1nat
        } else {
            0nat
        }) + insert_count(acts.drop_first())
    }
}

proof fn lemma_insert_count_prepend(x: Option<Action>, rest: Seq<Action>)
    ensures
        insert_count(
            (if let Some(a) = x {
                seq![a]
            } else {
                Seq::empty()
            }) + rest,
        ) == (if x is Some && x->Some_0 is Insert {
            1nat
        } else {
            0nat
        }) + insert_count(rest),
{
    match x {
        Some(a) => {
            assert((seq![a] + rest).drop_first() =~= rest);
        },
        None => {
            assert(Seq::<Action>::empty() + rest =~= rest);
        },
    }
}

/// A finished run asks for nothing more, whatever is reported to it.
pub proof fn lemma_terminal_is_silent(stage: Stage, events: Seq<Event>)
    requires
        stage.is_terminal(),
    ensures
        actions(stage, events) == Seq::<Action>::empty(),
    decreases events.len(),
{
    if events.len() > 0 {
        lemma_terminal_is_silent(stage, events.drop_first());
        assert(Seq::<Action>::empty() + Seq::<Action>::empty() =~= Seq::<Action>::empty());
    }
}

/// How many inserts a run may still ask for from a stage.
pub open spec fn inserts_left(stage: Stage) -> nat {
    match stage {
        Stage::AwaitingDay => 1,
        Stage::AwaitingSchema(_) => 1,
        _ => 0,
    }
}

proof fn lemma_inserts_bounded(stage: Stage, events: Seq<Event>)
    ensures
        insert_count(actions(stage, events)) <= inserts_left(stage),
    decreases events.len(),
{
    if events.len() > 0 {
        let (next, a) = step_spec(stage, events[0]);
        lemma_inserts_bounded(next, events.drop_first());
        lemma_insert_count_prepend(a, actions(next, events.drop_first()));
    }
}

/// A run inserts at most one row, whatever the outside work reports.
pub proof fn lemma_at_most_one_insert(events: Seq<Event>)
    ensures
        insert_count(actions(Stage::AwaitingDay, events)) <= 1,
{
    lemma_inserts_bounded(Stage::AwaitingDay, events);
}

/// A fetch that brings no record ends the run at once: it aborts with that
/// error and asks for no schema and no insert, whatever comes after.
pub proof fn lemma_failed_fetch_writes_nothing(e: PipelineError, rest: Seq<Event>)
    ensures
        actions(Stage::AwaitingDay, seq![Event::Day(Err(e))] + rest) == seq![Action::Abort(e)],
{
    let events = seq![Event::Day(Err(e))] + rest;
    assert(events.drop_first() =~= rest);
    lemma_terminal_is_silent(Stage::Failed, rest);
    assert(seq![Action::Abort(e)] + Seq::<Action>::empty() =~= seq![Action::Abort(e)]);
}

/// On an empty store a run that fetches its record ensures the schema, then
/// inserts exactly that record, then finishes.
pub proof fn lemma_successful_run(record: HeatUnitRecord)
    ensures
        actions(
            Stage::AwaitingDay,
            seq![Event::Day(Ok(record)), Event::SchemaReady, Event::Inserted],
        ) == seq![Action::EnsureSchema, Action::Insert(record), Action::Finish],
{
    let events = seq![Event::Day(Ok(record)), Event::SchemaReady, Event::Inserted];
    assert(events.drop_first() =~= seq![Event::SchemaReady, Event::Inserted]);
    assert(events.drop_first().drop_first() =~= seq![Event::Inserted]);
    assert(events.drop_first().drop_first().drop_first() =~= Seq::<Event>::empty());
    assert(actions(Stage::Done, Seq::<Event>::empty()) == Seq::<Action>::empty());
    assert(actions(Stage::AwaitingInsert(record), seq![Event::Inserted]) =~= seq![Action::Finish]);
    assert(actions(Stage::AwaitingSchema(record), seq![Event::SchemaReady, Event::Inserted])
        =~= seq![Action::Insert(record), Action::Finish]);
    assert(actions(Stage::AwaitingDay, events) =~= seq![
        Action::EnsureSchema,
        Action::Insert(record),
        Action::Finish,
    ]);
}

/// An insert that the store refuses, a second row for a stored date among
/// them, ends the run with a persistence error; nothing is retried or
/// written over.
pub proof fn lemma_refused_insert_is_final(record: HeatUnitRecord, message: String, rest: Seq<Event>)
    ensures
        actions(Stage::AwaitingInsert(record), seq![Event::InsertFailed(message)] + rest) == seq![
            Action::Abort(PipelineError::Persistence(message)),
        ],
{
    let events = seq![Event::InsertFailed(message)] + rest;
    assert(events.drop_first() =~= rest);
    lemma_terminal_is_silent(Stage::Failed, rest);
    assert(seq![Action::Abort(PipelineError::Persistence(message))] + Seq::<Action>::empty()
        =~= seq![Action::Abort(PipelineError::Persistence(message))]);
}

} // verus!
