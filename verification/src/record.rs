//! The records of the store: a task with its identity, the time it was made
//! and whether it is done.

use vstd::prelude::*;
use crate::identity::{sha256_hex, TodoID};

verus! {

/// A moment in time: the nanoseconds from the start of 1970, in UTC, to it.
#[derive(Debug, PartialEq, Eq, PartialOrd, Ord, Clone, Copy, Structural)]
pub struct TodoTime(pub i64);

/// `chrono::Utc::now`, then `DateTime::timestamp_nanos_opt` on its result:
/// the nanoseconds from the start of 1970 to the moment of the call, or
/// `None` where 64 bits cannot hold them. The result depends on the clock of
/// the machine, so nothing is said of it; the call does not return where that
/// clock stands before 1970.
#[verifier::external_body]
fn utc_now_nanos() -> (nanos: Option<i64>) {
    chrono::Utc::now().timestamp_nanos_opt()
}

impl TodoTime {
    /// The moment of the call. A moment too late to be counted in 64 bits is
    /// taken for the last one that can be.
    pub fn now() -> (time: TodoTime) {
        TodoTime::from_clock(utc_now_nanos())
    }

    /// The moment that an answer of the clock stands for: the one that lies
    /// that many nanoseconds after the start of 1970, or the last moment
    /// that 64 bits can hold where the clock gave no number.
    pub open spec fn of_clock(answer: Option<i64>) -> TodoTime {
        match answer {
            Some(nanos) => TodoTime(nanos),
            None => TodoTime(i64::MAX),
        }
    }

    /// The moment that `answer`, an answer of the clock, stands for.
    pub fn from_clock(answer: Option<i64>) -> (time: TodoTime)
        ensures
            time == TodoTime::of_clock(answer),
    {
        match answer {
            Some(nanos) => TodoTime(nanos),
            None => TodoTime(i64::MAX),
        }
    }

    /// This moment as a date and a time of day in the time zone of the
    /// machine: month, day and year between slashes, then hour and minute.
    /// The result depends on that time zone, so nothing is said of it.
    pub fn to_local_date_string(&self) -> (date: String) {
        local_date_string(self.0, DATE_FORMAT)
    }
}

/// How a moment is written for the user: month, day and year between
/// slashes, then hour and minute.
pub const DATE_FORMAT: &'static str = "%m/%d/%Y %H:%M";

/// `chrono::DateTime::from_timestamp_nanos`, `TimeZone::from_utc_datetime`
/// on `chrono::Local` and `DateTime::format`: the moment `nanos` in the time
/// zone of the machine, written as `format` says. The result depends on that
/// time zone, so nothing is said of it. `chrono` does not return the text of
/// a format it does not know, so only the one format of the library is let
/// in.
#[verifier::external_body]
fn local_date_string(nanos: i64, format: &str) -> (date: String)
    requires
        format@ == DATE_FORMAT@,
{
    let utc = chrono::DateTime::from_timestamp_nanos(nanos).naive_utc();
    let local = chrono::TimeZone::from_utc_datetime(&chrono::Local, &utc);
    local.format(format).to_string()
}

impl Default for TodoTime {
    fn default() -> (time: TodoTime) {
        TodoTime::now()
    }
}

/// A task of the store.
#[derive(Debug, PartialEq, Eq)]
pub struct Todo {
    pub id: TodoID,
    pub message: String,
    pub created_at: TodoTime,
    pub done: bool,
}

/// A [`Todo`] with its identity and its message as sequences of characters.
pub ghost struct TodoView {
    pub id: Seq<char>,
    pub message: Seq<char>,
    pub created_at: TodoTime,
    pub done: bool,
}

impl View for Todo {
    type V = TodoView;

    open spec fn view(&self) -> TodoView {
        TodoView {
            id: self.id@,
            message: self.message@,
            created_at: self.created_at,
            done: self.done,
        }
    }
}

impl DeepView for Todo {
    type V = TodoView;

    open spec fn deep_view(&self) -> TodoView {
        self@
    }
}

impl TodoView {
    /// Whether the identity of the record is the digest of its message.
    pub open spec fn is_identified(self) -> bool {
        self.id == sha256_hex(self.message)
    }

    /// The record of a task that was just made: identified by its message,
    /// and not done.
    pub open spec fn fresh(message: Seq<char>, created_at: TodoTime) -> TodoView {
        TodoView { id: sha256_hex(message), message, created_at, done: false }
    }
}

impl Todo {
    /// A new task with this message, made now.
    pub fn new(message: String) -> (todo: Todo)
        ensures
            todo@ == TodoView::fresh(message@, todo.created_at),
    {
        Todo::created_at(message, TodoTime::default())
    }

    /// A new task with this message, made at `created_at`.
    pub fn created_at(message: String, created_at: TodoTime) -> (todo: Todo)
        ensures
            todo@ == TodoView::fresh(message@, created_at),
    {
        Self { id: TodoID::hash_message(message.as_str()), message, created_at, done: false }
    }
}

impl Clone for Todo {
    fn clone(&self) -> (todo: Todo)
        ensures
            todo@ == self@,
    {
        Todo {
            id: self.id.clone(),
            message: self.message.clone(),
            created_at: self.created_at,
            done: self.done,
        }
    }
}

} // verus!
