//! The three persisted entities — timers, todos and marks — together with
//! their mathematical views, used by every contract of the store.

use crate::text;
use vstd::prelude::*;

verus! {

/// Signed minute offset from an arbitrary epoch, supplied by callers.
pub type EpochMinutes = i64;

/// A countdown timer.
#[derive(Debug, Clone, PartialEq, Eq)]
pub struct Timer {
    pub id: String,
    pub name: String,
    pub target_at_minute: EpochMinutes,
    pub created_at_minute: EpochMinutes,
    pub updated_at_minute: EpochMinutes,
    pub archived: bool,
}

/// The mathematical value of a [`Timer`].
pub ghost struct TimerView {
    pub id: Seq<char>,
    pub name: Seq<char>,
    pub target_at_minute: int,
    pub created_at_minute: int,
    pub updated_at_minute: int,
    pub archived: bool,
}

impl View for Timer {
    type V = TimerView;

    open spec fn view(&self) -> TimerView {
        TimerView {
            id: self.id@,
            name: self.name@,
            target_at_minute: self.target_at_minute as int,
            created_at_minute: self.created_at_minute as int,
            updated_at_minute: self.updated_at_minute as int,
            archived: self.archived,
        }
    }
}

impl Timer {
    /// How many minutes remain until the target; negative when overdue.
    pub fn remaining_minutes(&self, now_minute: EpochMinutes) -> (r: EpochMinutes)
        requires
            i64::MIN <= self@.target_at_minute - now_minute <= i64::MAX,
        ensures
            r as int == self@.target_at_minute - now_minute,
    {
        self.target_at_minute - now_minute
    }
}

/// The status of a todo item: a closed two-value set.
#[derive(Debug, Clone, Copy, PartialEq, Eq, Structural)]
pub enum TodoStatus {
    Open,
    Done,
}

/// The token that names a status in the persisted file.
pub open spec fn status_token(s: TodoStatus) -> Seq<char> {
    match s {
        TodoStatus::Open => "open"@,
        TodoStatus::Done => "done"@,
    }
}

/// The status a token denotes, if any; only the exact lower-case tokens.
pub open spec fn status_of_token(s: Seq<char>) -> Option<TodoStatus> {
    if s == "open"@ {
        Some(TodoStatus::Open)
    } else if s == "done"@ {
        Some(TodoStatus::Done)
    } else {
        None
    }
}

impl TodoStatus {
    /// Parses the persisted token `open` or `done`.
    pub fn from_str(value: &str) -> (r: Option<TodoStatus>)
        ensures
            r == status_of_token(value@),
    {
        if text::str_eq(value, "open") {
            Some(TodoStatus::Open)
        } else if text::str_eq(value, "done") {
            Some(TodoStatus::Done)
        } else {
            None
        }
    }

    /// The persisted token for this status.
    pub fn as_str(&self) -> (r: &'static str)
        ensures
            r@ == status_token(*self),
    {
        match self {
            TodoStatus::Open => "open",
            TodoStatus::Done => "done",
        }
    }
}

/// A todo item belonging to one timer.
#[derive(Debug, Clone, PartialEq, Eq)]
pub struct Todo {
    pub id: String,
    pub timer_id: String,
    pub title: String,
    pub status: TodoStatus,
    pub created_at_minute: EpochMinutes,
    pub updated_at_minute: EpochMinutes,
    pub done_at_minute: Option<EpochMinutes>,
}

/// The mathematical value of a [`Todo`].
pub ghost struct TodoView {
    pub id: Seq<char>,
    pub timer_id: Seq<char>,
    pub title: Seq<char>,
    pub status: TodoStatus,
    pub created_at_minute: int,
    pub updated_at_minute: int,
    pub done_at_minute: Option<int>,
}

/// The mathematical value of an optional minute offset.
pub open spec fn opt_minute_view(v: Option<i64>) -> Option<int> {
    match v {
        Some(m) => Some(m as int),
        None => None,
    }
}

impl View for Todo {
    type V = TodoView;

    open spec fn view(&self) -> TodoView {
        TodoView {
            id: self.id@,
            timer_id: self.timer_id@,
            title: self.title@,
            status: self.status,
            created_at_minute: self.created_at_minute as int,
            updated_at_minute: self.updated_at_minute as int,
            done_at_minute: opt_minute_view(self.done_at_minute),
        }
    }
}

/// A timestamped progress checkpoint recorded against a timer.
#[derive(Debug, Clone, PartialEq, Eq)]
pub struct Mark {
    pub id: String,
    pub timer_id: String,
    pub marked_at_minute: EpochMinutes,
    pub prev_marked_at_minute: Option<EpochMinutes>,
    pub duration_minutes: Option<EpochMinutes>,
    pub description: String,
    pub todo_ids: Vec<String>,
}

/// The mathematical value of a [`Mark`].
pub ghost struct MarkView {
    pub id: Seq<char>,
    pub timer_id: Seq<char>,
    pub marked_at_minute: int,
    pub prev_marked_at_minute: Option<int>,
    pub duration_minutes: Option<int>,
    pub description: Seq<char>,
    pub todo_ids: Seq<Seq<char>>,
}

impl View for Mark {
    type V = MarkView;

    open spec fn view(&self) -> MarkView {
        MarkView {
            id: self.id@,
            timer_id: self.timer_id@,
            marked_at_minute: self.marked_at_minute as int,
            prev_marked_at_minute: opt_minute_view(self.prev_marked_at_minute),
            duration_minutes: opt_minute_view(self.duration_minutes),
            description: self.description@,
            todo_ids: Seq::new(self.todo_ids@.len(), |i: int| self.todo_ids@[i]@),
        }
    }
}

} // verus!
