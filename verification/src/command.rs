//! The command layer: typed requests, a success/failure envelope, and the
//! mapping from internal errors to transport-facing taxonomy codes.

use crate::error::AppError;
use crate::model::EpochMinutes;
use crate::model::Mark;
use crate::model::Timer;
use crate::model::Todo;
use crate::model::TodoStatus;
use crate::repository::Store;
use crate::service::AppService;
use crate::text;
use vstd::prelude::*;

verus! {

/// A transport-facing error: a taxonomy code and the underlying message.
#[derive(Debug, Clone, PartialEq, Eq)]
pub struct CommandError {
    pub code: &'static str,
    pub message: String,
    pub detail: Option<String>,
}

/// The taxonomy code an internal error maps to.
pub open spec fn code_of(e: AppError) -> Seq<char> {
    match e {
        AppError::Validation(_) => "E_VALIDATION"@,
        AppError::NotFound(_) => "E_NOT_FOUND"@,
        AppError::Conflict(_) => "E_CONFLICT"@,
        AppError::Internal(m) => if text::contains_seq(m@, "csv"@) {
            "E_CSV_PARSE"@
        } else if text::contains_seq(m@, "read"@) || text::contains_seq(m@, "write"@) {
            "E_IO"@
        } else {
            "E_INTERNAL"@
        },
    }
}

/// Whether a taxonomy code is one of those an internal failure maps to.
pub open spec fn is_internal_code(c: Seq<char>) -> bool {
    c == "E_CSV_PARSE"@ || c == "E_IO"@ || c == "E_INTERNAL"@
}

/// The message an internal error carries into its envelope.
pub open spec fn message_of(e: AppError) -> Seq<char> {
    match e {
        AppError::Validation(m) => m@,
        AppError::NotFound(m) => m@,
        AppError::Conflict(m) => m@,
        AppError::Internal(m) => m@,
    }
}

fn map_error(error: AppError) -> (r: CommandError)
    ensures
        r.code@ == code_of(error),
        r.message@ == message_of(error),
        r.detail is None,
{
    match error {
        AppError::Validation(message) => CommandError {
            code: "E_VALIDATION",
            message,
            detail: None,
        },
        AppError::NotFound(message) => CommandError { code: "E_NOT_FOUND", message, detail: None },
        AppError::Conflict(message) => CommandError { code: "E_CONFLICT", message, detail: None },
        AppError::Internal(message) => {
            if text::str_contains(message.as_str(), "csv") {
                CommandError { code: "E_CSV_PARSE", message, detail: None }
            } else if text::str_contains(message.as_str(), "read") || text::str_contains(
                message.as_str(),
                "write",
            ) {
                CommandError { code: "E_IO", message, detail: None }
            } else {
                CommandError { code: "E_INTERNAL", message, detail: None }
            }
        },
    }
}

/// The outcome of one command: either data or a mapped error.
#[derive(Debug, Clone, PartialEq, Eq)]
pub struct Envelope<T> {
    pub ok: bool,
    pub data: Option<T>,
    pub error: Option<CommandError>,
}

/// Whether an envelope correctly wraps an operation's outcome.
pub open spec fn wraps<T>(r: Envelope<T>, outcome: Result<T, AppError>) -> bool {
    match outcome {
        Ok(v) => r.ok && r.data == Some(v) && r.error is None,
        Err(e) => !r.ok && r.data is None && (r.error matches Some(ce) && ce.code@ == code_of(e)
            && ce.message@ == message_of(e) && ce.detail is None),
    }
}

impl<T> Envelope<T> {
    fn success(data: T) -> (r: Envelope<T>)
        ensures
            wraps(r, Ok(data)),
    {
        Envelope { ok: true, data: Some(data), error: None }
    }

    fn failure(error: AppError) -> (r: Envelope<T>)
        ensures
            wraps(r, Err(error)),
    {
        Envelope { ok: false, data: None, error: Some(map_error(error)) }
    }
}

/// A request to create a timer.
#[derive(Debug, Clone, PartialEq, Eq)]
pub struct CreateTimerCommand {
    pub name: String,
    pub target_at_minute: EpochMinutes,
    pub now_minute: EpochMinutes,
}

/// A request to rename or retarget a timer.
#[derive(Debug, Clone, PartialEq, Eq)]
pub struct UpdateTimerCommand {
    pub timer_id: String,
    pub name: String,
    pub target_at_minute: EpochMinutes,
    pub now_minute: EpochMinutes,
}

/// A request to archive a timer.
#[derive(Debug, Clone, PartialEq, Eq)]
pub struct ArchiveTimerCommand {
    pub timer_id: String,
    pub now_minute: EpochMinutes,
}

/// A request to create a todo under a timer.
#[derive(Debug, Clone, PartialEq, Eq)]
pub struct CreateTodoCommand {
    pub timer_id: String,
    pub title: String,
    pub now_minute: EpochMinutes,
}

/// A request to change a todo's status.
#[derive(Debug, Clone, PartialEq, Eq)]
pub struct UpdateTodoStatusCommand {
    pub todo_id: String,
    pub status: TodoStatus,
    pub now_minute: EpochMinutes,
}

/// A request to record a mark against a timer.
#[derive(Debug, Clone, PartialEq, Eq)]
pub struct CreateMarkCommand {
    pub timer_id: String,
    pub marked_at_minute: EpochMinutes,
    pub description: String,
    pub todo_ids: Vec<String>,
}

/// The command dispatch surface: each operation's outcome is wrapped in an
/// envelope with a taxonomy code.
pub struct CommandApi<S: Store> {
    service: AppService<S>,
}

impl<S: Store> CommandApi<S> {
    /// The wrapped service is usable.
    pub closed spec fn wf(&self) -> bool {
        self.service.wf()
    }

    /// The marks collection of the wrapped service.
    pub closed spec fn marks(&self) -> Seq<crate::model::MarkView> {
        self.service.marks()
    }

    /// The timers collection of the wrapped service.
    pub closed spec fn timers(&self) -> Seq<crate::model::TimerView> {
        self.service.timers()
    }

    /// The todos collection of the wrapped service.
    pub closed spec fn todos(&self) -> Seq<crate::model::TodoView> {
        self.service.todos()
    }

    /// The next id sequence number of the wrapped service.
    pub closed spec fn seq_no(&self) -> nat {
        self.service.seq_no()
    }

    /// Whether the backend's mutations always succeed.
    pub closed spec fn store_infallible(&self) -> bool {
        self.service.store_infallible()
    }

    pub fn new(service: AppService<S>) -> (r: CommandApi<S>)
        requires
            service.wf(),
        ensures
            r.wf(),
    {
        CommandApi { service }
    }

    /// Lends the wrapped service out, for reading or rendering.
    pub fn service_ref(&self) -> (r: &AppService<S>)
        ensures
            r.timers() == self.timers(),
            r.todos() == self.todos(),
            r.marks() == self.marks(),
            r.wf() == self.wf(),
    {
        &self.service
    }

    pub fn timer_create(&mut self, request: CreateTimerCommand) -> (r: Envelope<Timer>)
        requires
            old(self).wf(),
        ensures
            final(self).wf(),
            final(self).store_infallible() == old(self).store_infallible(),
            text::trim_spec(request.name@).len() == 0 ==> {
                &&& !r.ok && r.data is None
                &&& r.error matches Some(ce) && ce.code@ == "E_VALIDATION"@ && ce.message@
                    == "timer name cannot be empty"@
                &&& final(self).timers() == old(self).timers()
                &&& final(self).todos() == old(self).todos()
                &&& final(self).marks() == old(self).marks()
                &&& final(self).seq_no() == old(self).seq_no()
            },
            text::trim_spec(request.name@).len() > 0 ==> ({
                let tv = crate::model::TimerView {
                    id: crate::service::make_id("timer"@, old(self).seq_no()),
                    name: text::trim_spec(request.name@),
                    target_at_minute: request.target_at_minute as int,
                    created_at_minute: request.now_minute as int,
                    updated_at_minute: request.now_minute as int,
                    archived: false,
                };
                &&& final(self).timers() == crate::tables::timer_upsert(old(self).timers(), tv)
                &&& final(self).todos() == old(self).todos()
                &&& final(self).marks() == old(self).marks()
                &&& final(self).seq_no() == crate::service::next_seq(old(self).seq_no())
                &&& (r.ok ==> (r.data matches Some(t) && t@ == tv && r.error is None))
                &&& (old(self).store_infallible() ==> r.ok)
                &&& (!r.ok ==> r.data is None && (r.error matches Some(ce) && is_internal_code(
                    ce.code@,
                )))
            }),
    {
        match self.service.create_timer(
            request.name.as_str(),
            request.target_at_minute,
            request.now_minute,
        ) {
            Ok(timer) => Envelope::success(timer),
            Err(error) => Envelope::failure(error),
        }
    }

    pub fn timer_update(&mut self, request: UpdateTimerCommand) -> (r: Envelope<Timer>)
        requires
            old(self).wf(),
        ensures
            final(self).wf(),
            final(self).store_infallible() == old(self).store_infallible(),
            final(self).todos() == old(self).todos(),
            final(self).marks() == old(self).marks(),
            final(self).seq_no() == old(self).seq_no(),
            crate::tables::timer_lookup(old(self).timers(), request.timer_id@) is None ==> {
                &&& final(self).timers() == old(self).timers()
                &&& !r.ok && r.data is None
                &&& r.error matches Some(ce) && ce.code@ == "E_NOT_FOUND"@ && ce.message@
                    == "timer "@ + request.timer_id@
            },
            crate::tables::timer_lookup(old(self).timers(), request.timer_id@) is Some
                && text::trim_spec(request.name@).len() == 0 ==> {
                &&& final(self).timers() == old(self).timers()
                &&& !r.ok && r.data is None
                &&& r.error matches Some(ce) && ce.code@ == "E_VALIDATION"@ && ce.message@
                    == "timer name cannot be empty"@
            },
            crate::tables::timer_lookup(old(self).timers(), request.timer_id@) matches Some(t0)
                ==> text::trim_spec(request.name@).len() > 0 ==> ({
                let tv = crate::model::TimerView {
                    id: t0.id,
                    name: text::trim_spec(request.name@),
                    target_at_minute: request.target_at_minute as int,
                    created_at_minute: t0.created_at_minute,
                    updated_at_minute: request.now_minute as int,
                    archived: t0.archived,
                };
                &&& final(self).timers() == crate::tables::timer_upsert(old(self).timers(), tv)
                &&& (r.ok ==> (r.data matches Some(t) && t@ == tv && r.error is None))
                &&& (old(self).store_infallible() ==> r.ok)
                &&& (!r.ok ==> r.data is None && (r.error matches Some(ce) && is_internal_code(
                    ce.code@,
                )))
            }),
    {
        match self.service.update_timer(
            request.timer_id.as_str(),
            request.name.as_str(),
            request.target_at_minute,
            request.now_minute,
        ) {
            Ok(timer) => Envelope::success(timer),
            Err(error) => Envelope::failure(error),
        }
    }

    pub fn timer_archive(&mut self, request: ArchiveTimerCommand) -> (r: Envelope<Timer>)
        requires
            old(self).wf(),
        ensures
            final(self).wf(),
            final(self).store_infallible() == old(self).store_infallible(),
            final(self).todos() == old(self).todos(),
            final(self).marks() == old(self).marks(),
            final(self).seq_no() == old(self).seq_no(),
            crate::tables::timer_lookup(old(self).timers(), request.timer_id@) is None ==> {
                &&& final(self).timers() == old(self).timers()
                &&& !r.ok && r.data is None
                &&& r.error matches Some(ce) && ce.code@ == "E_NOT_FOUND"@ && ce.message@
                    == "timer "@ + request.timer_id@
            },
            crate::tables::timer_lookup(old(self).timers(), request.timer_id@) matches Some(t0)
                ==> ({
                let tv = crate::model::TimerView {
                    id: t0.id,
                    name: t0.name,
                    target_at_minute: t0.target_at_minute,
                    created_at_minute: t0.created_at_minute,
                    updated_at_minute: request.now_minute as int,
                    archived: true,
                };
                &&& final(self).timers() == crate::tables::timer_upsert(old(self).timers(), tv)
                &&& (r.ok ==> (r.data matches Some(t) && t@ == tv && r.error is None))
                &&& (old(self).store_infallible() ==> r.ok)
                &&& (!r.ok ==> r.data is None && (r.error matches Some(ce) && is_internal_code(
                    ce.code@,
                )))
            }),
    {
        match self.service.archive_timer(request.timer_id.as_str(), request.now_minute) {
            Ok(timer) => Envelope::success(timer),
            Err(error) => Envelope::failure(error),
        }
    }

    pub fn timer_list(&self, include_archived: bool) -> (r: Envelope<Vec<Timer>>)
        requires
            self.wf(),
        ensures
            r.ok && r.error is None,
            r.data matches Some(v) && crate::tables::timer_views(v@)
                == crate::tables::sort_by_target(
                crate::tables::timers_filter(self.timers(), include_archived),
            ),
    {
        Envelope::success(self.service.list_timers(include_archived))
    }

    pub fn todo_create(&mut self, request: CreateTodoCommand) -> (r: Envelope<Todo>)
        requires
            old(self).wf(),
        ensures
            final(self).wf(),
            final(self).store_infallible() == old(self).store_infallible(),
            final(self).timers() == old(self).timers(),
            final(self).marks() == old(self).marks(),
            crate::tables::timer_lookup(old(self).timers(), request.timer_id@) is None ==> {
                &&& final(self).todos() == old(self).todos()
                &&& final(self).seq_no() == old(self).seq_no()
                &&& !r.ok && r.data is None
                &&& r.error matches Some(ce) && ce.code@ == "E_NOT_FOUND"@ && ce.message@
                    == "timer "@ + request.timer_id@
            },
            crate::tables::timer_lookup(old(self).timers(), request.timer_id@) is Some
                && text::trim_spec(request.title@).len() == 0 ==> {
                &&& final(self).todos() == old(self).todos()
                &&& final(self).seq_no() == old(self).seq_no()
                &&& !r.ok && r.data is None
                &&& r.error matches Some(ce) && ce.code@ == "E_VALIDATION"@ && ce.message@
                    == "todo title cannot be empty"@
            },
            crate::tables::timer_lookup(old(self).timers(), request.timer_id@) is Some
                && text::trim_spec(request.title@).len() > 0 ==> ({
                let tv = crate::model::TodoView {
                    id: crate::service::make_id("todo"@, old(self).seq_no()),
                    timer_id: request.timer_id@,
                    title: text::trim_spec(request.title@),
                    status: TodoStatus::Open,
                    created_at_minute: request.now_minute as int,
                    updated_at_minute: request.now_minute as int,
                    done_at_minute: None,
                };
                &&& final(self).todos() == crate::tables::todo_upsert(old(self).todos(), tv)
                &&& final(self).seq_no() == crate::service::next_seq(old(self).seq_no())
                &&& (r.ok ==> (r.data matches Some(t) && t@ == tv && r.error is None))
                &&& (old(self).store_infallible() ==> r.ok)
                &&& (!r.ok ==> r.data is None && (r.error matches Some(ce) && is_internal_code(
                    ce.code@,
                )))
            }),
    {
        match self.service.create_todo(
            request.timer_id.as_str(),
            request.title.as_str(),
            request.now_minute,
        ) {
            Ok(todo) => Envelope::success(todo),
            Err(error) => Envelope::failure(error),
        }
    }

    pub fn todo_update_status(&mut self, request: UpdateTodoStatusCommand) -> (r: Envelope<Todo>)
        requires
            old(self).wf(),
        ensures
            final(self).wf(),
            final(self).store_infallible() == old(self).store_infallible(),
            final(self).timers() == old(self).timers(),
            final(self).marks() == old(self).marks(),
            final(self).seq_no() == old(self).seq_no(),
            crate::tables::todo_lookup(old(self).todos(), request.todo_id@) is None ==> {
                &&& final(self).todos() == old(self).todos()
                &&& !r.ok && r.data is None
                &&& r.error matches Some(ce) && ce.code@ == "E_NOT_FOUND"@ && ce.message@
                    == "todo "@ + request.todo_id@
            },
            crate::tables::todo_lookup(old(self).todos(), request.todo_id@) matches Some(t0)
                ==> ({
                let tv = crate::model::TodoView {
                    id: t0.id,
                    timer_id: t0.timer_id,
                    title: t0.title,
                    status: request.status,
                    created_at_minute: t0.created_at_minute,
                    updated_at_minute: request.now_minute as int,
                    done_at_minute: if request.status is Done {
                        Some(request.now_minute as int)
                    } else {
                        None
                    },
                };
                &&& final(self).todos() == crate::tables::todo_upsert(old(self).todos(), tv)
                &&& (r.ok ==> (r.data matches Some(t) && t@ == tv && r.error is None))
                &&& (old(self).store_infallible() ==> r.ok)
                &&& (!r.ok ==> r.data is None && (r.error matches Some(ce) && is_internal_code(
                    ce.code@,
                )))
            }),
    {
        match self.service.set_todo_status(
            request.todo_id.as_str(),
            request.status,
            request.now_minute,
        ) {
            Ok(todo) => Envelope::success(todo),
            Err(error) => Envelope::failure(error),
        }
    }

    pub fn todo_list_by_timer(&self, timer_id: &str) -> (r: Envelope<Vec<Todo>>)
        requires
            self.wf(),
        ensures
            crate::tables::timer_lookup(self.timers(), timer_id@) is None ==> !r.ok && (
            r.error matches Some(ce) && ce.code@ == "E_NOT_FOUND"@),
            crate::tables::timer_lookup(self.timers(), timer_id@) is Some ==> r.ok && (
            r.data matches Some(v) && crate::tables::todo_views(v@)
                == crate::tables::sort_by_created(
                crate::tables::todos_filter(self.todos(), timer_id@),
            )),
    {
        match self.service.list_todos_by_timer(timer_id) {
            Ok(todos) => Envelope::success(todos),
            Err(error) => Envelope::failure(error),
        }
    }

    pub fn mark_create(&mut self, request: CreateMarkCommand) -> (r: Envelope<Mark>)
        requires
            old(self).wf(),
            crate::service::duration_fits(
                old(self).marks(),
                request.timer_id@,
                request.marked_at_minute as int,
            ),
        ensures
            final(self).wf(),
            final(self).store_infallible() == old(self).store_infallible(),
            final(self).timers() == old(self).timers(),
            final(self).todos() == old(self).todos(),
            crate::tables::timer_lookup(old(self).timers(), request.timer_id@) is None ==> {
                &&& final(self).marks() == old(self).marks()
                &&& final(self).seq_no() == old(self).seq_no()
                &&& !r.ok && r.data is None
                &&& r.error matches Some(ce) && ce.code@ == "E_NOT_FOUND"@ && ce.message@
                    == "timer "@ + request.timer_id@
            },
            crate::tables::timer_lookup(old(self).timers(), request.timer_id@) is Some ==> ({
                let prev = crate::tables::max_time(
                    crate::tables::marks_filter(old(self).marks(), request.timer_id@),
                );
                let mv = crate::model::MarkView {
                    id: crate::service::make_id("mark"@, old(self).seq_no()),
                    timer_id: request.timer_id@,
                    marked_at_minute: request.marked_at_minute as int,
                    prev_marked_at_minute: prev,
                    duration_minutes: match prev {
                        Option::None => None,
                        Option::Some(p) => Some(request.marked_at_minute - p),
                    },
                    description: request.description@,
                    todo_ids: text::str_views(request.todo_ids@),
                };
                &&& final(self).marks() == crate::tables::mark_insert(old(self).marks(), mv)
                &&& final(self).seq_no() == crate::service::next_seq(old(self).seq_no())
                &&& (r.ok ==> (r.data matches Some(m) && m@ == mv && r.error is None))
                &&& (old(self).store_infallible() ==> r.ok)
                &&& (!r.ok ==> r.data is None && (r.error matches Some(ce) && is_internal_code(
                    ce.code@,
                )))
            }),
    {
        match self.service.create_mark(
            request.timer_id.as_str(),
            request.marked_at_minute,
            request.description.as_str(),
            request.todo_ids,
        ) {
            Ok(mark) => Envelope::success(mark),
            Err(error) => Envelope::failure(error),
        }
    }

    pub fn mark_list_by_timer(&self, timer_id: &str) -> (r: Envelope<Vec<Mark>>)
        requires
            self.wf(),
        ensures
            crate::tables::timer_lookup(self.timers(), timer_id@) is None ==> !r.ok && (
            r.error matches Some(ce) && ce.code@ == "E_NOT_FOUND"@),
            crate::tables::timer_lookup(self.timers(), timer_id@) is Some ==> r.ok && (
            r.data matches Some(v) && crate::tables::mark_views(v@) == crate::tables::marks_filter(
                self.marks(),
                timer_id@,
            )),
    {
        match self.service.list_marks_by_timer(timer_id) {
            Ok(marks) => Envelope::success(marks),
            Err(error) => Envelope::failure(error),
        }
    }
}

} // verus!
