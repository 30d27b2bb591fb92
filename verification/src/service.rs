//! The per-entity operations the store is driven through: validation of
//! caller-supplied content, deterministic id assignment, and the mark-chain
//! arithmetic that links each new mark to the latest prior one.

use crate::error::AppError;
use crate::error::AppResult;
use crate::model::Mark;
use crate::model::MarkView;
use crate::model::Timer;
use crate::model::TimerView;
use crate::model::Todo;
use crate::model::TodoView;
use crate::model::TodoStatus;
use crate::repository::not_found_timer_message;
use crate::repository::Store;
use crate::tables::mark_dup;
use crate::tables::mark_insert;
use crate::tables::mark_list_max_time;
use crate::tables::mark_views;
use crate::tables::marks_filter;
use crate::tables::max_time;
use crate::tables::sort_by_created;
use crate::tables::sort_by_target;
use crate::tables::timer_dup;
use crate::tables::timer_lookup;
use crate::tables::timer_upsert;
use crate::tables::timer_views;
use crate::tables::timers_filter;
use crate::tables::todo_dup;
use crate::tables::todo_lookup;
use crate::tables::todo_remove;
use crate::tables::todo_upsert;
use crate::tables::todo_views;
use crate::tables::todos_filter;
use crate::text;
use vstd::prelude::*;
use vstd::string::StringExecFns;

verus! {

/// The identifier minted for a prefix and a sequence number.
pub open spec fn make_id(prefix: Seq<char>, n: nat) -> Seq<char> {
    prefix + seq!['-'] + text::dec_digits(n)
}

/// The sequence number after one id has been minted.
pub open spec fn next_seq(n: nat) -> nat {
    if n == u64::MAX as nat {
        0
    } else {
        n + 1
    }
}

/// A deterministic id source: `prefix-N`, with `N` counting up from one per
/// service instance.
struct IdGenerator {
    sequence: u64,
}

impl IdGenerator {
    fn new() -> (r: IdGenerator)
        ensures
            r.sequence == 1,
    {
        IdGenerator { sequence: 1 }
    }

    fn next(&mut self, prefix: &str) -> (r: String)
        ensures
            r@ == make_id(prefix@, old(self).sequence as nat),
            final(self).sequence as nat == next_seq(old(self).sequence as nat),
    {
        let n = self.sequence;
        self.sequence = if n == u64::MAX {
            0
        } else {
            n + 1
        };
        let mut s = String::from_str(prefix);
        text::push_char(&mut s, '-');
        let d = text::u64_to_string(n);
        s.append(d.as_str());
        proof {
            assert(prefix@.push('-') + text::dec_digits(n as nat) =~= make_id(prefix@, n as nat));
        }
        s
    }
}

/// Whether a new mark's duration against the latest prior mark fits in the
/// minute type; with no prior mark there is nothing to subtract.
pub open spec fn duration_fits(marks: Seq<MarkView>, tid: Seq<char>, at: int) -> bool {
    match max_time(marks_filter(marks, tid)) {
        Option::None => true,
        Option::Some(p) => i64::MIN <= at - p <= i64::MAX,
    }
}

/// The thin per-entity orchestration over a storage backend.
pub struct AppService<S: Store> {
    store: S,
    ids: IdGenerator,
}

impl<S: Store> AppService<S> {
    /// The service is usable: its backend is well formed.
    pub closed spec fn wf(&self) -> bool {
        self.store.inv()
    }

    /// The timers collection of the backend.
    pub closed spec fn timers(&self) -> Seq<TimerView> {
        self.store.timers_seq()
    }

    /// The todos collection of the backend.
    pub closed spec fn todos(&self) -> Seq<TodoView> {
        self.store.todos_seq()
    }

    /// The marks collection of the backend.
    pub closed spec fn marks(&self) -> Seq<MarkView> {
        self.store.marks_seq()
    }

    /// The next id sequence number.
    pub closed spec fn seq_no(&self) -> nat {
        self.ids.sequence as nat
    }

    /// Whether the backend's mutations always succeed.
    pub closed spec fn store_infallible(&self) -> bool {
        self.store.infallible()
    }

    /// Wraps a backend; ids start at one.
    pub fn new(store: S) -> (r: AppService<S>)
        requires
            store.inv(),
        ensures
            r.wf(),
            r.timers() == store.timers_seq(),
            r.todos() == store.todos_seq(),
            r.marks() == store.marks_seq(),
            r.seq_no() == 1,
            r.store_infallible() == store.infallible(),
    {
        AppService { store, ids: IdGenerator::new() }
    }

    /// Lends the backend out, for reading or rendering.
    pub fn store_ref(&self) -> (r: &S)
        ensures
            r.timers_seq() == self.timers(),
            r.todos_seq() == self.todos(),
            r.marks_seq() == self.marks(),
            r.inv() == self.wf(),
            r.infallible() == self.store_infallible(),
    {
        &self.store
    }

    /// Hands the backend back.
    pub fn into_store(self) -> (r: S)
        ensures
            r.timers_seq() == self.timers(),
            r.todos_seq() == self.todos(),
            r.marks_seq() == self.marks(),
            r.inv() == self.wf(),
    {
        self.store
    }

    /// Creates a timer with a fresh id; the name must be non-empty after
    /// trimming.
    pub fn create_timer(&mut self, name: &str, target_at_minute: i64, now_minute: i64) -> (r:
        AppResult<Timer>)
        requires
            old(self).wf(),
        ensures
            final(self).wf(),
            final(self).store_infallible() == old(self).store_infallible(),
            text::trim_spec(name@).len() == 0 ==> {
                &&& r matches Err(e) && e matches AppError::Validation(m) && m@
                    == "timer name cannot be empty"@
                &&& final(self).timers() == old(self).timers()
                &&& final(self).todos() == old(self).todos()
                &&& final(self).marks() == old(self).marks()
                &&& final(self).seq_no() == old(self).seq_no()
            },
            text::trim_spec(name@).len() > 0 ==> ({
                let tv = TimerView {
                    id: make_id("timer"@, old(self).seq_no()),
                    name: text::trim_spec(name@),
                    target_at_minute: target_at_minute as int,
                    created_at_minute: now_minute as int,
                    updated_at_minute: now_minute as int,
                    archived: false,
                };
                &&& final(self).timers() == timer_upsert(old(self).timers(), tv)
                &&& final(self).todos() == old(self).todos()
                &&& final(self).marks() == old(self).marks()
                &&& final(self).seq_no() == next_seq(old(self).seq_no())
                &&& (r matches Ok(t) ==> t@ == tv)
                &&& (old(self).store_infallible() ==> r is Ok)
                &&& (r matches Err(e) ==> e matches AppError::Internal(_))
            }),
    {
        let trimmed = text::trim_str(name);
        if trimmed.as_str().unicode_len() == 0 {
            return Err(AppError::Validation(String::from_str("timer name cannot be empty")));
        }
        let id = self.ids.next("timer");
        let timer = Timer {
            id,
            name: trimmed,
            target_at_minute,
            created_at_minute: now_minute,
            updated_at_minute: now_minute,
            archived: false,
        };
        let copy = timer_dup(&timer);
        match self.store.save_timer(copy) {
            Ok(u) => {
                let _ = u;
                Ok(timer)
            },
            Err(e) => Err(e),
        }
    }

    /// Renames and retargets an existing timer; absent ids are a not-found
    /// failure, checked before validation.
    pub fn update_timer(
        &mut self,
        timer_id: &str,
        name: &str,
        target_at_minute: i64,
        now_minute: i64,
    ) -> (r: AppResult<Timer>)
        requires
            old(self).wf(),
        ensures
            final(self).wf(),
            final(self).store_infallible() == old(self).store_infallible(),
            final(self).todos() == old(self).todos(),
            final(self).marks() == old(self).marks(),
            final(self).seq_no() == old(self).seq_no(),
            timer_lookup(old(self).timers(), timer_id@) is None ==> {
                &&& final(self).timers() == old(self).timers()
                &&& r matches Err(e) && e matches AppError::NotFound(m) && m@ == "timer "@
                    + timer_id@
            },
            timer_lookup(old(self).timers(), timer_id@) is Some && text::trim_spec(name@).len()
                == 0 ==> {
                &&& final(self).timers() == old(self).timers()
                &&& r matches Err(e) && e matches AppError::Validation(m) && m@
                    == "timer name cannot be empty"@
            },
            timer_lookup(old(self).timers(), timer_id@) matches Some(t0) ==> text::trim_spec(
                name@,
            ).len() > 0 ==> ({
                let tv = TimerView {
                    id: t0.id,
                    name: text::trim_spec(name@),
                    target_at_minute: target_at_minute as int,
                    created_at_minute: t0.created_at_minute,
                    updated_at_minute: now_minute as int,
                    archived: t0.archived,
                };
                &&& final(self).timers() == timer_upsert(old(self).timers(), tv)
                &&& (r matches Ok(t) ==> t@ == tv)
                &&& (old(self).store_infallible() ==> r is Ok)
                &&& (r matches Err(e) ==> e matches AppError::Internal(_))
            }),
    {
        let mut timer = match self.store.get_timer(timer_id) {
            Option::Some(t) => t,
            Option::None => {
                return Err(AppError::NotFound(not_found_timer_message(timer_id)));
            },
        };
        let trimmed = text::trim_str(name);
        if trimmed.as_str().unicode_len() == 0 {
            return Err(AppError::Validation(String::from_str("timer name cannot be empty")));
        }
        timer.name = trimmed;
        timer.target_at_minute = target_at_minute;
        timer.updated_at_minute = now_minute;
        let copy = timer_dup(&timer);
        match self.store.save_timer(copy) {
            Ok(u) => {
                let _ = u;
                Ok(timer)
            },
            Err(e) => Err(e),
        }
    }

    /// Sets the archived flag of an existing timer; the flag is monotonic
    /// through the operations in scope.
    pub fn archive_timer(&mut self, timer_id: &str, now_minute: i64) -> (r: AppResult<Timer>)
        requires
            old(self).wf(),
        ensures
            final(self).wf(),
            final(self).store_infallible() == old(self).store_infallible(),
            final(self).todos() == old(self).todos(),
            final(self).marks() == old(self).marks(),
            final(self).seq_no() == old(self).seq_no(),
            timer_lookup(old(self).timers(), timer_id@) is None ==> {
                &&& final(self).timers() == old(self).timers()
                &&& r matches Err(e) && e matches AppError::NotFound(m) && m@ == "timer "@
                    + timer_id@
            },
            timer_lookup(old(self).timers(), timer_id@) matches Some(t0) ==> ({
                let tv = TimerView {
                    id: t0.id,
                    name: t0.name,
                    target_at_minute: t0.target_at_minute,
                    created_at_minute: t0.created_at_minute,
                    updated_at_minute: now_minute as int,
                    archived: true,
                };
                &&& final(self).timers() == timer_upsert(old(self).timers(), tv)
                &&& (r matches Ok(t) ==> t@ == tv)
                &&& (old(self).store_infallible() ==> r is Ok)
                &&& (r matches Err(e) ==> e matches AppError::Internal(_))
            }),
    {
        let mut timer = match self.store.get_timer(timer_id) {
            Option::Some(t) => t,
            Option::None => {
                return Err(AppError::NotFound(not_found_timer_message(timer_id)));
            },
        };
        timer.archived = true;
        timer.updated_at_minute = now_minute;
        let copy = timer_dup(&timer);
        match self.store.save_timer(copy) {
            Ok(u) => {
                let _ = u;
                Ok(timer)
            },
            Err(e) => Err(e),
        }
    }

    /// Lists timers by target time ascending, leaving archived ones out
    /// unless asked for.
    pub fn list_timers(&self, include_archived: bool) -> (r: Vec<Timer>)
        requires
            self.wf(),
        ensures
            timer_views(r@) == sort_by_target(timers_filter(self.timers(), include_archived)),
    {
        self.store.list_timers(include_archived)
    }

    /// Creates a todo under an existing timer; the title must be non-empty
    /// after trimming.
    pub fn create_todo(&mut self, timer_id: &str, title: &str, now_minute: i64) -> (r: AppResult<
        Todo,
    >)
        requires
            old(self).wf(),
        ensures
            final(self).wf(),
            final(self).store_infallible() == old(self).store_infallible(),
            final(self).timers() == old(self).timers(),
            final(self).marks() == old(self).marks(),
            timer_lookup(old(self).timers(), timer_id@) is None ==> {
                &&& final(self).todos() == old(self).todos()
                &&& final(self).seq_no() == old(self).seq_no()
                &&& r matches Err(e) && e matches AppError::NotFound(m) && m@ == "timer "@
                    + timer_id@
            },
            timer_lookup(old(self).timers(), timer_id@) is Some && text::trim_spec(title@).len()
                == 0 ==> {
                &&& final(self).todos() == old(self).todos()
                &&& final(self).seq_no() == old(self).seq_no()
                &&& r matches Err(e) && e matches AppError::Validation(m) && m@
                    == "todo title cannot be empty"@
            },
            timer_lookup(old(self).timers(), timer_id@) is Some && text::trim_spec(title@).len()
                > 0 ==> ({
                let tv = TodoView {
                    id: make_id("todo"@, old(self).seq_no()),
                    timer_id: timer_id@,
                    title: text::trim_spec(title@),
                    status: TodoStatus::Open,
                    created_at_minute: now_minute as int,
                    updated_at_minute: now_minute as int,
                    done_at_minute: None,
                };
                &&& final(self).todos() == todo_upsert(old(self).todos(), tv)
                &&& final(self).seq_no() == next_seq(old(self).seq_no())
                &&& (r matches Ok(t) ==> t@ == tv)
                &&& (old(self).store_infallible() ==> r is Ok)
                &&& (r matches Err(e) ==> e matches AppError::Internal(_))
            }),
    {
        match self.ensure_timer_exists(timer_id) {
            Ok(u) => {
                let _ = u;
            },
            Err(e) => {
                return Err(e);
            },
        }
        let trimmed = text::trim_str(title);
        if trimmed.as_str().unicode_len() == 0 {
            return Err(AppError::Validation(String::from_str("todo title cannot be empty")));
        }
        let id = self.ids.next("todo");
        let todo = Todo {
            id,
            timer_id: String::from_str(timer_id),
            title: trimmed,
            status: TodoStatus::Open,
            created_at_minute: now_minute,
            updated_at_minute: now_minute,
            done_at_minute: None,
        };
        let copy = todo_dup(&todo);
        match self.store.save_todo(copy) {
            Ok(u) => {
                let _ = u;
                Ok(todo)
            },
            Err(e) => Err(e),
        }
    }

    /// Sets a todo's status; the completion time is present exactly while
    /// the status is done.
    pub fn set_todo_status(&mut self, todo_id: &str, status: TodoStatus, now_minute: i64) -> (r:
        AppResult<Todo>)
        requires
            old(self).wf(),
        ensures
            final(self).wf(),
            final(self).store_infallible() == old(self).store_infallible(),
            final(self).timers() == old(self).timers(),
            final(self).marks() == old(self).marks(),
            final(self).seq_no() == old(self).seq_no(),
            todo_lookup(old(self).todos(), todo_id@) is None ==> {
                &&& final(self).todos() == old(self).todos()
                &&& r matches Err(e) && e matches AppError::NotFound(m) && m@ == "todo "@
                    + todo_id@
            },
            todo_lookup(old(self).todos(), todo_id@) matches Some(t0) ==> ({
                let tv = TodoView {
                    id: t0.id,
                    timer_id: t0.timer_id,
                    title: t0.title,
                    status: status,
                    created_at_minute: t0.created_at_minute,
                    updated_at_minute: now_minute as int,
                    done_at_minute: if status is Done {
                        Some(now_minute as int)
                    } else {
                        None
                    },
                };
                &&& final(self).todos() == todo_upsert(old(self).todos(), tv)
                &&& (r matches Ok(t) ==> t@ == tv)
                &&& (old(self).store_infallible() ==> r is Ok)
                &&& (r matches Err(e) ==> e matches AppError::Internal(_))
            }),
    {
        let mut todo = match self.store.get_todo(todo_id) {
            Option::Some(t) => t,
            Option::None => {
                return Err(AppError::NotFound(crate::repository::not_found_todo_message(todo_id)));
            },
        };
        todo.status = status;
        todo.updated_at_minute = now_minute;
        todo.done_at_minute = match todo.status {
            TodoStatus::Done => Some(now_minute),
            TodoStatus::Open => None,
        };
        let copy = todo_dup(&todo);
        match self.store.save_todo(copy) {
            Ok(u) => {
                let _ = u;
                Ok(todo)
            },
            Err(e) => Err(e),
        }
    }

    /// Deletes a todo and returns the deleted value; absent ids are a
    /// not-found failure.
    pub fn delete_todo(&mut self, todo_id: &str) -> (r: AppResult<Todo>)
        requires
            old(self).wf(),
        ensures
            final(self).wf(),
            final(self).store_infallible() == old(self).store_infallible(),
            final(self).timers() == old(self).timers(),
            final(self).marks() == old(self).marks(),
            final(self).seq_no() == old(self).seq_no(),
            todo_lookup(old(self).todos(), todo_id@) is None ==> {
                &&& final(self).todos() == old(self).todos()
                &&& r matches Err(e) && e matches AppError::NotFound(m) && m@ == "todo "@
                    + todo_id@
            },
            todo_lookup(old(self).todos(), todo_id@) matches Some(t0) ==> {
                &&& final(self).todos() == todo_remove(old(self).todos(), todo_id@)
                &&& (r matches Ok(t) ==> t@ == t0)
                &&& (old(self).store_infallible() ==> r is Ok)
                &&& (r matches Err(e) ==> e matches AppError::Internal(_))
            },
    {
        let todo = match self.store.get_todo(todo_id) {
            Option::Some(t) => t,
            Option::None => {
                return Err(AppError::NotFound(crate::repository::not_found_todo_message(todo_id)));
            },
        };
        match self.store.delete_todo(todo_id) {
            Ok(u) => {
                let _ = u;
                Ok(todo)
            },
            Err(e) => Err(e),
        }
    }

    /// Lists the todos of an existing timer by creation time ascending.
    pub fn list_todos_by_timer(&self, timer_id: &str) -> (r: AppResult<Vec<Todo>>)
        requires
            self.wf(),
        ensures
            timer_lookup(self.timers(), timer_id@) is None ==> {
                &&& r matches Err(e) && e matches AppError::NotFound(m) && m@ == "timer "@
                    + timer_id@
            },
            timer_lookup(self.timers(), timer_id@) is Some ==> {
                &&& r matches Ok(v) && todo_views(v@) == sort_by_created(
                    todos_filter(self.todos(), timer_id@),
                )
            },
    {
        match self.ensure_timer_exists(timer_id) {
            Ok(u) => {
                let _ = u;
            },
            Err(e) => {
                return Err(e);
            },
        }
        Ok(self.store.list_todos_by_timer(timer_id))
    }

    /// Records a mark against an existing timer, deriving the previous-time
    /// and duration links from whichever mark currently holds the latest
    /// recorded time for that timer.
    pub fn create_mark(
        &mut self,
        timer_id: &str,
        marked_at_minute: i64,
        description: &str,
        todo_ids: Vec<String>,
    ) -> (r: AppResult<Mark>)
        requires
            old(self).wf(),
            duration_fits(old(self).marks(), timer_id@, marked_at_minute as int),
        ensures
            final(self).wf(),
            final(self).store_infallible() == old(self).store_infallible(),
            final(self).timers() == old(self).timers(),
            final(self).todos() == old(self).todos(),
            timer_lookup(old(self).timers(), timer_id@) is None ==> {
                &&& final(self).marks() == old(self).marks()
                &&& final(self).seq_no() == old(self).seq_no()
                &&& r matches Err(e) && e matches AppError::NotFound(m) && m@ == "timer "@
                    + timer_id@
            },
            timer_lookup(old(self).timers(), timer_id@) is Some ==> ({
                let prev = max_time(marks_filter(old(self).marks(), timer_id@));
                let mv = MarkView {
                    id: make_id("mark"@, old(self).seq_no()),
                    timer_id: timer_id@,
                    marked_at_minute: marked_at_minute as int,
                    prev_marked_at_minute: prev,
                    duration_minutes: match prev {
                        Option::None => None,
                        Option::Some(p) => Some(marked_at_minute - p),
                    },
                    description: description@,
                    todo_ids: text::str_views(todo_ids@),
                };
                &&& final(self).marks() == mark_insert(old(self).marks(), mv)
                &&& final(self).seq_no() == next_seq(old(self).seq_no())
                &&& (r matches Ok(m) ==> m@ == mv)
                &&& (old(self).store_infallible() ==> r is Ok)
                &&& (r matches Err(e) ==> e matches AppError::Internal(_))
            }),
    {
        match self.ensure_timer_exists(timer_id) {
            Ok(u) => {
                let _ = u;
            },
            Err(e) => {
                return Err(e);
            },
        }
        let timer_marks = self.store.list_marks_by_timer(timer_id);
        let prev = mark_list_max_time(&timer_marks);
        let duration = match prev {
            Option::Some(p) => Some(marked_at_minute - p),
            Option::None => None,
        };
        let id = self.ids.next("mark");
        let mark = Mark {
            id,
            timer_id: String::from_str(timer_id),
            marked_at_minute,
            prev_marked_at_minute: prev,
            duration_minutes: duration,
            description: String::from_str(description),
            todo_ids,
        };
        let copy = mark_dup(&mark);
        proof {
            assert(mark@.todo_ids =~= text::str_views(mark.todo_ids@));
        }
        match self.store.append_mark(copy) {
            Ok(u) => {
                let _ = u;
                Ok(mark)
            },
            Err(e) => Err(e),
        }
    }

    /// Lists the marks of an existing timer by recorded time ascending.
    pub fn list_marks_by_timer(&self, timer_id: &str) -> (r: AppResult<Vec<Mark>>)
        requires
            self.wf(),
        ensures
            timer_lookup(self.timers(), timer_id@) is None ==> {
                &&& r matches Err(e) && e matches AppError::NotFound(m) && m@ == "timer "@
                    + timer_id@
            },
            timer_lookup(self.timers(), timer_id@) is Some ==> {
                &&& r matches Ok(v) && mark_views(v@) == marks_filter(self.marks(), timer_id@)
            },
    {
        match self.ensure_timer_exists(timer_id) {
            Ok(u) => {
                let _ = u;
            },
            Err(e) => {
                return Err(e);
            },
        }
        Ok(self.store.list_marks_by_timer(timer_id))
    }

    fn ensure_timer_exists(&self, timer_id: &str) -> (r: AppResult<()>)
        requires
            self.wf(),
        ensures
            timer_lookup(self.timers(), timer_id@) is Some <==> r is Ok,
            r matches Err(e) ==> e matches AppError::NotFound(m) && m@ == "timer "@ + timer_id@,
    {
        match self.store.get_timer(timer_id) {
            Option::Some(t) => {
                let _ = t;
                Ok(())
            },
            Option::None => Err(AppError::NotFound(not_found_timer_message(timer_id))),
        }
    }
}

} // verus!
