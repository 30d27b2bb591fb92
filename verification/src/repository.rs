//! The record store: a polymorphic storage interface with two backends —
//! a volatile in-memory store and the pure core of the delimited-file store,
//! which renders each whole collection deterministically and reloads it from
//! file contents.

use crate::error::AppError;
use crate::error::AppResult;
use crate::model::Mark;
use crate::model::MarkView;
use crate::model::Timer;
use crate::model::TimerView;
use crate::model::Todo;
use crate::model::TodoView;
use crate::tables::mark_insert;
use crate::tables::mark_table_insert;
use crate::tables::mark_table_list;
use crate::tables::mark_views;
use crate::tables::marks_filter;
use crate::tables::marks_sorted;
use crate::tables::sort_by_created;
use crate::tables::sort_by_target;
use crate::tables::timer_lookup;
use crate::tables::timer_table_get;
use crate::tables::timer_table_list;
use crate::tables::timer_table_upsert;
use crate::tables::timer_upsert;
use crate::tables::timer_views;
use crate::tables::timers_filter;
use crate::tables::timers_sorted;
use crate::tables::todo_lookup;
use crate::tables::todo_remove;
use crate::tables::todo_table_get;
use crate::tables::todo_table_list;
use crate::tables::todo_table_remove;
use crate::tables::todo_table_upsert;
use crate::tables::todo_upsert;
use crate::tables::todo_views;
use crate::tables::todos_filter;
use crate::tables::todos_sorted;
use vstd::prelude::*;

verus! {

/// The storage interface the service layer is driven through.  The three
/// collections are modelled as sequences in their canonical persistence
/// order; every mutation is described exactly against them.
pub trait Store: Sized {
    /// The timers collection, in ascending id order.
    spec fn timers_seq(&self) -> Seq<TimerView>;

    /// The todos collection, in ascending id order.
    spec fn todos_seq(&self) -> Seq<TodoView>;

    /// The marks collection, in ascending (timer id, time, id) order.
    spec fn marks_seq(&self) -> Seq<MarkView>;

    /// The backend's internal well-formedness.
    spec fn inv(&self) -> bool;

    /// Whether this backend's mutations always succeed.  The in-memory
    /// backends never fail; a file-backed backend may report I/O failures.
    spec fn infallible(&self) -> bool;

    /// Saves a timer: re-saving an existing id overwrites in place.
    fn save_timer(&mut self, timer: Timer) -> (r: AppResult<()>)
        requires
            old(self).inv(),
        ensures
            final(self).inv(),
            final(self).infallible() == old(self).infallible(),
            final(self).timers_seq() == timer_upsert(old(self).timers_seq(), timer@),
            final(self).todos_seq() == old(self).todos_seq(),
            final(self).marks_seq() == old(self).marks_seq(),
            old(self).infallible() ==> r is Ok,
            r matches Err(e) ==> e matches AppError::Internal(_),
    ;

    /// Point lookup by id; absence is not an error.
    fn get_timer(&self, timer_id: &str) -> (r: Option<Timer>)
        requires
            self.inv(),
        ensures
            match r {
                Some(t) => timer_lookup(self.timers_seq(), timer_id@) == Some(t@),
                None => timer_lookup(self.timers_seq(), timer_id@) is None,
            },
    ;

    /// Lists timers sorted by target time ascending, leaving archived ones
    /// out unless asked for.
    fn list_timers(&self, include_archived: bool) -> (r: Vec<Timer>)
        requires
            self.inv(),
        ensures
            timer_views(r@) == sort_by_target(
                timers_filter(self.timers_seq(), include_archived),
            ),
    ;

    /// Saves a todo: re-saving an existing id overwrites in place.
    fn save_todo(&mut self, todo: Todo) -> (r: AppResult<()>)
        requires
            old(self).inv(),
        ensures
            final(self).inv(),
            final(self).infallible() == old(self).infallible(),
            final(self).todos_seq() == todo_upsert(old(self).todos_seq(), todo@),
            final(self).timers_seq() == old(self).timers_seq(),
            final(self).marks_seq() == old(self).marks_seq(),
            old(self).infallible() ==> r is Ok,
            r matches Err(e) ==> e matches AppError::Internal(_),
    ;

    /// Point lookup by id; absence is not an error.
    fn get_todo(&self, todo_id: &str) -> (r: Option<Todo>)
        requires
            self.inv(),
        ensures
            match r {
                Some(t) => todo_lookup(self.todos_seq(), todo_id@) == Some(t@),
                None => todo_lookup(self.todos_seq(), todo_id@) is None,
            },
    ;

    /// Lists the todos of one timer sorted by creation time ascending.
    fn list_todos_by_timer(&self, timer_id: &str) -> (r: Vec<Todo>)
        requires
            self.inv(),
        ensures
            todo_views(r@) == sort_by_created(todos_filter(self.todos_seq(), timer_id@)),
    ;

    /// Removes a todo; deleting an id that is absent is a not-found failure.
    fn delete_todo(&mut self, todo_id: &str) -> (r: AppResult<()>)
        requires
            old(self).inv(),
        ensures
            final(self).inv(),
            final(self).infallible() == old(self).infallible(),
            final(self).timers_seq() == old(self).timers_seq(),
            final(self).marks_seq() == old(self).marks_seq(),
            todo_lookup(old(self).todos_seq(), todo_id@) is None ==> {
                &&& final(self).todos_seq() == old(self).todos_seq()
                &&& r matches Err(e) && e matches AppError::NotFound(m) && m@ == "todo "@
                    + todo_id@
            },
            todo_lookup(old(self).todos_seq(), todo_id@) is Some ==> {
                &&& final(self).todos_seq() == todo_remove(old(self).todos_seq(), todo_id@)
                &&& (old(self).infallible() ==> r is Ok)
                &&& (r matches Err(e) ==> e matches AppError::Internal(_))
            },
    ;

    /// Appends a mark; marks are append-only.
    fn append_mark(&mut self, mark: Mark) -> (r: AppResult<()>)
        requires
            old(self).inv(),
        ensures
            final(self).inv(),
            final(self).infallible() == old(self).infallible(),
            final(self).marks_seq() == mark_insert(old(self).marks_seq(), mark@),
            final(self).timers_seq() == old(self).timers_seq(),
            final(self).todos_seq() == old(self).todos_seq(),
            old(self).infallible() ==> r is Ok,
            r matches Err(e) ==> e matches AppError::Internal(_),
    ;

    /// Lists the marks of one timer sorted by recorded time ascending.
    fn list_marks_by_timer(&self, timer_id: &str) -> (r: Vec<Mark>)
        requires
            self.inv(),
        ensures
            mark_views(r@) == marks_filter(self.marks_seq(), timer_id@),
    ;
}

/// A volatile store: the three collections live in memory only.
#[derive(Debug)]
pub struct InMemoryStore {
    timers: Vec<Timer>,
    todos: Vec<Todo>,
    marks: Vec<Mark>,
}

impl Default for InMemoryStore {
    /// An empty store.
    fn default() -> (r: InMemoryStore)
        ensures
            r.inv(),
            r.infallible(),
            r.timers_seq() == Seq::<TimerView>::empty(),
            r.todos_seq() == Seq::<TodoView>::empty(),
            r.marks_seq() == Seq::<MarkView>::empty(),
    {
        let r = InMemoryStore { timers: Vec::new(), todos: Vec::new(), marks: Vec::new() };
        proof {
            assert(timer_views(r.timers@) =~= Seq::<TimerView>::empty());
            assert(todo_views(r.todos@) =~= Seq::<TodoView>::empty());
            assert(mark_views(r.marks@) =~= Seq::<MarkView>::empty());
        }
        r
    }
}

impl Store for InMemoryStore {
    closed spec fn timers_seq(&self) -> Seq<TimerView> {
        timer_views(self.timers@)
    }

    closed spec fn todos_seq(&self) -> Seq<TodoView> {
        todo_views(self.todos@)
    }

    closed spec fn marks_seq(&self) -> Seq<MarkView> {
        mark_views(self.marks@)
    }

    closed spec fn inv(&self) -> bool {
        timers_sorted(self.timers_seq()) && todos_sorted(self.todos_seq()) && marks_sorted(
            self.marks_seq(),
        )
    }

    closed spec fn infallible(&self) -> bool {
        true
    }

    fn save_timer(&mut self, timer: Timer) -> (r: AppResult<()>) {
        timer_table_upsert(&mut self.timers, timer);
        Ok(())
    }

    fn get_timer(&self, timer_id: &str) -> (r: Option<Timer>) {
        timer_table_get(&self.timers, timer_id)
    }

    fn list_timers(&self, include_archived: bool) -> (r: Vec<Timer>) {
        timer_table_list(&self.timers, include_archived)
    }

    fn save_todo(&mut self, todo: Todo) -> (r: AppResult<()>) {
        todo_table_upsert(&mut self.todos, todo);
        Ok(())
    }

    fn get_todo(&self, todo_id: &str) -> (r: Option<Todo>) {
        todo_table_get(&self.todos, todo_id)
    }

    fn list_todos_by_timer(&self, timer_id: &str) -> (r: Vec<Todo>) {
        todo_table_list(&self.todos, timer_id)
    }

    fn delete_todo(&mut self, todo_id: &str) -> (r: AppResult<()>) {
        let found = todo_table_remove(&mut self.todos, todo_id);
        if found {
            Ok(())
        } else {
            proof {
                crate::tables::lemma_todo_remove_absent(
                    todo_views(old(self).todos@),
                    todo_id@,
                );
            }
            Err(AppError::NotFound(not_found_todo_message(todo_id)))
        }
    }

    fn append_mark(&mut self, mark: Mark) -> (r: AppResult<()>) {
        mark_table_insert(&mut self.marks, mark);
        Ok(())
    }

    fn list_marks_by_timer(&self, timer_id: &str) -> (r: Vec<Mark>) {
        mark_table_list(&self.marks, timer_id)
    }
}

/// Builds the message that names a missing todo.
pub fn not_found_todo_message(todo_id: &str) -> (r: String)
    ensures
        r@ == "todo "@ + todo_id@,
{
    let mut m = String::from_str("todo ");
    m.append(todo_id);
    m
}

/// Builds the message that names a missing timer.
pub fn not_found_timer_message(timer_id: &str) -> (r: String)
    ensures
        r@ == "timer "@ + timer_id@,
{
    let mut m = String::from_str("timer ");
    m.append(timer_id);
    m
}

use vstd::string::StringExecFns;

/// The pure core of the delimited-file store: it holds the collections in
/// canonical order, decodes them from file contents and renders each whole
/// collection deterministically; the surrounding application writes what it
/// renders through an atomic file writer.
#[derive(Debug)]
pub struct CsvStore {
    timers: Vec<Timer>,
    todos: Vec<Todo>,
    marks: Vec<Mark>,
}

impl Store for CsvStore {
    closed spec fn timers_seq(&self) -> Seq<TimerView> {
        timer_views(self.timers@)
    }

    closed spec fn todos_seq(&self) -> Seq<TodoView> {
        todo_views(self.todos@)
    }

    closed spec fn marks_seq(&self) -> Seq<MarkView> {
        mark_views(self.marks@)
    }

    closed spec fn inv(&self) -> bool {
        timers_sorted(self.timers_seq()) && todos_sorted(self.todos_seq()) && marks_sorted(
            self.marks_seq(),
        )
    }

    closed spec fn infallible(&self) -> bool {
        true
    }

    fn save_timer(&mut self, timer: Timer) -> (r: AppResult<()>) {
        timer_table_upsert(&mut self.timers, timer);
        Ok(())
    }

    fn get_timer(&self, timer_id: &str) -> (r: Option<Timer>) {
        timer_table_get(&self.timers, timer_id)
    }

    fn list_timers(&self, include_archived: bool) -> (r: Vec<Timer>) {
        timer_table_list(&self.timers, include_archived)
    }

    fn save_todo(&mut self, todo: Todo) -> (r: AppResult<()>) {
        todo_table_upsert(&mut self.todos, todo);
        Ok(())
    }

    fn get_todo(&self, todo_id: &str) -> (r: Option<Todo>) {
        todo_table_get(&self.todos, todo_id)
    }

    fn list_todos_by_timer(&self, timer_id: &str) -> (r: Vec<Todo>) {
        todo_table_list(&self.todos, timer_id)
    }

    fn delete_todo(&mut self, todo_id: &str) -> (r: AppResult<()>) {
        let found = todo_table_remove(&mut self.todos, todo_id);
        if found {
            Ok(())
        } else {
            proof {
                crate::tables::lemma_todo_remove_absent(
                    todo_views(old(self).todos@),
                    todo_id@,
                );
            }
            Err(AppError::NotFound(not_found_todo_message(todo_id)))
        }
    }

    fn append_mark(&mut self, mark: Mark) -> (r: AppResult<()>) {
        mark_table_insert(&mut self.marks, mark);
        Ok(())
    }

    fn list_marks_by_timer(&self, timer_id: &str) -> (r: Vec<Mark>) {
        mark_table_list(&self.marks, timer_id)
    }
}

/// The column names of the timers file.
pub open spec fn timer_columns() -> Seq<Seq<char>> {
    seq!["id"@, "name"@, "target_at"@, "created_at"@, "updated_at"@, "archived"@]
}

/// The column names of the todos file.
pub open spec fn todo_columns() -> Seq<Seq<char>> {
    seq!["id"@, "timer_id"@, "title"@, "status"@, "created_at"@, "updated_at"@, "done_at"@]
}

/// The column names of the marks file.
pub open spec fn mark_columns() -> Seq<Seq<char>> {
    seq![
        "id"@,
        "timer_id"@,
        "marked_at"@,
        "prev_marked_at"@,
        "duration_minutes"@,
        "description"@,
        "todo_ids"@,
    ]
}

/// The exact header row of the timers file.
pub open spec fn timers_header_spec() -> Seq<char> {
    crate::codec::encode_row_spec(timer_columns())
}

/// The exact header row of the todos file.
pub open spec fn todos_header_spec() -> Seq<char> {
    crate::codec::encode_row_spec(todo_columns())
}

/// The exact header row of the marks file.
pub open spec fn marks_header_spec() -> Seq<char> {
    crate::codec::encode_row_spec(mark_columns())
}

/// Builds the header row of the timers file from its column names.
pub fn timers_header() -> (r: String)
    ensures
        r@ == timers_header_spec(),
{
    let mut cols: Vec<String> = Vec::new();
    cols.push(String::from_str("id"));
    cols.push(String::from_str("name"));
    cols.push(String::from_str("target_at"));
    cols.push(String::from_str("created_at"));
    cols.push(String::from_str("updated_at"));
    cols.push(String::from_str("archived"));
    proof {
        assert(crate::text::str_views(cols@) =~= timer_columns());
    }
    crate::codec::csv_row(&cols)
}

/// Builds the header row of the todos file from its column names.
pub fn todos_header() -> (r: String)
    ensures
        r@ == todos_header_spec(),
{
    let mut cols: Vec<String> = Vec::new();
    cols.push(String::from_str("id"));
    cols.push(String::from_str("timer_id"));
    cols.push(String::from_str("title"));
    cols.push(String::from_str("status"));
    cols.push(String::from_str("created_at"));
    cols.push(String::from_str("updated_at"));
    cols.push(String::from_str("done_at"));
    proof {
        assert(crate::text::str_views(cols@) =~= todo_columns());
    }
    crate::codec::csv_row(&cols)
}

/// Builds the header row of the marks file from its column names.
pub fn marks_header() -> (r: String)
    ensures
        r@ == marks_header_spec(),
{
    let mut cols: Vec<String> = Vec::new();
    cols.push(String::from_str("id"));
    cols.push(String::from_str("timer_id"));
    cols.push(String::from_str("marked_at"));
    cols.push(String::from_str("prev_marked_at"));
    cols.push(String::from_str("duration_minutes"));
    cols.push(String::from_str("description"));
    cols.push(String::from_str("todo_ids"));
    proof {
        assert(crate::text::str_views(cols@) =~= mark_columns());
    }
    crate::codec::csv_row(&cols)
}

/// The persisted token of the archived flag.
pub open spec fn bool_token(b: bool) -> Seq<char> {
    if b {
        "true"@
    } else {
        "false"@
    }
}

fn bool_to_string(b: bool) -> (r: String)
    ensures
        r@ == bool_token(b),
{
    if b {
        String::from_str("true")
    } else {
        String::from_str("false")
    }
}

/// The persisted text of an optional minute value: empty when absent.
pub open spec fn opt_text(v: Option<int>) -> Seq<char> {
    match v {
        Option::None => Seq::empty(),
        Option::Some(m) => crate::text::i64_digits(m),
    }
}

fn opt_i64_to_string(v: Option<i64>) -> (r: String)
    ensures
        r@ == opt_text(crate::model::opt_minute_view(v)),
{
    match v {
        Option::None => String::new(),
        Option::Some(m) => crate::text::i64_to_string(m),
    }
}

/// The persisted text of the todo-id references, joined by a semicolon.
pub open spec fn join_ids(ids: Seq<Seq<char>>) -> Seq<char>
    decreases ids.len(),
{
    if ids.len() == 0 {
        Seq::empty()
    } else if ids.len() == 1 {
        ids[0]
    } else {
        ids[0] + seq![';'] + join_ids(ids.drop_first())
    }
}

proof fn lemma_join_ids_snoc(p: Seq<Seq<char>>, x: Seq<char>)
    ensures
        join_ids(p.push(x)) == (if p.len() == 0 {
            x
        } else {
            join_ids(p) + seq![';'] + x
        }),
    decreases p.len(),
{
    if p.len() == 0 {
        assert(p.push(x)[0] == x);
        assert(join_ids(p.push(x)) == x);
    } else {
        assert(p.push(x)[0] == p[0]);
        assert(p.push(x).drop_first() =~= p.drop_first().push(x));
        lemma_join_ids_snoc(p.drop_first(), x);
        if p.len() == 1 {
            assert(join_ids(p) == p[0]);
            assert(join_ids(p.push(x)) =~= join_ids(p) + seq![';'] + x);
        } else {
            assert(join_ids(p.push(x)) =~= join_ids(p) + seq![';'] + x);
        }
    }
}

fn join_ids_exec(ids: &Vec<String>) -> (r: String)
    ensures
        r@ == join_ids(crate::text::str_views(ids@)),
{
    let ghost iv = crate::text::str_views(ids@);
    let mut r = String::new();
    proof {
        assert(iv.subrange(0, 0) =~= Seq::<Seq<char>>::empty());
    }
    let mut i: usize = 0;
    while i < ids.len()
        invariant
            0 <= i <= ids@.len(),
            iv == crate::text::str_views(ids@),
            iv.len() == ids@.len(),
            r@ == join_ids(iv.subrange(0, i as int)),
        decreases ids@.len() - i,
    {
        if i > 0 {
            crate::text::push_char(&mut r, ';');
        }
        r.append(ids[i].as_str());
        proof {
            assert(iv[i as int] == ids@[i as int]@);
            lemma_join_ids_snoc(iv.subrange(0, i as int), iv[i as int]);
            assert(iv.subrange(0, i as int).push(iv[i as int]) =~= iv.subrange(0, i as int + 1));
        }
        i = i + 1;
    }
    proof {
        assert(iv.subrange(0, ids@.len() as int) =~= iv);
    }
    r
}

/// The field values of one persisted timer row.
pub open spec fn timer_row(t: TimerView) -> Seq<Seq<char>> {
    seq![
        t.id,
        t.name,
        crate::text::i64_digits(t.target_at_minute),
        crate::text::i64_digits(t.created_at_minute),
        crate::text::i64_digits(t.updated_at_minute),
        bool_token(t.archived),
    ]
}

/// The field values of one persisted todo row.
pub open spec fn todo_row(t: TodoView) -> Seq<Seq<char>> {
    seq![
        t.id,
        t.timer_id,
        t.title,
        crate::model::status_token(t.status),
        crate::text::i64_digits(t.created_at_minute),
        crate::text::i64_digits(t.updated_at_minute),
        opt_text(t.done_at_minute),
    ]
}

/// The field values of one persisted mark row.
pub open spec fn mark_row(m: MarkView) -> Seq<Seq<char>> {
    seq![
        m.id,
        m.timer_id,
        crate::text::i64_digits(m.marked_at_minute),
        opt_text(m.prev_marked_at_minute),
        opt_text(m.duration_minutes),
        m.description,
        join_ids(m.todo_ids),
    ]
}

fn timer_fields(t: &Timer) -> (r: Vec<String>)
    ensures
        crate::text::str_views(r@) == timer_row(t@),
{
    let mut f: Vec<String> = Vec::new();
    f.push(t.id.clone());
    f.push(t.name.clone());
    f.push(crate::text::i64_to_string(t.target_at_minute));
    f.push(crate::text::i64_to_string(t.created_at_minute));
    f.push(crate::text::i64_to_string(t.updated_at_minute));
    f.push(bool_to_string(t.archived));
    proof {
        assert(crate::text::str_views(f@) =~= timer_row(t@));
    }
    f
}

fn todo_fields(t: &Todo) -> (r: Vec<String>)
    ensures
        crate::text::str_views(r@) == todo_row(t@),
{
    let mut f: Vec<String> = Vec::new();
    f.push(t.id.clone());
    f.push(t.timer_id.clone());
    f.push(t.title.clone());
    f.push(String::from_str(t.status.as_str()));
    f.push(crate::text::i64_to_string(t.created_at_minute));
    f.push(crate::text::i64_to_string(t.updated_at_minute));
    f.push(opt_i64_to_string(t.done_at_minute));
    proof {
        assert(crate::text::str_views(f@) =~= todo_row(t@));
    }
    f
}

fn mark_fields(m: &Mark) -> (r: Vec<String>)
    ensures
        crate::text::str_views(r@) == mark_row(m@),
{
    let mut f: Vec<String> = Vec::new();
    f.push(m.id.clone());
    f.push(m.timer_id.clone());
    f.push(crate::text::i64_to_string(m.marked_at_minute));
    f.push(opt_i64_to_string(m.prev_marked_at_minute));
    f.push(opt_i64_to_string(m.duration_minutes));
    f.push(m.description.clone());
    f.push(join_ids_exec(&m.todo_ids));
    proof {
        assert(crate::text::str_views(m.todo_ids@) =~= m@.todo_ids);
        assert(crate::text::str_views(f@) =~= mark_row(m@));
    }
    f
}

/// The body of a rendered file: each row encoded, preceded by a newline.
pub open spec fn rows_join(rows: Seq<Seq<Seq<char>>>) -> Seq<char>
    decreases rows.len(),
{
    if rows.len() == 0 {
        Seq::empty()
    } else {
        seq!['\n'] + crate::codec::encode_row_spec(rows[0]) + rows_join(rows.drop_first())
    }
}

proof fn lemma_rows_join_snoc(rows: Seq<Seq<Seq<char>>>, row: Seq<Seq<char>>)
    ensures
        rows_join(rows.push(row)) == rows_join(rows) + seq!['\n'] + crate::codec::encode_row_spec(
            row,
        ),
    decreases rows.len(),
{
    if rows.len() == 0 {
        assert(rows.push(row)[0] == row);
        assert(rows.push(row).drop_first() =~= Seq::<Seq<Seq<char>>>::empty());
        assert(rows_join(Seq::<Seq<Seq<char>>>::empty()) == Seq::<char>::empty());
        assert(rows_join(rows.push(row)) =~= rows_join(rows) + seq!['\n']
            + crate::codec::encode_row_spec(row));
    } else {
        assert(rows.push(row)[0] == rows[0]);
        assert(rows.push(row).drop_first() =~= rows.drop_first().push(row));
        lemma_rows_join_snoc(rows.drop_first(), row);
        assert(rows_join(rows.push(row)) =~= rows_join(rows) + seq!['\n']
            + crate::codec::encode_row_spec(row));
    }
}

/// The rows of the timers collection, one per timer, in table order.
pub open spec fn timer_rows(s: Seq<TimerView>) -> Seq<Seq<Seq<char>>> {
    Seq::new(s.len(), |i: int| timer_row(s[i]))
}

/// The rows of the todos collection, one per todo, in table order.
pub open spec fn todo_rows(s: Seq<TodoView>) -> Seq<Seq<Seq<char>>> {
    Seq::new(s.len(), |i: int| todo_row(s[i]))
}

/// The rows of the marks collection, one per mark, in table order.
pub open spec fn mark_rows(s: Seq<MarkView>) -> Seq<Seq<Seq<char>>> {
    Seq::new(s.len(), |i: int| mark_row(s[i]))
}

/// The full text of the timers file, without the final trailing newline
/// that the atomic writer appends.
pub open spec fn timers_render_spec(s: Seq<TimerView>) -> Seq<char> {
    timers_header_spec() + rows_join(timer_rows(s))
}

/// The full text of the todos file, without the final trailing newline.
pub open spec fn todos_render_spec(s: Seq<TodoView>) -> Seq<char> {
    todos_header_spec() + rows_join(todo_rows(s))
}

/// The full text of the marks file, without the final trailing newline.
pub open spec fn marks_render_spec(s: Seq<MarkView>) -> Seq<char> {
    marks_header_spec() + rows_join(mark_rows(s))
}

impl CsvStore {
    /// Renders the whole timers collection: a pure function of the
    /// collection state, independent of mutation history.
    pub fn render_timers(&self) -> (r: String)
        ensures
            r@ == timers_render_spec(self.timers_seq()),
    {
        let ghost s = self.timers_seq();
        let ghost rows = timer_rows(s);
        let mut out = timers_header();
        proof {
            assert(rows.subrange(0, 0) =~= Seq::<Seq<Seq<char>>>::empty());
            assert(out@ =~= timers_header_spec() + rows_join(rows.subrange(0, 0)));
        }
        let mut i: usize = 0;
        while i < self.timers.len()
            invariant
                0 <= i <= self.timers@.len(),
                s == self.timers_seq(),
                rows == timer_rows(s),
                rows.len() == self.timers@.len(),
                s.len() == self.timers@.len(),
                out@ == timers_header_spec() + rows_join(rows.subrange(0, i as int)),
            decreases self.timers@.len() - i,
        {
            crate::text::push_char(&mut out, '\n');
            let f = timer_fields(&self.timers[i]);
            let rowtext = crate::codec::csv_row(&f);
            out.append(rowtext.as_str());
            proof {
                assert(rows[i as int] == timer_row(s[i as int]));
                assert(s[i as int] == self.timers@[i as int]@);
                lemma_rows_join_snoc(rows.subrange(0, i as int), rows[i as int]);
                assert(rows.subrange(0, i as int).push(rows[i as int]) =~= rows.subrange(
                    0,
                    i as int + 1,
                ));
                assert(out@ =~= timers_header_spec() + rows_join(rows.subrange(0, i as int + 1)));
            }
            i = i + 1;
        }
        proof {
            assert(rows.subrange(0, rows.len() as int) =~= rows);
        }
        out
    }

    /// Renders the whole todos collection deterministically.
    pub fn render_todos(&self) -> (r: String)
        ensures
            r@ == todos_render_spec(self.todos_seq()),
    {
        let ghost s = self.todos_seq();
        let ghost rows = todo_rows(s);
        let mut out = todos_header();
        proof {
            assert(rows.subrange(0, 0) =~= Seq::<Seq<Seq<char>>>::empty());
            assert(out@ =~= todos_header_spec() + rows_join(rows.subrange(0, 0)));
        }
        let mut i: usize = 0;
        while i < self.todos.len()
            invariant
                0 <= i <= self.todos@.len(),
                s == self.todos_seq(),
                rows == todo_rows(s),
                rows.len() == self.todos@.len(),
                s.len() == self.todos@.len(),
                out@ == todos_header_spec() + rows_join(rows.subrange(0, i as int)),
            decreases self.todos@.len() - i,
        {
            crate::text::push_char(&mut out, '\n');
            let f = todo_fields(&self.todos[i]);
            let rowtext = crate::codec::csv_row(&f);
            out.append(rowtext.as_str());
            proof {
                assert(rows[i as int] == todo_row(s[i as int]));
                assert(s[i as int] == self.todos@[i as int]@);
                lemma_rows_join_snoc(rows.subrange(0, i as int), rows[i as int]);
                assert(rows.subrange(0, i as int).push(rows[i as int]) =~= rows.subrange(
                    0,
                    i as int + 1,
                ));
                assert(out@ =~= todos_header_spec() + rows_join(rows.subrange(0, i as int + 1)));
            }
            i = i + 1;
        }
        proof {
            assert(rows.subrange(0, rows.len() as int) =~= rows);
        }
        out
    }

    /// Renders the whole marks collection deterministically.
    pub fn render_marks(&self) -> (r: String)
        ensures
            r@ == marks_render_spec(self.marks_seq()),
    {
        let ghost s = self.marks_seq();
        let ghost rows = mark_rows(s);
        let mut out = marks_header();
        proof {
            assert(rows.subrange(0, 0) =~= Seq::<Seq<Seq<char>>>::empty());
            assert(out@ =~= marks_header_spec() + rows_join(rows.subrange(0, 0)));
        }
        let mut i: usize = 0;
        while i < self.marks.len()
            invariant
                0 <= i <= self.marks@.len(),
                s == self.marks_seq(),
                rows == mark_rows(s),
                rows.len() == self.marks@.len(),
                s.len() == self.marks@.len(),
                out@ == marks_header_spec() + rows_join(rows.subrange(0, i as int)),
            decreases self.marks@.len() - i,
        {
            crate::text::push_char(&mut out, '\n');
            let f = mark_fields(&self.marks[i]);
            let rowtext = crate::codec::csv_row(&f);
            out.append(rowtext.as_str());
            proof {
                assert(rows[i as int] == mark_row(s[i as int]));
                assert(s[i as int] == self.marks@[i as int]@);
                lemma_rows_join_snoc(rows.subrange(0, i as int), rows[i as int]);
                assert(rows.subrange(0, i as int).push(rows[i as int]) =~= rows.subrange(
                    0,
                    i as int + 1,
                ));
                assert(out@ =~= marks_header_spec() + rows_join(rows.subrange(0, i as int + 1)));
            }
            i = i + 1;
        }
        proof {
            assert(rows.subrange(0, rows.len() as int) =~= rows);
        }
        out
    }
}

/// The archived flag a token denotes: the literal `true` or `false` only.
pub open spec fn bool_of_token(s: Seq<char>) -> Option<bool> {
    if s == "true"@ {
        Some(true)
    } else if s == "false"@ {
        Some(false)
    } else {
        None
    }
}

/// The optional minute value a field denotes: absent when the field is
/// empty, otherwise a well-formed signed decimal.
pub open spec fn opt_i64_of(s: Seq<char>) -> Option<Option<i64>> {
    if s.len() == 0 {
        Some(None)
    } else {
        match crate::text::parse_i64_spec(s) {
            Option::None => None,
            Option::Some(v) => Some(Some(v)),
        }
    }
}

fn field_error_message(name: &str, value: &str, what: &str) -> (r: String)
    ensures
        r@ == "failed to parse "@ + name@ + "='"@ + value@ + "'"@ + what@,
{
    let mut m = String::from_str("failed to parse ");
    m.append(name);
    m.append("='");
    m.append(value);
    m.append("'");
    m.append(what);
    m
}

fn parse_i64_field(name: &str, value: &str) -> (r: AppResult<i64>)
    ensures
        match r {
            Ok(v) => crate::text::parse_i64_spec(value@) == Some(v),
            Err(e) => crate::text::parse_i64_spec(value@) is None && e matches AppError::Internal(
                _,
            ),
        },
{
    match crate::text::parse_i64_str(value) {
        Option::Some(v) => Ok(v),
        Option::None => Err(
            AppError::Internal(field_error_message(name, value, " as a minute value")),
        ),
    }
}

fn parse_opt_i64_field(name: &str, value: &str) -> (r: AppResult<Option<i64>>)
    ensures
        match r {
            Ok(v) => opt_i64_of(value@) == Some(v),
            Err(e) => opt_i64_of(value@) is None && e matches AppError::Internal(_),
        },
{
    if value.is_empty() {
        Ok(None)
    } else {
        match parse_i64_field(name, value) {
            Ok(v) => Ok(Some(v)),
            Err(e) => Err(e),
        }
    }
}

fn parse_bool_field(name: &str, value: &str) -> (r: AppResult<bool>)
    ensures
        match r {
            Ok(v) => bool_of_token(value@) == Some(v),
            Err(e) => bool_of_token(value@) is None && e matches AppError::Internal(_),
        },
{
    if crate::text::str_eq(value, "true") {
        Ok(true)
    } else if crate::text::str_eq(value, "false") {
        Ok(false)
    } else {
        Err(AppError::Internal(field_error_message(name, value, " as bool")))
    }
}

/// One scan of the todo-ids field: split at semicolons, trim each part,
/// keep the non-empty parts.
pub open spec fn ids_scan(s: Seq<char>, cur: Seq<char>, acc: Seq<Seq<char>>) -> Seq<Seq<char>>
    decreases s.len(),
{
    if s.len() == 0 {
        if crate::text::trim_spec(cur).len() == 0 {
            acc
        } else {
            acc.push(crate::text::trim_spec(cur))
        }
    } else if s[0] == ';' {
        ids_scan(
            s.drop_first(),
            Seq::empty(),
            if crate::text::trim_spec(cur).len() == 0 {
                acc
            } else {
                acc.push(crate::text::trim_spec(cur))
            },
        )
    } else {
        ids_scan(s.drop_first(), cur.push(s[0]), acc)
    }
}

/// The todo-id references a field denotes.
pub open spec fn parse_ids_spec(s: Seq<char>) -> Seq<Seq<char>> {
    ids_scan(s, Seq::empty(), Seq::empty())
}

/// Splits the todo-ids field at semicolons, trimming each reference and
/// dropping empty ones.
pub fn parse_todo_ids(value: &str) -> (r: Vec<String>)
    ensures
        crate::text::str_views(r@) == parse_ids_spec(value@),
{
    let n = value.unicode_len();
    let mut out: Vec<String> = Vec::new();
    let mut cur = String::new();
    let mut i: usize = 0;
    proof {
        assert(value@.skip(0) =~= value@);
        assert(crate::text::str_views(out@) =~= Seq::<Seq<char>>::empty());
    }
    while i < n
        invariant
            0 <= i <= n,
            n == value@.len(),
            parse_ids_spec(value@) == ids_scan(
                value@.skip(i as int),
                cur@,
                crate::text::str_views(out@),
            ),
        decreases n - i,
    {
        let c = value.get_char(i);
        proof {
            let s = value@.skip(i as int);
            assert(s[0] == value@[i as int]);
            assert(s.drop_first() =~= value@.skip(i as int + 1));
        }
        if c == ';' {
            let ghost ov = out@;
            let part = crate::text::trim_str(cur.as_str());
            if part.unicode_len() > 0 {
                out.push(part);
                proof {
                    crate::text::lemma_str_views_push(ov, out@[ov.len() as int]);
                }
            }
            cur = String::new();
        } else {
            crate::text::push_char(&mut cur, c);
        }
        i = i + 1;
    }
    proof {
        assert(value@.skip(n as int) =~= Seq::<char>::empty());
    }
    let ghost ov = out@;
    let part = crate::text::trim_str(cur.as_str());
    if part.unicode_len() > 0 {
        out.push(part);
        proof {
            crate::text::lemma_str_views_push(ov, out@[ov.len() as int]);
        }
    }
    out
}

/// The timer a decoded row denotes, if it has exactly the expected columns
/// and each field is well formed.
pub open spec fn timer_of_fields(f: Seq<Seq<char>>) -> Option<TimerView> {
    if f.len() != 6 {
        None
    } else {
        match crate::text::parse_i64_spec(f[2]) {
            Option::None => None,
            Option::Some(target) => match crate::text::parse_i64_spec(f[3]) {
                Option::None => None,
                Option::Some(created) => match crate::text::parse_i64_spec(f[4]) {
                    Option::None => None,
                    Option::Some(updated) => match bool_of_token(f[5]) {
                        Option::None => None,
                        Option::Some(archived) => Some(
                            TimerView {
                                id: f[0],
                                name: f[1],
                                target_at_minute: target as int,
                                created_at_minute: created as int,
                                updated_at_minute: updated as int,
                                archived: archived,
                            },
                        ),
                    },
                },
            },
        }
    }
}

/// The todo a decoded row denotes, if well formed.
pub open spec fn todo_of_fields(f: Seq<Seq<char>>) -> Option<TodoView> {
    if f.len() != 7 {
        None
    } else {
        match crate::model::status_of_token(f[3]) {
            Option::None => None,
            Option::Some(status) => match crate::text::parse_i64_spec(f[4]) {
                Option::None => None,
                Option::Some(created) => match crate::text::parse_i64_spec(f[5]) {
                    Option::None => None,
                    Option::Some(updated) => match opt_i64_of(f[6]) {
                        Option::None => None,
                        Option::Some(done) => Some(
                            TodoView {
                                id: f[0],
                                timer_id: f[1],
                                title: f[2],
                                status: status,
                                created_at_minute: created as int,
                                updated_at_minute: updated as int,
                                done_at_minute: crate::model::opt_minute_view(done),
                            },
                        ),
                    },
                },
            },
        }
    }
}

/// The mark a decoded row denotes, if well formed.
pub open spec fn mark_of_fields(f: Seq<Seq<char>>) -> Option<MarkView> {
    if f.len() != 7 {
        None
    } else {
        match crate::text::parse_i64_spec(f[2]) {
            Option::None => None,
            Option::Some(marked) => match opt_i64_of(f[3]) {
                Option::None => None,
                Option::Some(prev) => match opt_i64_of(f[4]) {
                    Option::None => None,
                    Option::Some(duration) => Some(
                        MarkView {
                            id: f[0],
                            timer_id: f[1],
                            marked_at_minute: marked as int,
                            prev_marked_at_minute: crate::model::opt_minute_view(prev),
                            duration_minutes: crate::model::opt_minute_view(duration),
                            description: f[5],
                            todo_ids: parse_ids_spec(f[6]),
                        },
                    ),
                },
            },
        }
    }
}

fn column_count_message(file: &str, want: &str, got: usize) -> (r: String) {
    let mut m = String::from_str(file);
    m.append(" expected ");
    m.append(want);
    m.append(" columns, got ");
    let g = crate::text::u64_to_string(got as u64);
    m.append(g.as_str());
    m
}

fn timer_from_fields(f: &Vec<String>) -> (r: AppResult<Timer>)
    ensures
        match r {
            Ok(t) => timer_of_fields(crate::text::str_views(f@)) == Some(t@),
            Err(e) => timer_of_fields(crate::text::str_views(f@)) is None && e
                matches AppError::Internal(_),
        },
{
    let ghost fv = crate::text::str_views(f@);
    if f.len() != 6 {
        return Err(AppError::Internal(column_count_message("timers.csv", "6", f.len())));
    }
    proof {
        assert(fv[2] == f@[2]@);
        assert(fv[3] == f@[3]@);
        assert(fv[4] == f@[4]@);
        assert(fv[5] == f@[5]@);
        assert(fv[0] == f@[0]@);
        assert(fv[1] == f@[1]@);
    }
    let target = match parse_i64_field("target_at", f[2].as_str()) {
        Ok(v) => v,
        Err(e) => {
            return Err(e);
        },
    };
    let created = match parse_i64_field("created_at", f[3].as_str()) {
        Ok(v) => v,
        Err(e) => {
            return Err(e);
        },
    };
    let updated = match parse_i64_field("updated_at", f[4].as_str()) {
        Ok(v) => v,
        Err(e) => {
            return Err(e);
        },
    };
    let archived = match parse_bool_field("archived", f[5].as_str()) {
        Ok(v) => v,
        Err(e) => {
            return Err(e);
        },
    };
    Ok(
        Timer {
            id: f[0].clone(),
            name: f[1].clone(),
            target_at_minute: target,
            created_at_minute: created,
            updated_at_minute: updated,
            archived: archived,
        },
    )
}

fn todo_from_fields(f: &Vec<String>) -> (r: AppResult<Todo>)
    ensures
        match r {
            Ok(t) => todo_of_fields(crate::text::str_views(f@)) == Some(t@),
            Err(e) => todo_of_fields(crate::text::str_views(f@)) is None && e
                matches AppError::Internal(_),
        },
{
    let ghost fv = crate::text::str_views(f@);
    if f.len() != 7 {
        return Err(AppError::Internal(column_count_message("todos.csv", "7", f.len())));
    }
    proof {
        assert(fv[0] == f@[0]@);
        assert(fv[1] == f@[1]@);
        assert(fv[2] == f@[2]@);
        assert(fv[3] == f@[3]@);
        assert(fv[4] == f@[4]@);
        assert(fv[5] == f@[5]@);
        assert(fv[6] == f@[6]@);
    }
    let status = match crate::model::TodoStatus::from_str(f[3].as_str()) {
        Option::Some(s) => s,
        Option::None => {
            let mut m = String::from_str("invalid todo status '");
            m.append(f[3].as_str());
            m.append("'");
            return Err(AppError::Internal(m));
        },
    };
    let created = match parse_i64_field("created_at", f[4].as_str()) {
        Ok(v) => v,
        Err(e) => {
            return Err(e);
        },
    };
    let updated = match parse_i64_field("updated_at", f[5].as_str()) {
        Ok(v) => v,
        Err(e) => {
            return Err(e);
        },
    };
    let done = match parse_opt_i64_field("done_at", f[6].as_str()) {
        Ok(v) => v,
        Err(e) => {
            return Err(e);
        },
    };
    Ok(
        Todo {
            id: f[0].clone(),
            timer_id: f[1].clone(),
            title: f[2].clone(),
            status: status,
            created_at_minute: created,
            updated_at_minute: updated,
            done_at_minute: done,
        },
    )
}

fn mark_from_fields(f: &Vec<String>) -> (r: AppResult<Mark>)
    ensures
        match r {
            Ok(m) => mark_of_fields(crate::text::str_views(f@)) == Some(m@),
            Err(e) => mark_of_fields(crate::text::str_views(f@)) is None && e
                matches AppError::Internal(_),
        },
{
    let ghost fv = crate::text::str_views(f@);
    if f.len() != 7 {
        return Err(AppError::Internal(column_count_message("marks.csv", "7", f.len())));
    }
    proof {
        assert(fv[0] == f@[0]@);
        assert(fv[1] == f@[1]@);
        assert(fv[2] == f@[2]@);
        assert(fv[3] == f@[3]@);
        assert(fv[4] == f@[4]@);
        assert(fv[5] == f@[5]@);
        assert(fv[6] == f@[6]@);
    }
    let marked = match parse_i64_field("marked_at", f[2].as_str()) {
        Ok(v) => v,
        Err(e) => {
            return Err(e);
        },
    };
    let prev = match parse_opt_i64_field("prev_marked_at", f[3].as_str()) {
        Ok(v) => v,
        Err(e) => {
            return Err(e);
        },
    };
    let duration = match parse_opt_i64_field("duration_minutes", f[4].as_str()) {
        Ok(v) => v,
        Err(e) => {
            return Err(e);
        },
    };
    let ids = parse_todo_ids(f[6].as_str());
    let m = Mark {
        id: f[0].clone(),
        timer_id: f[1].clone(),
        marked_at_minute: marked,
        prev_marked_at_minute: prev,
        duration_minutes: duration,
        description: f[5].clone(),
        todo_ids: ids,
    };
    proof {
        assert(m@.todo_ids =~= parse_ids_spec(fv[6]));
    }
    Ok(m)
}

/// Decodes the timer rows after the header, skipping empty records and
/// upserting each row into the accumulated table.
pub open spec fn load_timer_rows(recs: Seq<Seq<char>>, acc: Seq<TimerView>) -> Option<
    Seq<TimerView>,
>
    decreases recs.len(),
{
    if recs.len() == 0 {
        Some(acc)
    } else if recs[0].len() == 0 {
        load_timer_rows(recs.drop_first(), acc)
    } else {
        match crate::codec::parse_line_spec(recs[0]) {
            Option::None => None,
            Option::Some(f) => match timer_of_fields(f) {
                Option::None => None,
                Option::Some(tv) => load_timer_rows(recs.drop_first(), timer_upsert(acc, tv)),
            },
        }
    }
}

/// The timers table a file's content denotes, if its header matches and
/// every row is well formed.
pub open spec fn load_timers_spec(content: Seq<char>) -> Option<Seq<TimerView>> {
    match crate::codec::split_records_spec(content) {
        Option::None => None,
        Option::Some(recs) => if recs.len() == 0 || recs[0] != timers_header_spec() {
            None
        } else {
            load_timer_rows(recs.drop_first(), Seq::empty())
        },
    }
}

/// Like `load_timer_rows`, for todos.
pub open spec fn load_todo_rows(recs: Seq<Seq<char>>, acc: Seq<TodoView>) -> Option<Seq<TodoView>>
    decreases recs.len(),
{
    if recs.len() == 0 {
        Some(acc)
    } else if recs[0].len() == 0 {
        load_todo_rows(recs.drop_first(), acc)
    } else {
        match crate::codec::parse_line_spec(recs[0]) {
            Option::None => None,
            Option::Some(f) => match todo_of_fields(f) {
                Option::None => None,
                Option::Some(tv) => load_todo_rows(recs.drop_first(), todo_upsert(acc, tv)),
            },
        }
    }
}

/// The todos table a file's content denotes.
pub open spec fn load_todos_spec(content: Seq<char>) -> Option<Seq<TodoView>> {
    match crate::codec::split_records_spec(content) {
        Option::None => None,
        Option::Some(recs) => if recs.len() == 0 || recs[0] != todos_header_spec() {
            None
        } else {
            load_todo_rows(recs.drop_first(), Seq::empty())
        },
    }
}

/// Like `load_timer_rows`, for marks: each row is inserted at its canonical
/// place, which groups marks by timer and orders them by recorded time.
pub open spec fn load_mark_rows(recs: Seq<Seq<char>>, acc: Seq<MarkView>) -> Option<Seq<MarkView>>
    decreases recs.len(),
{
    if recs.len() == 0 {
        Some(acc)
    } else if recs[0].len() == 0 {
        load_mark_rows(recs.drop_first(), acc)
    } else {
        match crate::codec::parse_line_spec(recs[0]) {
            Option::None => None,
            Option::Some(f) => match mark_of_fields(f) {
                Option::None => None,
                Option::Some(mv) => load_mark_rows(recs.drop_first(), mark_insert(acc, mv)),
            },
        }
    }
}

/// The marks table a file's content denotes.
pub open spec fn load_marks_spec(content: Seq<char>) -> Option<Seq<MarkView>> {
    match crate::codec::split_records_spec(content) {
        Option::None => None,
        Option::Some(recs) => if recs.len() == 0 || recs[0] != marks_header_spec() {
            None
        } else {
            load_mark_rows(recs.drop_first(), Seq::empty())
        },
    }
}

fn header_mismatch_message(expected: &str, got: &str) -> (r: String) {
    let mut m = String::from_str("csv header mismatch: expected '");
    m.append(expected);
    m.append("', got '");
    m.append(got);
    m.append("'");
    m
}

fn load_timers(content: &str) -> (r: AppResult<Vec<Timer>>)
    ensures
        match r {
            Ok(v) => load_timers_spec(content@) == Some(timer_views(v@)) && timers_sorted(
                timer_views(v@),
            ),
            Err(e) => load_timers_spec(content@) is None && e matches AppError::Internal(_),
        },
{
    let records = match crate::codec::split_csv_records(content) {
        Ok(rs) => rs,
        Err(e) => {
            return Err(e);
        },
    };
    let ghost rv = crate::text::str_views(records@);
    let expected = timers_header();
    if records.len() == 0 {
        return Err(AppError::Internal(header_mismatch_message(expected.as_str(), "")));
    }
    proof {
        assert(rv[0] == records@[0]@);
    }
    if !crate::text::str_eq(records[0].as_str(), expected.as_str()) {
        return Err(
            AppError::Internal(header_mismatch_message(expected.as_str(), records[0].as_str())),
        );
    }
    let mut out: Vec<Timer> = Vec::new();
    proof {
        assert(timer_views(out@) =~= Seq::<TimerView>::empty());
        assert(rv.drop_first() =~= rv.skip(1));
        assert(timers_sorted(timer_views(out@)));
    }
    let mut i: usize = 1;
    while i < records.len()
        invariant
            1 <= i <= records@.len(),
            rv == crate::text::str_views(records@),
            rv.len() == records@.len(),
            timers_sorted(timer_views(out@)),
            load_timers_spec(content@) == load_timer_rows(rv.skip(i as int), timer_views(out@)),
        decreases records@.len() - i,
    {
        proof {
            let t = rv.skip(i as int);
            assert(t[0] == rv[i as int]);
            assert(rv[i as int] == records@[i as int]@);
            assert(t.drop_first() =~= rv.skip(i as int + 1));
        }
        if records[i].as_str().unicode_len() > 0 {
            let fields = match crate::codec::parse_csv_line(records[i].as_str()) {
                Ok(f) => f,
                Err(e) => {
                    return Err(e);
                },
            };
            let t = match timer_from_fields(&fields) {
                Ok(t) => t,
                Err(e) => {
                    return Err(e);
                },
            };
            timer_table_upsert(&mut out, t);
        }
        i = i + 1;
    }
    proof {
        assert(rv.skip(records@.len() as int) =~= Seq::<Seq<char>>::empty());
    }
    Ok(out)
}

fn load_todos(content: &str) -> (r: AppResult<Vec<Todo>>)
    ensures
        match r {
            Ok(v) => load_todos_spec(content@) == Some(todo_views(v@)) && todos_sorted(
                todo_views(v@),
            ),
            Err(e) => load_todos_spec(content@) is None && e matches AppError::Internal(_),
        },
{
    let records = match crate::codec::split_csv_records(content) {
        Ok(rs) => rs,
        Err(e) => {
            return Err(e);
        },
    };
    let ghost rv = crate::text::str_views(records@);
    let expected = todos_header();
    if records.len() == 0 {
        return Err(AppError::Internal(header_mismatch_message(expected.as_str(), "")));
    }
    proof {
        assert(rv[0] == records@[0]@);
    }
    if !crate::text::str_eq(records[0].as_str(), expected.as_str()) {
        return Err(
            AppError::Internal(header_mismatch_message(expected.as_str(), records[0].as_str())),
        );
    }
    let mut out: Vec<Todo> = Vec::new();
    proof {
        assert(todo_views(out@) =~= Seq::<TodoView>::empty());
        assert(rv.drop_first() =~= rv.skip(1));
        assert(todos_sorted(todo_views(out@)));
    }
    let mut i: usize = 1;
    while i < records.len()
        invariant
            1 <= i <= records@.len(),
            rv == crate::text::str_views(records@),
            rv.len() == records@.len(),
            todos_sorted(todo_views(out@)),
            load_todos_spec(content@) == load_todo_rows(rv.skip(i as int), todo_views(out@)),
        decreases records@.len() - i,
    {
        proof {
            let t = rv.skip(i as int);
            assert(t[0] == rv[i as int]);
            assert(rv[i as int] == records@[i as int]@);
            assert(t.drop_first() =~= rv.skip(i as int + 1));
        }
        if records[i].as_str().unicode_len() > 0 {
            let fields = match crate::codec::parse_csv_line(records[i].as_str()) {
                Ok(f) => f,
                Err(e) => {
                    return Err(e);
                },
            };
            let t = match todo_from_fields(&fields) {
                Ok(t) => t,
                Err(e) => {
                    return Err(e);
                },
            };
            todo_table_upsert(&mut out, t);
        }
        i = i + 1;
    }
    proof {
        assert(rv.skip(records@.len() as int) =~= Seq::<Seq<char>>::empty());
    }
    Ok(out)
}

fn load_marks(content: &str) -> (r: AppResult<Vec<Mark>>)
    ensures
        match r {
            Ok(v) => load_marks_spec(content@) == Some(mark_views(v@)) && marks_sorted(
                mark_views(v@),
            ),
            Err(e) => load_marks_spec(content@) is None && e matches AppError::Internal(_),
        },
{
    let records = match crate::codec::split_csv_records(content) {
        Ok(rs) => rs,
        Err(e) => {
            return Err(e);
        },
    };
    let ghost rv = crate::text::str_views(records@);
    let expected = marks_header();
    if records.len() == 0 {
        return Err(AppError::Internal(header_mismatch_message(expected.as_str(), "")));
    }
    proof {
        assert(rv[0] == records@[0]@);
    }
    if !crate::text::str_eq(records[0].as_str(), expected.as_str()) {
        return Err(
            AppError::Internal(header_mismatch_message(expected.as_str(), records[0].as_str())),
        );
    }
    let mut out: Vec<Mark> = Vec::new();
    proof {
        assert(mark_views(out@) =~= Seq::<MarkView>::empty());
        assert(rv.drop_first() =~= rv.skip(1));
        assert(marks_sorted(mark_views(out@)));
    }
    let mut i: usize = 1;
    while i < records.len()
        invariant
            1 <= i <= records@.len(),
            rv == crate::text::str_views(records@),
            rv.len() == records@.len(),
            marks_sorted(mark_views(out@)),
            load_marks_spec(content@) == load_mark_rows(rv.skip(i as int), mark_views(out@)),
        decreases records@.len() - i,
    {
        proof {
            let t = rv.skip(i as int);
            assert(t[0] == rv[i as int]);
            assert(rv[i as int] == records@[i as int]@);
            assert(t.drop_first() =~= rv.skip(i as int + 1));
        }
        if records[i].as_str().unicode_len() > 0 {
            let fields = match crate::codec::parse_csv_line(records[i].as_str()) {
                Ok(f) => f,
                Err(e) => {
                    return Err(e);
                },
            };
            let m = match mark_from_fields(&fields) {
                Ok(m) => m,
                Err(e) => {
                    return Err(e);
                },
            };
            mark_table_insert(&mut out, m);
        }
        i = i + 1;
    }
    proof {
        assert(rv.skip(records@.len() as int) =~= Seq::<Seq<char>>::empty());
    }
    Ok(out)
}

impl CsvStore {
    /// Builds the store from the full contents of the three files: each
    /// header row must match its expected schema exactly, and every row
    /// must decode into a well-formed entity; any violation is a fatal
    /// construction error.
    pub fn from_contents(timers_text: &str, todos_text: &str, marks_text: &str) -> (r: AppResult<
        CsvStore,
    >)
        ensures
            match r {
                Ok(st) => {
                    &&& st.inv()
                    &&& st.infallible()
                    &&& load_timers_spec(timers_text@) == Some(st.timers_seq())
                    &&& load_todos_spec(todos_text@) == Some(st.todos_seq())
                    &&& load_marks_spec(marks_text@) == Some(st.marks_seq())
                },
                Err(e) => {
                    &&& (load_timers_spec(timers_text@) is None || load_todos_spec(todos_text@)
                        is None || load_marks_spec(marks_text@) is None)
                    &&& e matches AppError::Internal(_)
                },
            },
    {
        let timers = match load_timers(timers_text) {
            Ok(v) => v,
            Err(e) => {
                return Err(e);
            },
        };
        let marks = match load_marks(marks_text) {
            Ok(v) => v,
            Err(e) => {
                return Err(e);
            },
        };
        let todos = match load_todos(todos_text) {
            Ok(v) => v,
            Err(e) => {
                return Err(e);
            },
        };
        Ok(CsvStore { timers, todos, marks })
    }
}

} // verus!
