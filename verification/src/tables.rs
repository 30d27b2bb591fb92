//! Canonical in-memory tables for the three collections.  Each table is a
//! vector kept strictly sorted by its deterministic persistence key — timers
//! and todos by id, marks by (timer id, recorded time, id) — so the on-disk
//! byte content is a pure function of the collection state.

use crate::model::Mark;
use crate::model::MarkView;
use crate::model::Timer;
use crate::model::TimerView;
use crate::model::Todo;
use crate::model::TodoView;
use crate::text;
use crate::text::lex_lt;
use vstd::prelude::*;

verus! {

/// The views of a sequence of timers.
pub open spec fn timer_views(s: Seq<Timer>) -> Seq<TimerView> {
    Seq::new(s.len(), |i: int| s[i]@)
}

/// The views of a sequence of todos.
pub open spec fn todo_views(s: Seq<Todo>) -> Seq<TodoView> {
    Seq::new(s.len(), |i: int| s[i]@)
}

/// The views of a sequence of marks.
pub open spec fn mark_views(s: Seq<Mark>) -> Seq<MarkView> {
    Seq::new(s.len(), |i: int| s[i]@)
}

/// Strictly ascending ids: the canonical order of the timers file.
pub open spec fn timers_sorted(s: Seq<TimerView>) -> bool {
    forall|i: int, j: int|
        #![trigger s[i], s[j]]
        0 <= i < j < s.len() ==> lex_lt(s[i].id, s[j].id)
}

/// Strictly ascending ids: the canonical order of the todos file.
pub open spec fn todos_sorted(s: Seq<TodoView>) -> bool {
    forall|i: int, j: int|
        #![trigger s[i], s[j]]
        0 <= i < j < s.len() ==> lex_lt(s[i].id, s[j].id)
}

/// The strict persistence order of marks: by timer id, then recorded time,
/// then id.
pub open spec fn mark_lt(a: MarkView, b: MarkView) -> bool {
    ||| lex_lt(a.timer_id, b.timer_id)
    ||| (a.timer_id == b.timer_id && a.marked_at_minute < b.marked_at_minute)
    ||| (a.timer_id == b.timer_id && a.marked_at_minute == b.marked_at_minute && lex_lt(a.id, b.id))
}

/// Ascending persistence order: the canonical order of the marks file.
pub open spec fn marks_sorted(s: Seq<MarkView>) -> bool {
    forall|i: int, j: int|
        #![trigger s[i], s[j]]
        0 <= i < j < s.len() ==> !mark_lt(s[j], s[i])
}

/// Replaces the entry with the same id, or inserts the new entry at its
/// place in id order.
pub open spec fn timer_upsert(s: Seq<TimerView>, v: TimerView) -> Seq<TimerView>
    decreases s.len(),
{
    if s.len() == 0 {
        seq![v]
    } else if lex_lt(s[0].id, v.id) {
        seq![s[0]] + timer_upsert(s.drop_first(), v)
    } else if s[0].id == v.id {
        seq![v] + s.drop_first()
    } else {
        seq![v] + s
    }
}

/// Replaces the entry with the same id, or inserts the new entry at its
/// place in id order.
pub open spec fn todo_upsert(s: Seq<TodoView>, v: TodoView) -> Seq<TodoView>
    decreases s.len(),
{
    if s.len() == 0 {
        seq![v]
    } else if lex_lt(s[0].id, v.id) {
        seq![s[0]] + todo_upsert(s.drop_first(), v)
    } else if s[0].id == v.id {
        seq![v] + s.drop_first()
    } else {
        seq![v] + s
    }
}

/// Inserts a mark after every entry that does not come after it, keeping
/// the canonical order.
pub open spec fn mark_insert(s: Seq<MarkView>, m: MarkView) -> Seq<MarkView>
    decreases s.len(),
{
    if s.len() == 0 {
        seq![m]
    } else if !mark_lt(m, s.last()) {
        s.push(m)
    } else {
        mark_insert(s.drop_last(), m).push(s.last())
    }
}

/// The first entry with the given id, scanning from the front.
pub open spec fn timer_lookup(s: Seq<TimerView>, id: Seq<char>) -> Option<TimerView>
    decreases s.len(),
{
    if s.len() == 0 {
        None
    } else if s[0].id == id {
        Some(s[0])
    } else {
        timer_lookup(s.drop_first(), id)
    }
}

/// The first entry with the given id, scanning from the front.
pub open spec fn todo_lookup(s: Seq<TodoView>, id: Seq<char>) -> Option<TodoView>
    decreases s.len(),
{
    if s.len() == 0 {
        None
    } else if s[0].id == id {
        Some(s[0])
    } else {
        todo_lookup(s.drop_first(), id)
    }
}

/// The sequence with the first entry of the given id removed.
pub open spec fn todo_remove(s: Seq<TodoView>, id: Seq<char>) -> Seq<TodoView>
    decreases s.len(),
{
    if s.len() == 0 {
        s
    } else if s[0].id == id {
        s.drop_first()
    } else {
        seq![s[0]] + todo_remove(s.drop_first(), id)
    }
}

proof fn lemma_timer_upsert_at(s: Seq<TimerView>, v: TimerView, i: int)
    requires
        0 <= i <= s.len(),
        forall|k: int| #![trigger s[k]] 0 <= k < i ==> lex_lt(s[k].id, v.id),
        i < s.len() ==> !lex_lt(s[i].id, v.id),
    ensures
        i < s.len() && s[i].id == v.id ==> timer_upsert(s, v) == s.update(i, v),
        !(i < s.len() && s[i].id == v.id) ==> timer_upsert(s, v) == s.subrange(0, i) + seq![v]
            + s.subrange(i, s.len() as int),
    decreases s.len(),
{
    if i == 0 {
        if s.len() == 0 {
            assert(timer_upsert(s, v) =~= s.subrange(0, 0) + seq![v] + s.subrange(0, 0));
        } else if s[0].id == v.id {
            assert(seq![v] + s.drop_first() =~= s.update(0, v));
        } else {
            assert(seq![v] + s =~= s.subrange(0, 0) + seq![v] + s.subrange(0, s.len() as int));
        }
    } else {
        assert(lex_lt(s[0].id, v.id));
        let t = s.drop_first();
        assert(forall|k: int| #![trigger t[k]] 0 <= k < i - 1 ==> lex_lt(t[k].id, v.id)) by {
            assert(forall|k: int| 0 <= k < i - 1 ==> t[k] == s[k + 1]);
        }
        lemma_timer_upsert_at(t, v, i - 1);
        if i < s.len() && s[i].id == v.id {
            assert(t[i - 1] == s[i]);
            assert(seq![s[0]] + t.update(i - 1, v) =~= s.update(i, v));
        } else {
            assert(seq![s[0]] + (t.subrange(0, i - 1) + seq![v] + t.subrange(i - 1, t.len() as int))
                =~= s.subrange(0, i) + seq![v] + s.subrange(i, s.len() as int));
        }
    }
}

/// Upserting an entry whose id comes after every present id appends it.
pub proof fn lemma_timer_upsert_append(s: Seq<TimerView>, v: TimerView)
    requires
        forall|k: int| #![trigger s[k]] 0 <= k < s.len() ==> lex_lt(s[k].id, v.id),
    ensures
        timer_upsert(s, v) == s.push(v),
{
    if s.len() > 0 {
        text::lemma_lex_asym(s[s.len() - 1].id, v.id);
    }
    lemma_timer_upsert_at(s, v, s.len() as int);
    assert(s.subrange(0, s.len() as int) + seq![v] + s.subrange(s.len() as int, s.len() as int)
        =~= s.push(v));
}

/// Upserting an entry with the same id as the last one replaces it.
pub proof fn lemma_timer_upsert_last(s: Seq<TimerView>, v: TimerView)
    requires
        timers_sorted(s),
        s.len() > 0,
        s.last().id == v.id,
    ensures
        timer_upsert(s, v) == s.drop_last().push(v),
{
    assert(forall|k: int| #![trigger s[k]] 0 <= k < s.len() - 1 ==> lex_lt(s[k].id, v.id));
    text::lemma_lex_irrefl(v.id);
    lemma_timer_upsert_at(s, v, s.len() - 1);
    assert(s[s.len() - 1].id == v.id);
    assert(s.update(s.len() - 1, v) =~= s.drop_last().push(v));
}

/// Upserting an entry that comes before the last one leaves the last in
/// place.
pub proof fn lemma_timer_upsert_inner(s: Seq<TimerView>, v: TimerView)
    requires
        s.len() > 0,
        lex_lt(v.id, s.last().id),
    ensures
        timer_upsert(s, v) == timer_upsert(s.drop_last(), v).push(s.last()),
    decreases s.len(),
{
    text::lemma_lex_asym(v.id, s.last().id);
    if s.len() == 1 {
        assert(s[0] == s.last());
        assert(timer_upsert(s, v) == seq![v] + s);
        assert(s.drop_last() =~= Seq::<TimerView>::empty());
        assert(timer_upsert(s.drop_last(), v) =~= seq![v]);
        assert(seq![v].push(s.last()) =~= seq![v] + s);
    } else {
        let d = s.drop_last();
        assert(d[0] == s[0]);
        assert(d.len() > 0);
        if lex_lt(s[0].id, v.id) {
            assert(s.drop_first().last() == s.last());
            lemma_timer_upsert_inner(s.drop_first(), v);
            assert(s.drop_first().drop_last() =~= d.drop_first());
            assert(timer_upsert(s, v) == seq![s[0]] + (timer_upsert(d.drop_first(), v).push(
                s.last(),
            )));
            assert(timer_upsert(d, v) == seq![d[0]] + timer_upsert(d.drop_first(), v));
            assert(seq![s[0]] + (timer_upsert(d.drop_first(), v).push(s.last())) =~= (seq![s[0]]
                + timer_upsert(d.drop_first(), v)).push(s.last()));
        } else if s[0].id == v.id {
            assert(timer_upsert(s, v) == seq![v] + s.drop_first());
            assert(timer_upsert(d, v) == seq![v] + d.drop_first());
            assert((seq![v] + d.drop_first()).push(s.last()) =~= seq![v] + s.drop_first());
        } else {
            assert(timer_upsert(s, v) == seq![v] + s);
            assert(timer_upsert(d, v) == seq![v] + d);
            assert((seq![v] + d).push(s.last()) =~= seq![v] + s);
        }
    }
}

/// Upserting an entry whose id comes after every present id appends it.
pub proof fn lemma_todo_upsert_append(s: Seq<TodoView>, v: TodoView)
    requires
        forall|k: int| #![trigger s[k]] 0 <= k < s.len() ==> lex_lt(s[k].id, v.id),
    ensures
        todo_upsert(s, v) == s.push(v),
{
    if s.len() > 0 {
        text::lemma_lex_asym(s[s.len() - 1].id, v.id);
    }
    lemma_todo_upsert_at(s, v, s.len() as int);
    assert(s.subrange(0, s.len() as int) + seq![v] + s.subrange(s.len() as int, s.len() as int)
        =~= s.push(v));
}

/// Upserting an entry with the same id as the last one replaces it.
pub proof fn lemma_todo_upsert_last(s: Seq<TodoView>, v: TodoView)
    requires
        todos_sorted(s),
        s.len() > 0,
        s.last().id == v.id,
    ensures
        todo_upsert(s, v) == s.drop_last().push(v),
{
    assert(forall|k: int| #![trigger s[k]] 0 <= k < s.len() - 1 ==> lex_lt(s[k].id, v.id));
    text::lemma_lex_irrefl(v.id);
    lemma_todo_upsert_at(s, v, s.len() - 1);
    assert(s[s.len() - 1].id == v.id);
    assert(s.update(s.len() - 1, v) =~= s.drop_last().push(v));
}

/// Upserting an entry that comes before the last one leaves the last in
/// place.
pub proof fn lemma_todo_upsert_inner(s: Seq<TodoView>, v: TodoView)
    requires
        s.len() > 0,
        lex_lt(v.id, s.last().id),
    ensures
        todo_upsert(s, v) == todo_upsert(s.drop_last(), v).push(s.last()),
    decreases s.len(),
{
    text::lemma_lex_asym(v.id, s.last().id);
    if s.len() == 1 {
        assert(s[0] == s.last());
        assert(todo_upsert(s, v) == seq![v] + s);
        assert(s.drop_last() =~= Seq::<TodoView>::empty());
        assert(todo_upsert(s.drop_last(), v) =~= seq![v]);
        assert(seq![v].push(s.last()) =~= seq![v] + s);
    } else {
        let d = s.drop_last();
        assert(d[0] == s[0]);
        assert(d.len() > 0);
        if lex_lt(s[0].id, v.id) {
            assert(s.drop_first().last() == s.last());
            lemma_todo_upsert_inner(s.drop_first(), v);
            assert(s.drop_first().drop_last() =~= d.drop_first());
            assert(todo_upsert(s, v) == seq![s[0]] + (todo_upsert(d.drop_first(), v).push(
                s.last(),
            )));
            assert(todo_upsert(d, v) == seq![d[0]] + todo_upsert(d.drop_first(), v));
            assert(seq![s[0]] + (todo_upsert(d.drop_first(), v).push(s.last())) =~= (seq![s[0]]
                + todo_upsert(d.drop_first(), v)).push(s.last()));
        } else if s[0].id == v.id {
            assert(todo_upsert(s, v) == seq![v] + s.drop_first());
            assert(todo_upsert(d, v) == seq![v] + d.drop_first());
            assert((seq![v] + d.drop_first()).push(s.last()) =~= seq![v] + s.drop_first());
        } else {
            assert(todo_upsert(s, v) == seq![v] + s);
            assert(todo_upsert(d, v) == seq![v] + d);
            assert((seq![v] + d).push(s.last()) =~= seq![v] + s);
        }
    }
}

/// Copies a timer field by field.
pub fn timer_dup(t: &Timer) -> (r: Timer)
    ensures
        r == *t,
{
    Timer {
        id: t.id.clone(),
        name: t.name.clone(),
        target_at_minute: t.target_at_minute,
        created_at_minute: t.created_at_minute,
        updated_at_minute: t.updated_at_minute,
        archived: t.archived,
    }
}

/// Copies a todo field by field.
pub fn todo_dup(t: &Todo) -> (r: Todo)
    ensures
        r == *t,
{
    Todo {
        id: t.id.clone(),
        timer_id: t.timer_id.clone(),
        title: t.title.clone(),
        status: t.status,
        created_at_minute: t.created_at_minute,
        updated_at_minute: t.updated_at_minute,
        done_at_minute: t.done_at_minute,
    }
}

/// Copies a mark field by field; the copy has the same mathematical value.
pub fn mark_dup(m: &Mark) -> (r: Mark)
    ensures
        r@ == m@,
        r.id == m.id,
        r.timer_id == m.timer_id,
{
    let mut ids: Vec<String> = Vec::new();
    let mut i: usize = 0;
    while i < m.todo_ids.len()
        invariant
            0 <= i <= m.todo_ids@.len(),
            ids@.len() == i,
            forall|k: int| 0 <= k < i ==> ids@[k] == m.todo_ids@[k],
        decreases m.todo_ids@.len() - i,
    {
        ids.push(m.todo_ids[i].clone());
        i = i + 1;
    }
    proof {
        assert(ids@ =~= m.todo_ids@);
    }
    let r = Mark {
        id: m.id.clone(),
        timer_id: m.timer_id.clone(),
        marked_at_minute: m.marked_at_minute,
        prev_marked_at_minute: m.prev_marked_at_minute,
        duration_minutes: m.duration_minutes,
        description: m.description.clone(),
        todo_ids: ids,
    };
    proof {
        assert(r@.todo_ids =~= m@.todo_ids);
    }
    r
}

/// Inserts or replaces a timer, keeping the table in id order.
pub fn timer_table_upsert(v: &mut Vec<Timer>, t: Timer)
    requires
        timers_sorted(timer_views(old(v)@)),
    ensures
        timer_views(final(v)@) == timer_upsert(timer_views(old(v)@), t@),
        timers_sorted(timer_views(final(v)@)),
{
    let ghost s = timer_views(v@);
    let mut i: usize = 0;
    while i < v.len() && str_lt_pair(&v[i].id, &t.id)
        invariant
            0 <= i <= v@.len(),
            s == timer_views(v@),
            timers_sorted(s),
            s.len() == v@.len(),
            forall|k: int| #![trigger s[k]] 0 <= k < i ==> lex_lt(s[k].id, t@.id),
        decreases v@.len() - i,
    {
        proof {
            assert(s[i as int].id == v@[i as int].id@);
        }
        i = i + 1;
    }
    proof {
        lemma_timer_upsert_at(s, t@, i as int);
    }
    if i < v.len() && str_eq_pair(&v[i].id, &t.id) {
        let ghost tv = t@;
        v.remove(i);
        v.insert(i, t);
        proof {
            assert(timer_views(v@) =~= s.update(i as int, tv));
            assert(timers_sorted(s.update(i as int, tv))) by {
                let u = s.update(i as int, tv);
                assert(forall|a: int, b: int|
                    #![trigger u[a], u[b]]
                    0 <= a < b < u.len() ==> (u[a].id == s[a].id && u[b].id == s[b].id));
            }
        }
    } else {
        let ghost tv = t@;
        v.insert(i, t);
        proof {
            let u = s.subrange(0, i as int) + seq![tv] + s.subrange(i as int, s.len() as int);
            assert(timer_views(v@) =~= u);
            if (i as int) < s.len() {
                assert(!lex_lt(s[i as int].id, tv.id));
                assert(s[i as int].id != tv.id);
                text::lemma_lex_total(s[i as int].id, tv.id);
                assert(lex_lt(tv.id, s[i as int].id));
            }
            assert(timers_sorted(u)) by {
                assert forall|a: int, b: int|
                    #![trigger u[a], u[b]]
                    0 <= a < b < u.len() implies lex_lt(u[a].id, u[b].id) by {
                    if a < i && b < i {
                        assert(u[a] == s[a] && u[b] == s[b]);
                    } else if a < i && b == i {
                        assert(u[a] == s[a] && u[b] == tv);
                    } else if a < i && b > i {
                        assert(u[a] == s[a] && u[b] == s[b - 1]);
                        if a < b - 1 {
                        } else {
                            assert(a == b - 1);
                            assert(a == i - 1 && b == i + 1);
                            assert(lex_lt(s[a].id, tv.id));
                            assert(lex_lt(tv.id, s[b - 1].id));
                            text::lemma_lex_trans(s[a].id, tv.id, s[b - 1].id);
                        }
                    } else if a == i && b > i {
                        assert(u[a] == tv && u[b] == s[b - 1]);
                        assert(lex_lt(tv.id, s[i as int].id));
                        if b - 1 > i {
                            text::lemma_lex_trans(tv.id, s[i as int].id, s[b - 1].id);
                        }
                    } else {
                        assert(a > i && b > i);
                        assert(u[a] == s[a - 1] && u[b] == s[b - 1]);
                    }
                }
            }
        }
    }
}

/// Decides the strict id order between two stored strings.
fn str_lt_pair(a: &String, b: &String) -> (r: bool)
    ensures
        r == lex_lt(a@, b@),
{
    text::str_lt(a.as_str(), b.as_str())
}

/// Decides equality between two stored strings.
fn str_eq_pair(a: &String, b: &String) -> (r: bool)
    ensures
        r == (a@ == b@),
{
    text::str_eq(a.as_str(), b.as_str())
}

/// Finds the timer with the given id.
pub fn timer_table_get(v: &Vec<Timer>, id: &str) -> (r: Option<Timer>)
    ensures
        match r {
            Some(t) => timer_lookup(timer_views(v@), id@) == Some(t@),
            None => timer_lookup(timer_views(v@), id@) is None,
        },
{
    let ghost s = timer_views(v@);
    proof {
        assert(s.skip(0) =~= s);
    }
    let mut i: usize = 0;
    while i < v.len()
        invariant
            0 <= i <= v@.len(),
            s == timer_views(v@),
            s.len() == v@.len(),
            timer_lookup(s, id@) == timer_lookup(s.skip(i as int), id@),
        decreases v@.len() - i,
    {
        proof {
            let t = s.skip(i as int);
            assert(t[0] == s[i as int]);
            assert(t.drop_first() =~= s.skip(i as int + 1));
        }
        if text::str_eq(v[i].id.as_str(), id) {
            return Some(timer_dup(&v[i]));
        }
        i = i + 1;
    }
    proof {
        assert(s.skip(s.len() as int) =~= Seq::<TimerView>::empty());
    }
    None
}

/// Whether listing keeps this timer.
pub open spec fn timer_kept(t: TimerView, include_archived: bool) -> bool {
    include_archived || !t.archived
}

/// The timers that listing keeps, in table order.
pub open spec fn timers_filter(s: Seq<TimerView>, include_archived: bool) -> Seq<TimerView>
    decreases s.len(),
{
    if s.len() == 0 {
        Seq::empty()
    } else if timer_kept(s.last(), include_archived) {
        timers_filter(s.drop_last(), include_archived).push(s.last())
    } else {
        timers_filter(s.drop_last(), include_archived)
    }
}

/// Stable insertion behind every entry with a target not after the new one.
pub open spec fn insert_by_target(s: Seq<TimerView>, v: TimerView) -> Seq<TimerView>
    decreases s.len(),
{
    if s.len() == 0 {
        seq![v]
    } else if s.last().target_at_minute <= v.target_at_minute {
        s.push(v)
    } else {
        insert_by_target(s.drop_last(), v).push(s.last())
    }
}

/// Stable insertion sort by target time ascending.
pub open spec fn sort_by_target(s: Seq<TimerView>) -> Seq<TimerView>
    decreases s.len(),
{
    if s.len() == 0 {
        Seq::empty()
    } else {
        insert_by_target(sort_by_target(s.drop_last()), s.last())
    }
}

proof fn lemma_insert_by_target_at(s: Seq<TimerView>, v: TimerView, k: int)
    requires
        0 <= k <= s.len(),
        forall|j: int| #![trigger s[j]] k <= j < s.len() ==> s[j].target_at_minute > v.target_at_minute,
        k > 0 ==> s[k - 1].target_at_minute <= v.target_at_minute,
    ensures
        insert_by_target(s, v) == s.subrange(0, k) + seq![v] + s.subrange(k, s.len() as int),
    decreases s.len(),
{
    if k == s.len() {
        if s.len() == 0 {
            assert(insert_by_target(s, v) =~= s.subrange(0, 0) + seq![v] + s.subrange(0, 0));
        } else {
            assert(s.last().target_at_minute <= v.target_at_minute);
            assert(s.push(v) =~= s.subrange(0, k) + seq![v] + s.subrange(k, s.len() as int));
        }
    } else {
        assert(s[s.len() - 1].target_at_minute > v.target_at_minute);
        let d = s.drop_last();
        assert(forall|j: int| #![trigger d[j]] k <= j < d.len() ==> d[j] == s[j]);
        if k > 0 {
            assert(d[k - 1] == s[k - 1]);
        }
        lemma_insert_by_target_at(d, v, k);
        assert((d.subrange(0, k) + seq![v] + d.subrange(k, d.len() as int)).push(s.last()) =~= s
            .subrange(0, k) + seq![v] + s.subrange(k, s.len() as int));
    }
}

/// Lists the kept timers sorted by target time ascending.
pub fn timer_table_list(v: &Vec<Timer>, include_archived: bool) -> (r: Vec<Timer>)
    ensures
        timer_views(r@) == sort_by_target(timers_filter(timer_views(v@), include_archived)),
{
    let ghost s = timer_views(v@);
    let mut out: Vec<Timer> = Vec::new();
    proof {
        assert(s.subrange(0, 0) =~= Seq::<TimerView>::empty());
        assert(timer_views(out@) =~= sort_by_target(
            timers_filter(s.subrange(0, 0), include_archived),
        ));
    }
    let mut i: usize = 0;
    while i < v.len()
        invariant
            0 <= i <= v@.len(),
            s == timer_views(v@),
            s.len() == v@.len(),
            timer_views(out@) == sort_by_target(
                timers_filter(s.subrange(0, i as int), include_archived),
            ),
        decreases v@.len() - i,
    {
        proof {
            assert(s.subrange(0, i as int + 1).drop_last() =~= s.subrange(0, i as int));
            assert(s.subrange(0, i as int + 1).last() == s[i as int]);
        }
        if include_archived || !v[i].archived {
            let t = timer_dup(&v[i]);
            let tt = t.target_at_minute;
            let ghost q = timer_views(out@);
            let mut k: usize = out.len();
            while k > 0 && tt < out[k - 1].target_at_minute
                invariant
                    0 <= k <= out@.len(),
                    0 <= i < v@.len(),
                    s == timer_views(v@),
                    s.len() == v@.len(),
                    q == timer_views(out@),
                    q == sort_by_target(timers_filter(s.subrange(0, i as int), include_archived)),
                    q.len() == out@.len(),
                    tt == t.target_at_minute,
                    t@ == s[i as int],
                    timer_kept(s[i as int], include_archived),
                    forall|j: int|
                        #![trigger q[j]]
                        k <= j < q.len() ==> q[j].target_at_minute > tt as int,
                decreases k,
            {
                proof {
                    assert(q[k - 1] == out@[k - 1]@);
                }
                k = k - 1;
            }
            proof {
                if k > 0 {
                    assert(q[k - 1] == out@[k - 1]@);
                }
                lemma_insert_by_target_at(q, t@, k as int);
            }
            out.insert(k, t);
            proof {
                assert(s.subrange(0, i as int + 1).drop_last() =~= s.subrange(0, i as int));
                assert(s.subrange(0, i as int + 1).last() == s[i as int]);
                assert(timer_views(out@) =~= q.subrange(0, k as int) + seq![s[i as int]]
                    + q.subrange(k as int, q.len() as int));
                assert(timer_views(out@) == insert_by_target(q, s[i as int]));
                let f = timers_filter(s.subrange(0, i as int), include_archived);
                assert(timers_filter(s.subrange(0, i as int + 1), include_archived) == f.push(
                    s[i as int],
                ));
                assert(f.push(s[i as int]).drop_last() =~= f);
                assert(f.push(s[i as int]).last() == s[i as int]);
                assert(sort_by_target(f.push(s[i as int])) == insert_by_target(
                    sort_by_target(f),
                    s[i as int],
                ));
            }
        }
        i = i + 1;
    }
    proof {
        assert(s.subrange(0, s.len() as int) =~= s);
    }
    out
}

proof fn lemma_todo_upsert_at(s: Seq<TodoView>, v: TodoView, i: int)
    requires
        0 <= i <= s.len(),
        forall|k: int| #![trigger s[k]] 0 <= k < i ==> lex_lt(s[k].id, v.id),
        i < s.len() ==> !lex_lt(s[i].id, v.id),
    ensures
        i < s.len() && s[i].id == v.id ==> todo_upsert(s, v) == s.update(i, v),
        !(i < s.len() && s[i].id == v.id) ==> todo_upsert(s, v) == s.subrange(0, i) + seq![v]
            + s.subrange(i, s.len() as int),
    decreases s.len(),
{
    if i == 0 {
        if s.len() == 0 {
            assert(todo_upsert(s, v) =~= s.subrange(0, 0) + seq![v] + s.subrange(0, 0));
        } else if s[0].id == v.id {
            assert(seq![v] + s.drop_first() =~= s.update(0, v));
        } else {
            assert(seq![v] + s =~= s.subrange(0, 0) + seq![v] + s.subrange(0, s.len() as int));
        }
    } else {
        assert(lex_lt(s[0].id, v.id));
        let t = s.drop_first();
        assert(forall|k: int| #![trigger t[k]] 0 <= k < i - 1 ==> lex_lt(t[k].id, v.id)) by {
            assert(forall|k: int| 0 <= k < i - 1 ==> t[k] == s[k + 1]);
        }
        lemma_todo_upsert_at(t, v, i - 1);
        if i < s.len() && s[i].id == v.id {
            assert(t[i - 1] == s[i]);
            assert(seq![s[0]] + t.update(i - 1, v) =~= s.update(i, v));
        } else {
            assert(seq![s[0]] + (t.subrange(0, i - 1) + seq![v] + t.subrange(i - 1, t.len() as int))
                =~= s.subrange(0, i) + seq![v] + s.subrange(i, s.len() as int));
        }
    }
}

/// Inserts or replaces a todo, keeping the table in id order.
pub fn todo_table_upsert(v: &mut Vec<Todo>, t: Todo)
    requires
        todos_sorted(todo_views(old(v)@)),
    ensures
        todo_views(final(v)@) == todo_upsert(todo_views(old(v)@), t@),
        todos_sorted(todo_views(final(v)@)),
{
    let ghost s = todo_views(v@);
    let mut i: usize = 0;
    while i < v.len() && str_lt_pair(&v[i].id, &t.id)
        invariant
            0 <= i <= v@.len(),
            s == todo_views(v@),
            todos_sorted(s),
            s.len() == v@.len(),
            forall|k: int| #![trigger s[k]] 0 <= k < i ==> lex_lt(s[k].id, t@.id),
        decreases v@.len() - i,
    {
        proof {
            assert(s[i as int].id == v@[i as int].id@);
        }
        i = i + 1;
    }
    proof {
        lemma_todo_upsert_at(s, t@, i as int);
    }
    if i < v.len() && str_eq_pair(&v[i].id, &t.id) {
        let ghost tv = t@;
        v.remove(i);
        v.insert(i, t);
        proof {
            assert(todo_views(v@) =~= s.update(i as int, tv));
            assert(todos_sorted(s.update(i as int, tv))) by {
                let u = s.update(i as int, tv);
                assert(forall|a: int, b: int|
                    #![trigger u[a], u[b]]
                    0 <= a < b < u.len() ==> (u[a].id == s[a].id && u[b].id == s[b].id));
            }
        }
    } else {
        let ghost tv = t@;
        v.insert(i, t);
        proof {
            let u = s.subrange(0, i as int) + seq![tv] + s.subrange(i as int, s.len() as int);
            assert(todo_views(v@) =~= u);
            if (i as int) < s.len() {
                assert(!lex_lt(s[i as int].id, tv.id));
                assert(s[i as int].id != tv.id);
                text::lemma_lex_total(s[i as int].id, tv.id);
                assert(lex_lt(tv.id, s[i as int].id));
            }
            assert(todos_sorted(u)) by {
                assert forall|a: int, b: int|
                    #![trigger u[a], u[b]]
                    0 <= a < b < u.len() implies lex_lt(u[a].id, u[b].id) by {
                    if a < i && b < i {
                        assert(u[a] == s[a] && u[b] == s[b]);
                    } else if a < i && b == i {
                        assert(u[a] == s[a] && u[b] == tv);
                    } else if a < i && b > i {
                        assert(u[a] == s[a] && u[b] == s[b - 1]);
                        if a < b - 1 {
                        } else {
                            assert(lex_lt(s[a].id, tv.id));
                            assert(lex_lt(tv.id, s[b - 1].id));
                            text::lemma_lex_trans(s[a].id, tv.id, s[b - 1].id);
                        }
                    } else if a == i && b > i {
                        assert(u[a] == tv && u[b] == s[b - 1]);
                        assert(lex_lt(tv.id, s[i as int].id));
                        if b - 1 > i {
                            text::lemma_lex_trans(tv.id, s[i as int].id, s[b - 1].id);
                        }
                    } else {
                        assert(a > i && b > i);
                        assert(u[a] == s[a - 1] && u[b] == s[b - 1]);
                    }
                }
            }
        }
    }
}

/// Finds the todo with the given id.
pub fn todo_table_get(v: &Vec<Todo>, id: &str) -> (r: Option<Todo>)
    ensures
        match r {
            Some(t) => todo_lookup(todo_views(v@), id@) == Some(t@),
            None => todo_lookup(todo_views(v@), id@) is None,
        },
{
    let ghost s = todo_views(v@);
    proof {
        assert(s.skip(0) =~= s);
    }
    let mut i: usize = 0;
    while i < v.len()
        invariant
            0 <= i <= v@.len(),
            s == todo_views(v@),
            s.len() == v@.len(),
            todo_lookup(s, id@) == todo_lookup(s.skip(i as int), id@),
        decreases v@.len() - i,
    {
        proof {
            let t = s.skip(i as int);
            assert(t[0] == s[i as int]);
            assert(t.drop_first() =~= s.skip(i as int + 1));
        }
        if text::str_eq(v[i].id.as_str(), id) {
            return Some(todo_dup(&v[i]));
        }
        i = i + 1;
    }
    proof {
        assert(s.skip(s.len() as int) =~= Seq::<TodoView>::empty());
    }
    None
}

proof fn lemma_todo_remove_at(s: Seq<TodoView>, id: Seq<char>, i: int)
    requires
        0 <= i <= s.len(),
        forall|k: int| #![trigger s[k]] 0 <= k < i ==> s[k].id != id,
        i < s.len() ==> s[i].id == id,
    ensures
        i < s.len() ==> todo_remove(s, id) == s.subrange(0, i) + s.subrange(i + 1, s.len() as int),
        i == s.len() ==> todo_remove(s, id) == s,
    decreases s.len(),
{
    if i == 0 {
        if s.len() > 0 {
            assert(s.drop_first() =~= s.subrange(0, 0) + s.subrange(1, s.len() as int));
        }
    } else {
        assert(s[0].id != id);
        let t = s.drop_first();
        assert(forall|k: int| #![trigger t[k]] 0 <= k < i - 1 ==> t[k] == s[k + 1]);
        if i < s.len() {
            assert(t[i - 1] == s[i]);
        }
        lemma_todo_remove_at(t, id, i - 1);
        if i < s.len() {
            assert(seq![s[0]] + (t.subrange(0, i - 1) + t.subrange(i, t.len() as int)) =~= s
                .subrange(0, i) + s.subrange(i + 1, s.len() as int));
        } else {
            assert(seq![s[0]] + t =~= s);
        }
    }
}

/// Removing an id that is absent leaves the sequence unchanged.
pub proof fn lemma_todo_remove_absent(s: Seq<TodoView>, id: Seq<char>)
    requires
        todo_lookup(s, id) is None,
    ensures
        todo_remove(s, id) == s,
    decreases s.len(),
{
    if s.len() > 0 {
        lemma_todo_remove_absent(s.drop_first(), id);
        assert(seq![s[0]] + s.drop_first() =~= s);
    }
}

/// Removes the todo with the given id; reports whether it was present.
pub fn todo_table_remove(v: &mut Vec<Todo>, id: &str) -> (r: bool)
    requires
        todos_sorted(todo_views(old(v)@)),
    ensures
        todo_views(final(v)@) == todo_remove(todo_views(old(v)@), id@),
        todos_sorted(todo_views(final(v)@)),
        r == (todo_lookup(todo_views(old(v)@), id@) is Some),
{
    let ghost s = todo_views(v@);
    proof {
        assert(s.skip(0) =~= s);
    }
    let mut i: usize = 0;
    while i < v.len()
        invariant
            0 <= i <= v@.len(),
            v@ == old(v)@,
            s == todo_views(v@),
            todos_sorted(s),
            s.len() == v@.len(),
            forall|k: int| #![trigger s[k]] 0 <= k < i ==> s[k].id != id@,
            todo_lookup(s, id@) == todo_lookup(s.skip(i as int), id@),
        decreases v@.len() - i,
    {
        proof {
            let t = s.skip(i as int);
            assert(t[0] == s[i as int]);
            assert(t.drop_first() =~= s.skip(i as int + 1));
        }
        if text::str_eq(v[i].id.as_str(), id) {
            proof {
                assert(s[i as int] == v@[i as int]@);
                assert(s[i as int].id == id@);
                assert(todo_lookup(s.skip(i as int), id@) == Some(s[i as int]));
                lemma_todo_remove_at(s, id@, i as int);
            }
            v.remove(i);
            proof {
                let u = s.subrange(0, i as int) + s.subrange(i as int + 1, s.len() as int);
                assert(todo_views(v@) =~= u);
                assert(todos_sorted(u)) by {
                    assert forall|a: int, b: int|
                        #![trigger u[a], u[b]]
                        0 <= a < b < u.len() implies lex_lt(u[a].id, u[b].id) by {
                        let a2 = if a < i {
                            a
                        } else {
                            a + 1
                        };
                        let b2 = if b < i {
                            b
                        } else {
                            b + 1
                        };
                        assert(u[a] == s[a2] && u[b] == s[b2]);
                    }
                }
            }
            return true;
        }
        i = i + 1;
    }
    proof {
        assert(s.skip(s.len() as int) =~= Seq::<TodoView>::empty());
        lemma_todo_remove_at(s, id@, s.len() as int);
    }
    false
}

/// Whether listing for a timer keeps this todo.
pub open spec fn todos_filter(s: Seq<TodoView>, tid: Seq<char>) -> Seq<TodoView>
    decreases s.len(),
{
    if s.len() == 0 {
        Seq::empty()
    } else if s.last().timer_id == tid {
        todos_filter(s.drop_last(), tid).push(s.last())
    } else {
        todos_filter(s.drop_last(), tid)
    }
}

/// Stable insertion behind every entry created not after the new one.
pub open spec fn insert_by_created(s: Seq<TodoView>, v: TodoView) -> Seq<TodoView>
    decreases s.len(),
{
    if s.len() == 0 {
        seq![v]
    } else if s.last().created_at_minute <= v.created_at_minute {
        s.push(v)
    } else {
        insert_by_created(s.drop_last(), v).push(s.last())
    }
}

/// Stable insertion sort by creation time ascending.
pub open spec fn sort_by_created(s: Seq<TodoView>) -> Seq<TodoView>
    decreases s.len(),
{
    if s.len() == 0 {
        Seq::empty()
    } else {
        insert_by_created(sort_by_created(s.drop_last()), s.last())
    }
}

proof fn lemma_insert_by_created_at(s: Seq<TodoView>, v: TodoView, k: int)
    requires
        0 <= k <= s.len(),
        forall|j: int|
            #![trigger s[j]]
            k <= j < s.len() ==> s[j].created_at_minute > v.created_at_minute,
        k > 0 ==> s[k - 1].created_at_minute <= v.created_at_minute,
    ensures
        insert_by_created(s, v) == s.subrange(0, k) + seq![v] + s.subrange(k, s.len() as int),
    decreases s.len(),
{
    if k == s.len() {
        if s.len() == 0 {
            assert(insert_by_created(s, v) =~= s.subrange(0, 0) + seq![v] + s.subrange(0, 0));
        } else {
            assert(s.push(v) =~= s.subrange(0, k) + seq![v] + s.subrange(k, s.len() as int));
        }
    } else {
        assert(s[s.len() - 1].created_at_minute > v.created_at_minute);
        let d = s.drop_last();
        assert(forall|j: int| #![trigger d[j]] k <= j < d.len() ==> d[j] == s[j]);
        if k > 0 {
            assert(d[k - 1] == s[k - 1]);
        }
        lemma_insert_by_created_at(d, v, k);
        assert((d.subrange(0, k) + seq![v] + d.subrange(k, d.len() as int)).push(s.last()) =~= s
            .subrange(0, k) + seq![v] + s.subrange(k, s.len() as int));
    }
}

/// Lists the todos of one timer sorted by creation time ascending.
pub fn todo_table_list(v: &Vec<Todo>, tid: &str) -> (r: Vec<Todo>)
    ensures
        todo_views(r@) == sort_by_created(todos_filter(todo_views(v@), tid@)),
{
    let ghost s = todo_views(v@);
    let mut out: Vec<Todo> = Vec::new();
    proof {
        assert(s.subrange(0, 0) =~= Seq::<TodoView>::empty());
        assert(todo_views(out@) =~= sort_by_created(todos_filter(s.subrange(0, 0), tid@)));
    }
    let mut i: usize = 0;
    while i < v.len()
        invariant
            0 <= i <= v@.len(),
            s == todo_views(v@),
            s.len() == v@.len(),
            todo_views(out@) == sort_by_created(todos_filter(s.subrange(0, i as int), tid@)),
        decreases v@.len() - i,
    {
        proof {
            assert(s.subrange(0, i as int + 1).drop_last() =~= s.subrange(0, i as int));
            assert(s.subrange(0, i as int + 1).last() == s[i as int]);
        }
        if text::str_eq(v[i].timer_id.as_str(), tid) {
            let t = todo_dup(&v[i]);
            let tt = t.created_at_minute;
            let ghost q = todo_views(out@);
            let mut k: usize = out.len();
            while k > 0 && tt < out[k - 1].created_at_minute
                invariant
                    0 <= k <= out@.len(),
                    0 <= i < v@.len(),
                    s == todo_views(v@),
                    s.len() == v@.len(),
                    q == todo_views(out@),
                    q == sort_by_created(todos_filter(s.subrange(0, i as int), tid@)),
                    q.len() == out@.len(),
                    tt == t.created_at_minute,
                    t@ == s[i as int],
                    s[i as int].timer_id == tid@,
                    forall|j: int|
                        #![trigger q[j]]
                        k <= j < q.len() ==> q[j].created_at_minute > tt as int,
                decreases k,
            {
                proof {
                    assert(q[k - 1] == out@[k - 1]@);
                }
                k = k - 1;
            }
            proof {
                if k > 0 {
                    assert(q[k - 1] == out@[k - 1]@);
                }
                lemma_insert_by_created_at(q, t@, k as int);
            }
            out.insert(k, t);
            proof {
                assert(s.subrange(0, i as int + 1).drop_last() =~= s.subrange(0, i as int));
                assert(s.subrange(0, i as int + 1).last() == s[i as int]);
                assert(todo_views(out@) =~= q.subrange(0, k as int) + seq![s[i as int]]
                    + q.subrange(k as int, q.len() as int));
                assert(todo_views(out@) == insert_by_created(q, s[i as int]));
                let f = todos_filter(s.subrange(0, i as int), tid@);
                assert(todos_filter(s.subrange(0, i as int + 1), tid@) == f.push(s[i as int]));
                assert(f.push(s[i as int]).drop_last() =~= f);
                assert(f.push(s[i as int]).last() == s[i as int]);
                assert(sort_by_created(f.push(s[i as int])) == insert_by_created(
                    sort_by_created(f),
                    s[i as int],
                ));
            }
        }
        i = i + 1;
    }
    proof {
        assert(s.subrange(0, s.len() as int) =~= s);
    }
    out
}

pub proof fn lemma_mark_lt_asym(a: MarkView, b: MarkView)
    requires
        mark_lt(a, b),
    ensures
        !mark_lt(b, a),
{
    if lex_lt(a.timer_id, b.timer_id) {
        text::lemma_lex_asym(a.timer_id, b.timer_id);
    } else if a.timer_id == b.timer_id && a.marked_at_minute == b.marked_at_minute {
        text::lemma_lex_asym(a.id, b.id);
    }
}

/// The reflexive persistence order is transitive.
pub proof fn lemma_mark_le_trans(a: MarkView, b: MarkView, c: MarkView)
    requires
        !mark_lt(b, a),
        !mark_lt(c, b),
    ensures
        !mark_lt(c, a),
{
    text::lemma_lex_le_trans(a.timer_id, b.timer_id, c.timer_id);
    if mark_lt(c, a) {
        assert(!lex_lt(c.timer_id, a.timer_id));
        assert(c.timer_id == a.timer_id);
        text::lemma_lex_total(b.timer_id, a.timer_id);
        if b.timer_id != a.timer_id {
            if lex_lt(b.timer_id, a.timer_id) {
                assert(mark_lt(b, a));
            } else {
                assert(lex_lt(a.timer_id, b.timer_id));
                assert(lex_lt(c.timer_id, b.timer_id));
            }
            assert(false);
        }
        assert(b.timer_id == a.timer_id && c.timer_id == b.timer_id);
        assert(b.marked_at_minute >= a.marked_at_minute);
        assert(c.marked_at_minute >= b.marked_at_minute);
        assert(c.marked_at_minute == a.marked_at_minute);
        assert(b.marked_at_minute == a.marked_at_minute);
        assert(!lex_lt(b.id, a.id));
        assert(!lex_lt(c.id, b.id));
        text::lemma_lex_le_trans(a.id, b.id, c.id);
    }
}

/// Decides the strict persistence order between two marks.
fn mark_lt_exec(a: &Mark, b: &Mark) -> (r: bool)
    ensures
        r == mark_lt(a@, b@),
{
    if text::str_lt(a.timer_id.as_str(), b.timer_id.as_str()) {
        true
    } else if text::str_eq(a.timer_id.as_str(), b.timer_id.as_str()) {
        if a.marked_at_minute < b.marked_at_minute {
            true
        } else if a.marked_at_minute == b.marked_at_minute {
            text::str_lt(a.id.as_str(), b.id.as_str())
        } else {
            false
        }
    } else {
        false
    }
}

proof fn lemma_mark_insert_at(s: Seq<MarkView>, m: MarkView, k: int)
    requires
        0 <= k <= s.len(),
        forall|j: int| #![trigger s[j]] k <= j < s.len() ==> mark_lt(m, s[j]),
        k > 0 ==> !mark_lt(m, s[k - 1]),
    ensures
        mark_insert(s, m) == s.subrange(0, k) + seq![m] + s.subrange(k, s.len() as int),
    decreases s.len(),
{
    if k == s.len() {
        if s.len() == 0 {
            assert(mark_insert(s, m) =~= s.subrange(0, 0) + seq![m] + s.subrange(0, 0));
        } else {
            assert(!mark_lt(m, s.last()));
            assert(s.push(m) =~= s.subrange(0, k) + seq![m] + s.subrange(k, s.len() as int));
        }
    } else {
        assert(mark_lt(m, s[s.len() - 1]));
        let d = s.drop_last();
        assert(forall|j: int| #![trigger d[j]] k <= j < d.len() ==> d[j] == s[j]);
        if k > 0 {
            assert(d[k - 1] == s[k - 1]);
        }
        lemma_mark_insert_at(d, m, k);
        assert((d.subrange(0, k) + seq![m] + d.subrange(k, d.len() as int)).push(s.last()) =~= s
            .subrange(0, k) + seq![m] + s.subrange(k, s.len() as int));
    }
}

/// Appends a mark at its place in the canonical persistence order.
pub fn mark_table_insert(v: &mut Vec<Mark>, m: Mark)
    requires
        marks_sorted(mark_views(old(v)@)),
    ensures
        mark_views(final(v)@) == mark_insert(mark_views(old(v)@), m@),
        marks_sorted(mark_views(final(v)@)),
{
    let ghost s = mark_views(v@);
    let ghost mv = m@;
    let mut k: usize = v.len();
    while k > 0 && mark_lt_exec(&m, &v[k - 1])
        invariant
            0 <= k <= v@.len(),
            s == mark_views(v@),
            marks_sorted(s),
            s.len() == v@.len(),
            mv == m@,
            forall|j: int| #![trigger s[j]] k <= j < s.len() ==> mark_lt(mv, s[j]),
        decreases k,
    {
        proof {
            assert(s[k - 1] == v@[k - 1]@);
        }
        k = k - 1;
    }
    proof {
        if k > 0 {
            assert(s[k - 1] == v@[k - 1]@);
        }
        lemma_mark_insert_at(s, mv, k as int);
    }
    v.insert(k, m);
    proof {
        let u = s.subrange(0, k as int) + seq![mv] + s.subrange(k as int, s.len() as int);
        assert(mark_views(v@) =~= u);
        assert(marks_sorted(u)) by {
            assert forall|a: int, b: int|
                #![trigger u[a], u[b]]
                0 <= a < b < u.len() implies !mark_lt(u[b], u[a]) by {
                let ki = k as int;
                if a < ki && b < ki {
                    assert(u[a] == s[a] && u[b] == s[b]);
                } else if a < ki && b == ki {
                    assert(u[a] == s[a] && u[b] == mv);
                    assert(!mark_lt(mv, s[ki - 1]));
                    if a < ki - 1 {
                        assert(!mark_lt(s[ki - 1], s[a]));
                        lemma_mark_le_trans(s[a], s[ki - 1], mv);
                    }
                } else if a < ki && b > ki {
                    assert(u[a] == s[a] && u[b] == s[b - 1]);
                } else if a == ki {
                    assert(u[a] == mv && u[b] == s[b - 1]);
                    assert(mark_lt(mv, s[b - 1]));
                    lemma_mark_lt_asym(mv, s[b - 1]);
                } else {
                    assert(u[a] == s[a - 1] && u[b] == s[b - 1]);
                }
            }
        }
    }
}

/// The marks of one timer, in table order.
pub open spec fn marks_filter(s: Seq<MarkView>, tid: Seq<char>) -> Seq<MarkView>
    decreases s.len(),
{
    if s.len() == 0 {
        Seq::empty()
    } else if s.last().timer_id == tid {
        marks_filter(s.drop_last(), tid).push(s.last())
    } else {
        marks_filter(s.drop_last(), tid)
    }
}

/// Lists the marks of one timer, in canonical order: recorded time
/// ascending, ties by id.
pub fn mark_table_list(v: &Vec<Mark>, tid: &str) -> (r: Vec<Mark>)
    ensures
        mark_views(r@) == marks_filter(mark_views(v@), tid@),
{
    let ghost s = mark_views(v@);
    let mut out: Vec<Mark> = Vec::new();
    proof {
        assert(s.subrange(0, 0) =~= Seq::<MarkView>::empty());
        assert(mark_views(out@) =~= marks_filter(s.subrange(0, 0), tid@));
    }
    let mut i: usize = 0;
    while i < v.len()
        invariant
            0 <= i <= v@.len(),
            s == mark_views(v@),
            s.len() == v@.len(),
            mark_views(out@) == marks_filter(s.subrange(0, i as int), tid@),
        decreases v@.len() - i,
    {
        proof {
            assert(s.subrange(0, i as int + 1).drop_last() =~= s.subrange(0, i as int));
            assert(s.subrange(0, i as int + 1).last() == s[i as int]);
        }
        if text::str_eq(v[i].timer_id.as_str(), tid) {
            let ghost q = mark_views(out@);
            out.push(mark_dup(&v[i]));
            proof {
                assert(mark_views(out@) =~= q.push(s[i as int]));
            }
        }
        i = i + 1;
    }
    proof {
        assert(s.subrange(0, s.len() as int) =~= s);
    }
    out
}

/// The greatest recorded time among the marks, if any.
pub open spec fn max_time(s: Seq<MarkView>) -> Option<int>
    decreases s.len(),
{
    if s.len() == 0 {
        None
    } else {
        match max_time(s.drop_last()) {
            None => Some(s.last().marked_at_minute),
            Some(m) => Some(
                if s.last().marked_at_minute >= m {
                    s.last().marked_at_minute
                } else {
                    m
                },
            ),
        }
    }
}

/// The greatest recorded time in a list of marks, if the list is not empty.
pub fn mark_list_max_time(v: &Vec<Mark>) -> (r: Option<i64>)
    ensures
        crate::model::opt_minute_view(r) == max_time(mark_views(v@)),
{
    let ghost s = mark_views(v@);
    let mut best: Option<i64> = None;
    proof {
        assert(s.subrange(0, 0) =~= Seq::<MarkView>::empty());
    }
    let mut i: usize = 0;
    while i < v.len()
        invariant
            0 <= i <= v@.len(),
            s == mark_views(v@),
            s.len() == v@.len(),
            crate::model::opt_minute_view(best) == max_time(s.subrange(0, i as int)),
        decreases v@.len() - i,
    {
        proof {
            assert(s.subrange(0, i as int + 1).drop_last() =~= s.subrange(0, i as int));
            assert(s.subrange(0, i as int + 1).last() == s[i as int]);
        }
        let t = v[i].marked_at_minute;
        best = match best {
            None => Some(t),
            Some(b) => Some(
                if t >= b {
                    t
                } else {
                    b
                },
            ),
        };
        i = i + 1;
    }
    proof {
        assert(s.subrange(0, s.len() as int) =~= s);
    }
    best
}

} // verus!
