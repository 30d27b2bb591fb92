//! The library-wide laws: determinism of the persisted bytes in the
//! collection state, archival filtering, and durability of the rendered
//! files under reload.

use crate::model::MarkView;
use crate::model::TimerView;
use crate::model::TodoView;
use crate::repository::timers_render_spec;
use crate::repository::todos_render_spec;
use crate::repository::marks_render_spec;
use crate::tables::mark_insert;
use crate::tables::marks_sorted;
use crate::tables::mark_lt;
use crate::tables::sort_by_target;
use crate::tables::timer_upsert;
use crate::tables::timers_filter;
use crate::tables::timers_sorted;
use crate::tables::todo_upsert;
use crate::tables::todos_sorted;
use crate::text;
use crate::text::lex_lt;
use vstd::prelude::*;

verus! {

/// The timers collection as a map keyed by id.
pub open spec fn timers_map(s: Seq<TimerView>) -> Map<Seq<char>, TimerView>
    decreases s.len(),
{
    if s.len() == 0 {
        Map::empty()
    } else {
        timers_map(s.drop_last()).insert(s.last().id, s.last())
    }
}

/// In a table in canonical order, the map and the sequence agree entry for
/// entry.
pub proof fn lemma_timers_map_props(s: Seq<TimerView>)
    requires
        timers_sorted(s),
    ensures
        forall|k: Seq<char>|
            #[trigger] timers_map(s).contains_key(k) ==> exists|i: int|
                0 <= i < s.len() && s[i].id == k,
        forall|i: int|
            #![trigger s[i]]
            0 <= i < s.len() ==> timers_map(s).contains_key(s[i].id) && timers_map(s)[s[i].id]
                == s[i],
    decreases s.len(),
{
    if s.len() > 0 {
        let d = s.drop_last();
        assert(timers_sorted(d)) by {
            assert(forall|i: int, j: int|
                #![trigger d[i], d[j]]
                0 <= i < j < d.len() ==> d[i] == s[i] && d[j] == s[j]);
        }
        lemma_timers_map_props(d);
        assert forall|i: int| #![trigger s[i]] 0 <= i < s.len() implies timers_map(
            s,
        ).contains_key(s[i].id) && timers_map(s)[s[i].id] == s[i] by {
            if i < s.len() - 1 {
                assert(d[i] == s[i]);
                assert(lex_lt(s[i].id, s.last().id));
                text::lemma_lex_asym(s[i].id, s.last().id);
                assert(s[i].id != s.last().id);
            }
        }
        assert forall|k: Seq<char>| #[trigger] timers_map(s).contains_key(k) implies exists|i: int|
            0 <= i < s.len() && s[i].id == k by {
            if k == s.last().id {
                assert(s[s.len() - 1].id == k);
            } else {
                assert(timers_map(d).contains_key(k));
                let i = choose|i: int| 0 <= i < d.len() && d[i].id == k;
                assert(s[i].id == k);
            }
        }
    }
}

proof fn lemma_timers_map_drop_last(s: Seq<TimerView>)
    requires
        timers_sorted(s),
        s.len() > 0,
    ensures
        timers_map(s.drop_last()) == timers_map(s).remove(s.last().id),
        !timers_map(s.drop_last()).contains_key(s.last().id),
{
    let d = s.drop_last();
    assert(timers_sorted(d)) by {
        assert(forall|i: int, j: int|
            #![trigger d[i], d[j]]
            0 <= i < j < d.len() ==> d[i] == s[i] && d[j] == s[j]);
    }
    lemma_timers_map_props(d);
    if timers_map(d).contains_key(s.last().id) {
        let i = choose|i: int| 0 <= i < d.len() && d[i].id == s.last().id;
        assert(d[i] == s[i]);
        assert(lex_lt(s[i].id, s.last().id));
        text::lemma_lex_asym(s[i].id, s.last().id);
    }
    assert(timers_map(s.drop_last()) =~= timers_map(s).remove(s.last().id));
}

/// Two tables in canonical order that hold the same entries are the same
/// sequence: the canonical order admits exactly one layout per state.
pub proof fn lemma_timers_canonical(s1: Seq<TimerView>, s2: Seq<TimerView>)
    requires
        timers_sorted(s1),
        timers_sorted(s2),
        timers_map(s1) == timers_map(s2),
    ensures
        s1 == s2,
    decreases s1.len(),
{
    lemma_timers_map_props(s1);
    lemma_timers_map_props(s2);
    if s1.len() == 0 {
        if s2.len() > 0 {
            assert(timers_map(s2).contains_key(s2.last().id));
            assert(timers_map(s1).dom() =~= Set::<Seq<char>>::empty());
        }
        assert(s1 =~= s2);
    } else {
        assert(timers_map(s1).contains_key(s1.last().id));
        if s2.len() == 0 {
            assert(timers_map(s2).dom() =~= Set::<Seq<char>>::empty());
            assert(false);
        }
        let a = s1.last().id;
        let b = s2.last().id;
        assert(timers_map(s2).contains_key(a));
        let j = choose|j: int| 0 <= j < s2.len() && s2[j].id == a;
        assert(!lex_lt(b, a)) by {
            if j < s2.len() - 1 {
                assert(lex_lt(s2[j].id, b));
                if lex_lt(b, a) {
                    text::lemma_lex_trans(a, b, a);
                    text::lemma_lex_irrefl(a);
                }
            } else {
                text::lemma_lex_irrefl(a);
            }
        }
        assert(timers_map(s1).contains_key(b));
        let i = choose|i: int| 0 <= i < s1.len() && s1[i].id == b;
        assert(!lex_lt(a, b)) by {
            if i < s1.len() - 1 {
                assert(lex_lt(s1[i].id, a));
                if lex_lt(a, b) {
                    text::lemma_lex_trans(b, a, b);
                    text::lemma_lex_irrefl(b);
                }
            } else {
                text::lemma_lex_irrefl(b);
            }
        }
        text::lemma_lex_total(a, b);
        assert(a == b);
        assert(s1.last() == timers_map(s1)[a]);
        assert(s2.last() == timers_map(s2)[a]);
        assert(s1.last() == s2.last());
        lemma_timers_map_drop_last(s1);
        lemma_timers_map_drop_last(s2);
        assert(timers_sorted(s1.drop_last())) by {
            let d = s1.drop_last();
            assert(forall|x: int, y: int|
                #![trigger d[x], d[y]]
                0 <= x < y < d.len() ==> d[x] == s1[x] && d[y] == s1[y]);
        }
        assert(timers_sorted(s2.drop_last())) by {
            let d = s2.drop_last();
            assert(forall|x: int, y: int|
                #![trigger d[x], d[y]]
                0 <= x < y < d.len() ==> d[x] == s2[x] && d[y] == s2[y]);
        }
        lemma_timers_canonical(s1.drop_last(), s2.drop_last());
        assert(s1.drop_last().len() == s2.drop_last().len());
        assert(s1.len() == s2.len());
        assert forall|x: int| 0 <= x < s1.len() implies s1[x] == s2[x] by {
            if x < s1.len() - 1 {
                assert(s1.drop_last()[x] == s2.drop_last()[x]);
                assert(s1[x] == s1.drop_last()[x]);
                assert(s2[x] == s2.drop_last()[x]);
            }
        }
        assert(s1 =~= s2);
    }
}

/// Saving a timer acts on the collection state as a map insert keyed by id.
pub proof fn lemma_timer_upsert_map(s: Seq<TimerView>, v: TimerView)
    requires
        timers_sorted(s),
    ensures
        timers_map(timer_upsert(s, v)) == timers_map(s).insert(v.id, v),
    decreases s.len(),
{
    if s.len() == 0 {
        assert(timer_upsert(s, v) =~= seq![v]);
        assert(seq![v].drop_last() =~= Seq::<TimerView>::empty());
        assert(timers_map(Seq::<TimerView>::empty()) =~= Map::<Seq<char>, TimerView>::empty());
        assert(seq![v].last() == v);
        assert(timers_map(seq![v]) =~= timers_map(s).insert(v.id, v));
    } else {
        let u = timer_upsert(s, v);
        if lex_lt(s.last().id, v.id) {
            // the new entry goes after every present one: the upsert appends
            assert forall|k: int| #![trigger s[k]] 0 <= k < s.len() implies lex_lt(
                s[k].id,
                v.id,
            ) by {
                if k < s.len() - 1 {
                    assert(lex_lt(s[k].id, s.last().id));
                    text::lemma_lex_trans(s[k].id, s.last().id, v.id);
                }
            }
            crate::tables::lemma_timer_upsert_append(s, v);
            assert(u == s.push(v));
            assert(s.push(v).drop_last() =~= s);
            assert(timers_map(u) =~= timers_map(s).insert(v.id, v));
        } else if s.last().id == v.id {
            crate::tables::lemma_timer_upsert_last(s, v);
            assert(u == s.drop_last().push(v));
            assert(s.drop_last().push(v).drop_last() =~= s.drop_last());
            lemma_timers_map_drop_last(s);
            assert(timers_map(u) =~= timers_map(s).insert(v.id, v));
        } else {
            text::lemma_lex_total(s.last().id, v.id);
            assert(lex_lt(v.id, s.last().id));
            crate::tables::lemma_timer_upsert_inner(s, v);
            assert(u == timer_upsert(s.drop_last(), v).push(s.last()));
            assert(timers_sorted(s.drop_last())) by {
                let d = s.drop_last();
                assert(forall|x: int, y: int|
                    #![trigger d[x], d[y]]
                    0 <= x < y < d.len() ==> d[x] == s[x] && d[y] == s[y]);
            }
            lemma_timer_upsert_map(s.drop_last(), v);
            assert(u.drop_last() =~= timer_upsert(s.drop_last(), v));
            assert(u.last() == s.last());
            assert(timers_map(u) == timers_map(s.drop_last()).insert(v.id, v).insert(
                s.last().id,
                s.last(),
            ));
            assert(v.id != s.last().id);
            assert(timers_map(s.drop_last()).insert(v.id, v).insert(s.last().id, s.last()) =~= (
            timers_map(s.drop_last()).insert(s.last().id, s.last())).insert(v.id, v));
        }
    }
}

/// Determinism: the rendered bytes of the timers file are a pure function
/// of the collection state, independent of the order of the mutations that
/// produced it.
pub proof fn lemma_timers_determinism(s1: Seq<TimerView>, s2: Seq<TimerView>)
    requires
        timers_sorted(s1),
        timers_sorted(s2),
        timers_map(s1) == timers_map(s2),
    ensures
        timers_render_spec(s1) == timers_render_spec(s2),
{
    lemma_timers_canonical(s1, s2);
}

/// The todos collection as a map keyed by id.
pub open spec fn todos_map(s: Seq<TodoView>) -> Map<Seq<char>, TodoView>
    decreases s.len(),
{
    if s.len() == 0 {
        Map::empty()
    } else {
        todos_map(s.drop_last()).insert(s.last().id, s.last())
    }
}

/// In a table in canonical order, the map and the sequence agree entry for
/// entry.
pub proof fn lemma_todos_map_props(s: Seq<TodoView>)
    requires
        todos_sorted(s),
    ensures
        forall|k: Seq<char>|
            #[trigger] todos_map(s).contains_key(k) ==> exists|i: int|
                0 <= i < s.len() && s[i].id == k,
        forall|i: int|
            #![trigger s[i]]
            0 <= i < s.len() ==> todos_map(s).contains_key(s[i].id) && todos_map(s)[s[i].id]
                == s[i],
    decreases s.len(),
{
    if s.len() > 0 {
        let d = s.drop_last();
        assert(todos_sorted(d)) by {
            assert(forall|i: int, j: int|
                #![trigger d[i], d[j]]
                0 <= i < j < d.len() ==> d[i] == s[i] && d[j] == s[j]);
        }
        lemma_todos_map_props(d);
        assert forall|i: int| #![trigger s[i]] 0 <= i < s.len() implies todos_map(
            s,
        ).contains_key(s[i].id) && todos_map(s)[s[i].id] == s[i] by {
            if i < s.len() - 1 {
                assert(d[i] == s[i]);
                assert(lex_lt(s[i].id, s.last().id));
                text::lemma_lex_asym(s[i].id, s.last().id);
                assert(s[i].id != s.last().id);
            }
        }
        assert forall|k: Seq<char>| #[trigger] todos_map(s).contains_key(k) implies exists|i: int|
            0 <= i < s.len() && s[i].id == k by {
            if k == s.last().id {
                assert(s[s.len() - 1].id == k);
            } else {
                assert(todos_map(d).contains_key(k));
                let i = choose|i: int| 0 <= i < d.len() && d[i].id == k;
                assert(s[i].id == k);
            }
        }
    }
}

proof fn lemma_todos_map_drop_last(s: Seq<TodoView>)
    requires
        todos_sorted(s),
        s.len() > 0,
    ensures
        todos_map(s.drop_last()) == todos_map(s).remove(s.last().id),
        !todos_map(s.drop_last()).contains_key(s.last().id),
{
    let d = s.drop_last();
    assert(todos_sorted(d)) by {
        assert(forall|i: int, j: int|
            #![trigger d[i], d[j]]
            0 <= i < j < d.len() ==> d[i] == s[i] && d[j] == s[j]);
    }
    lemma_todos_map_props(d);
    if todos_map(d).contains_key(s.last().id) {
        let i = choose|i: int| 0 <= i < d.len() && d[i].id == s.last().id;
        assert(d[i] == s[i]);
        assert(lex_lt(s[i].id, s.last().id));
        text::lemma_lex_asym(s[i].id, s.last().id);
    }
    assert(todos_map(s.drop_last()) =~= todos_map(s).remove(s.last().id));
}

/// Two tables in canonical order that hold the same entries are the same
/// sequence: the canonical order admits exactly one layout per state.
pub proof fn lemma_todos_canonical(s1: Seq<TodoView>, s2: Seq<TodoView>)
    requires
        todos_sorted(s1),
        todos_sorted(s2),
        todos_map(s1) == todos_map(s2),
    ensures
        s1 == s2,
    decreases s1.len(),
{
    lemma_todos_map_props(s1);
    lemma_todos_map_props(s2);
    if s1.len() == 0 {
        if s2.len() > 0 {
            assert(todos_map(s2).contains_key(s2.last().id));
            assert(todos_map(s1).dom() =~= Set::<Seq<char>>::empty());
        }
        assert(s1 =~= s2);
    } else {
        assert(todos_map(s1).contains_key(s1.last().id));
        if s2.len() == 0 {
            assert(todos_map(s2).dom() =~= Set::<Seq<char>>::empty());
            assert(false);
        }
        let a = s1.last().id;
        let b = s2.last().id;
        assert(todos_map(s2).contains_key(a));
        let j = choose|j: int| 0 <= j < s2.len() && s2[j].id == a;
        assert(!lex_lt(b, a)) by {
            if j < s2.len() - 1 {
                assert(lex_lt(s2[j].id, b));
                if lex_lt(b, a) {
                    text::lemma_lex_trans(a, b, a);
                    text::lemma_lex_irrefl(a);
                }
            } else {
                text::lemma_lex_irrefl(a);
            }
        }
        assert(todos_map(s1).contains_key(b));
        let i = choose|i: int| 0 <= i < s1.len() && s1[i].id == b;
        assert(!lex_lt(a, b)) by {
            if i < s1.len() - 1 {
                assert(lex_lt(s1[i].id, a));
                if lex_lt(a, b) {
                    text::lemma_lex_trans(b, a, b);
                    text::lemma_lex_irrefl(b);
                }
            } else {
                text::lemma_lex_irrefl(b);
            }
        }
        text::lemma_lex_total(a, b);
        assert(a == b);
        assert(s1.last() == todos_map(s1)[a]);
        assert(s2.last() == todos_map(s2)[a]);
        assert(s1.last() == s2.last());
        lemma_todos_map_drop_last(s1);
        lemma_todos_map_drop_last(s2);
        assert(todos_sorted(s1.drop_last())) by {
            let d = s1.drop_last();
            assert(forall|x: int, y: int|
                #![trigger d[x], d[y]]
                0 <= x < y < d.len() ==> d[x] == s1[x] && d[y] == s1[y]);
        }
        assert(todos_sorted(s2.drop_last())) by {
            let d = s2.drop_last();
            assert(forall|x: int, y: int|
                #![trigger d[x], d[y]]
                0 <= x < y < d.len() ==> d[x] == s2[x] && d[y] == s2[y]);
        }
        lemma_todos_canonical(s1.drop_last(), s2.drop_last());
        assert(s1.drop_last().len() == s2.drop_last().len());
        assert(s1.len() == s2.len());
        assert forall|x: int| 0 <= x < s1.len() implies s1[x] == s2[x] by {
            if x < s1.len() - 1 {
                assert(s1.drop_last()[x] == s2.drop_last()[x]);
                assert(s1[x] == s1.drop_last()[x]);
                assert(s2[x] == s2.drop_last()[x]);
            }
        }
        assert(s1 =~= s2);
    }
}

/// Saving a todo acts on the collection state as a map insert keyed by id.
pub proof fn lemma_todo_upsert_map(s: Seq<TodoView>, v: TodoView)
    requires
        todos_sorted(s),
    ensures
        todos_map(todo_upsert(s, v)) == todos_map(s).insert(v.id, v),
    decreases s.len(),
{
    if s.len() == 0 {
        assert(todo_upsert(s, v) =~= seq![v]);
        assert(seq![v].drop_last() =~= Seq::<TodoView>::empty());
        assert(todos_map(Seq::<TodoView>::empty()) =~= Map::<Seq<char>, TodoView>::empty());
        assert(seq![v].last() == v);
        assert(todos_map(seq![v]) =~= todos_map(s).insert(v.id, v));
    } else {
        let u = todo_upsert(s, v);
        if lex_lt(s.last().id, v.id) {
            // the new entry goes after every present one: the upsert appends
            assert forall|k: int| #![trigger s[k]] 0 <= k < s.len() implies lex_lt(
                s[k].id,
                v.id,
            ) by {
                if k < s.len() - 1 {
                    assert(lex_lt(s[k].id, s.last().id));
                    text::lemma_lex_trans(s[k].id, s.last().id, v.id);
                }
            }
            crate::tables::lemma_todo_upsert_append(s, v);
            assert(u == s.push(v));
            assert(s.push(v).drop_last() =~= s);
            assert(todos_map(u) =~= todos_map(s).insert(v.id, v));
        } else if s.last().id == v.id {
            crate::tables::lemma_todo_upsert_last(s, v);
            assert(u == s.drop_last().push(v));
            assert(s.drop_last().push(v).drop_last() =~= s.drop_last());
            lemma_todos_map_drop_last(s);
            assert(todos_map(u) =~= todos_map(s).insert(v.id, v));
        } else {
            text::lemma_lex_total(s.last().id, v.id);
            assert(lex_lt(v.id, s.last().id));
            crate::tables::lemma_todo_upsert_inner(s, v);
            assert(u == todo_upsert(s.drop_last(), v).push(s.last()));
            assert(todos_sorted(s.drop_last())) by {
                let d = s.drop_last();
                assert(forall|x: int, y: int|
                    #![trigger d[x], d[y]]
                    0 <= x < y < d.len() ==> d[x] == s[x] && d[y] == s[y]);
            }
            lemma_todo_upsert_map(s.drop_last(), v);
            assert(u.drop_last() =~= todo_upsert(s.drop_last(), v));
            assert(u.last() == s.last());
            assert(todos_map(u) == todos_map(s.drop_last()).insert(v.id, v).insert(
                s.last().id,
                s.last(),
            ));
            assert(v.id != s.last().id);
            assert(todos_map(s.drop_last()).insert(v.id, v).insert(s.last().id, s.last()) =~= (
            todos_map(s.drop_last()).insert(s.last().id, s.last())).insert(v.id, v));
        }
    }
}

/// Determinism: the rendered bytes of the todos file are a pure function
/// of the collection state, independent of the order of the mutations that
/// produced it.
pub proof fn lemma_todos_determinism(s1: Seq<TodoView>, s2: Seq<TodoView>)
    requires
        todos_sorted(s1),
        todos_sorted(s2),
        todos_map(s1) == todos_map(s2),
    ensures
        todos_render_spec(s1) == todos_render_spec(s2),
{
    lemma_todos_canonical(s1, s2);
}


/// The persistence key of a mark.
pub open spec fn mark_key(m: MarkView) -> (Seq<char>, int, Seq<char>) {
    (m.timer_id, m.marked_at_minute, m.id)
}

/// No two marks share a persistence key; store-assigned ids make this hold.
pub open spec fn marks_distinct(s: Seq<MarkView>) -> bool {
    forall|i: int, j: int|
        #![trigger s[i], s[j]]
        0 <= i < j < s.len() ==> mark_key(s[i]) != mark_key(s[j])
}

/// The marks collection as a map keyed by (timer id, time, id).
pub open spec fn marks_map(s: Seq<MarkView>) -> Map<(Seq<char>, int, Seq<char>), MarkView>
    decreases s.len(),
{
    if s.len() == 0 {
        Map::empty()
    } else {
        marks_map(s.drop_last()).insert(mark_key(s.last()), s.last())
    }
}

/// Marks with different keys are ordered one way or the other.
pub proof fn lemma_mark_lt_total(a: MarkView, b: MarkView)
    requires
        mark_key(a) != mark_key(b),
    ensures
        mark_lt(a, b) || mark_lt(b, a),
{
    text::lemma_lex_total(a.timer_id, b.timer_id);
    if a.timer_id == b.timer_id && a.marked_at_minute == b.marked_at_minute {
        text::lemma_lex_total(a.id, b.id);
        if a.id == b.id {
            assert(mark_key(a) == mark_key(b));
        }
    }
}

/// The persistence order never relates a mark to one with its own key.
pub proof fn lemma_mark_lt_neq(a: MarkView, b: MarkView)
    requires
        mark_lt(a, b),
    ensures
        mark_key(a) != mark_key(b),
{
    if mark_key(a) == mark_key(b) {
        text::lemma_lex_irrefl(a.timer_id);
        text::lemma_lex_irrefl(a.id);
    }
}

proof fn lemma_marks_tail_sorted(s: Seq<MarkView>)
    requires
        marks_sorted(s),
        marks_distinct(s),
        s.len() > 0,
    ensures
        marks_sorted(s.drop_last()),
        marks_distinct(s.drop_last()),
        forall|i: int|
            #![trigger s[i]]
            0 <= i < s.len() - 1 ==> mark_lt(s[i], s.last()),
{
    let d = s.drop_last();
    assert(forall|i: int, j: int|
        #![trigger d[i], d[j]]
        0 <= i < j < d.len() ==> d[i] == s[i] && d[j] == s[j]);
    assert forall|i: int| #![trigger s[i]] 0 <= i < s.len() - 1 implies mark_lt(
        s[i],
        s.last(),
    ) by {
        assert(!mark_lt(s[s.len() - 1], s[i]));
        assert(mark_key(s[i]) != mark_key(s[s.len() - 1]));
        lemma_mark_lt_total(s[i], s[s.len() - 1]);
    }
}

/// In a marks table in canonical order, the map and the sequence agree.
pub proof fn lemma_marks_map_props(s: Seq<MarkView>)
    requires
        marks_sorted(s),
        marks_distinct(s),
    ensures
        forall|k: (Seq<char>, int, Seq<char>)|
            #[trigger] marks_map(s).contains_key(k) ==> exists|i: int|
                0 <= i < s.len() && mark_key(s[i]) == k,
        forall|i: int|
            #![trigger s[i]]
            0 <= i < s.len() ==> marks_map(s).contains_key(mark_key(s[i])) && marks_map(s)[mark_key(
                s[i],
            )] == s[i],
    decreases s.len(),
{
    if s.len() > 0 {
        let d = s.drop_last();
        lemma_marks_tail_sorted(s);
        lemma_marks_map_props(d);
        assert forall|i: int| #![trigger s[i]] 0 <= i < s.len() implies marks_map(
            s,
        ).contains_key(mark_key(s[i])) && marks_map(s)[mark_key(s[i])] == s[i] by {
            if i < s.len() - 1 {
                assert(d[i] == s[i]);
                assert(mark_key(s[i]) != mark_key(s[s.len() - 1]));
            }
        }
        assert forall|k: (Seq<char>, int, Seq<char>)| #[trigger] marks_map(s).contains_key(
            k,
        ) implies exists|i: int| 0 <= i < s.len() && mark_key(s[i]) == k by {
            if k == mark_key(s.last()) {
                assert(mark_key(s[s.len() - 1]) == k);
            } else {
                assert(marks_map(d).contains_key(k));
                let i = choose|i: int| 0 <= i < d.len() && mark_key(d[i]) == k;
                assert(mark_key(s[i]) == k);
            }
        }
    }
}

proof fn lemma_marks_map_drop_last(s: Seq<MarkView>)
    requires
        marks_sorted(s),
        marks_distinct(s),
        s.len() > 0,
    ensures
        marks_map(s.drop_last()) == marks_map(s).remove(mark_key(s.last())),
        !marks_map(s.drop_last()).contains_key(mark_key(s.last())),
{
    let d = s.drop_last();
    lemma_marks_tail_sorted(s);
    lemma_marks_map_props(d);
    if marks_map(d).contains_key(mark_key(s.last())) {
        let i = choose|i: int| 0 <= i < d.len() && mark_key(d[i]) == mark_key(s.last());
        assert(d[i] == s[i]);
        assert(mark_key(s[i]) != mark_key(s[s.len() - 1]));
    }
    assert(marks_map(s.drop_last()) =~= marks_map(s).remove(mark_key(s.last())));
}

/// Two marks tables in canonical order holding the same entries are the
/// same sequence.
pub proof fn lemma_marks_canonical(s1: Seq<MarkView>, s2: Seq<MarkView>)
    requires
        marks_sorted(s1),
        marks_distinct(s1),
        marks_sorted(s2),
        marks_distinct(s2),
        marks_map(s1) == marks_map(s2),
    ensures
        s1 == s2,
    decreases s1.len(),
{
    lemma_marks_map_props(s1);
    lemma_marks_map_props(s2);
    if s1.len() == 0 {
        if s2.len() > 0 {
            assert(marks_map(s2).contains_key(mark_key(s2.last())));
            assert(marks_map(s1).dom() =~= Set::<(Seq<char>, int, Seq<char>)>::empty());
        }
        assert(s1 =~= s2);
    } else {
        assert(marks_map(s1).contains_key(mark_key(s1.last())));
        if s2.len() == 0 {
            assert(marks_map(s2).dom() =~= Set::<(Seq<char>, int, Seq<char>)>::empty());
            assert(false);
        }
        lemma_marks_tail_sorted(s1);
        lemma_marks_tail_sorted(s2);
        let a = mark_key(s1.last());
        let b = mark_key(s2.last());
        assert(marks_map(s2).contains_key(a));
        let j = choose|j: int| 0 <= j < s2.len() && mark_key(s2[j]) == a;
        assert(!mark_lt(s1.last(), s2.last())) by {
            if j < s2.len() - 1 {
                assert(mark_lt(s2[j], s2.last()));
                if mark_lt(s1.last(), s2.last()) {
                    lemma_mark_lt_neq(s1.last(), s2.last());
                    crate::tables::lemma_mark_lt_asym(s2[j], s2.last());
                    assert(mark_key(s2[j]) == mark_key(s1.last()));
                    assert(!mark_lt(s2.last(), s2[j]));
                    lemma_mark_key_congruent(s2[j], s1.last(), s2.last());
                }
            } else {
                assert(s2[j] == s2.last());
                assert(mark_key(s1.last()) == mark_key(s2.last()));
                lemma_mark_lt_neq_self(s1.last(), s2.last());
            }
        }
        assert(marks_map(s1).contains_key(b));
        let i = choose|i: int| 0 <= i < s1.len() && mark_key(s1[i]) == b;
        assert(!mark_lt(s2.last(), s1.last())) by {
            if i < s1.len() - 1 {
                assert(mark_lt(s1[i], s1.last()));
                if mark_lt(s2.last(), s1.last()) {
                    lemma_mark_lt_neq(s2.last(), s1.last());
                    assert(mark_key(s1[i]) == mark_key(s2.last()));
                    lemma_mark_key_congruent(s1[i], s2.last(), s1.last());
                }
            } else {
                assert(s1[i] == s1.last());
                assert(mark_key(s2.last()) == mark_key(s1.last()));
                lemma_mark_lt_neq_self(s2.last(), s1.last());
            }
        }
        if mark_key(s1.last()) != mark_key(s2.last()) {
            lemma_mark_lt_total(s1.last(), s2.last());
            assert(false);
        }
        assert(s1.last() == marks_map(s1)[a]);
        assert(s2.last() == marks_map(s2)[mark_key(s2.last())]);
        assert(s1.last() == s2.last());
        lemma_marks_map_drop_last(s1);
        lemma_marks_map_drop_last(s2);
        lemma_marks_canonical(s1.drop_last(), s2.drop_last());
        assert(s1.drop_last().len() == s2.drop_last().len());
        assert(s1.len() == s2.len());
        assert forall|x: int| 0 <= x < s1.len() implies s1[x] == s2[x] by {
            if x < s1.len() - 1 {
                assert(s1.drop_last()[x] == s2.drop_last()[x]);
                assert(s1[x] == s1.drop_last()[x]);
                assert(s2[x] == s2.drop_last()[x]);
            }
        }
        assert(s1 =~= s2);
    }
}

/// Marks with the same key compare the same way against any third mark.
proof fn lemma_mark_key_congruent(a: MarkView, b: MarkView, c: MarkView)
    requires
        mark_key(a) == mark_key(b),
        mark_lt(b, c),
    ensures
        mark_lt(a, c),
{
}

proof fn lemma_mark_lt_neq_self(a: MarkView, b: MarkView)
    requires
        mark_key(a) == mark_key(b),
    ensures
        !mark_lt(a, b),
{
    if mark_lt(a, b) {
        lemma_mark_lt_neq(a, b);
    }
}

/// Appending a mark acts on the collection state as a map insert keyed by
/// (timer id, time, id).
pub proof fn lemma_mark_insert_map(s: Seq<MarkView>, m: MarkView)
    ensures
        marks_map(mark_insert(s, m)) == marks_map(s).insert(mark_key(m), m),
    decreases s.len(),
{
    if s.len() == 0 {
        assert(mark_insert(s, m) =~= seq![m]);
        assert(seq![m].drop_last() =~= Seq::<MarkView>::empty());
        assert(marks_map(Seq::<MarkView>::empty()) =~= Map::<
            (Seq<char>, int, Seq<char>),
            MarkView,
        >::empty());
        assert(seq![m].last() == m);
        assert(marks_map(seq![m]) =~= marks_map(s).insert(mark_key(m), m));
    } else {
        if !mark_lt(m, s.last()) {
            assert(mark_insert(s, m) == s.push(m));
            assert(s.push(m).drop_last() =~= s);
            assert(marks_map(mark_insert(s, m)) =~= marks_map(s).insert(mark_key(m), m));
        } else {
            let u = mark_insert(s.drop_last(), m).push(s.last());
            assert(mark_insert(s, m) == u);
            lemma_mark_insert_map(s.drop_last(), m);
            assert(u.drop_last() =~= mark_insert(s.drop_last(), m));
            assert(u.last() == s.last());
            lemma_mark_lt_neq(m, s.last());
            assert(marks_map(u) == marks_map(s.drop_last()).insert(mark_key(m), m).insert(
                mark_key(s.last()),
                s.last(),
            ));
            assert(marks_map(s.drop_last()).insert(mark_key(m), m).insert(
                mark_key(s.last()),
                s.last(),
            ) =~= (marks_map(s.drop_last()).insert(mark_key(s.last()), s.last())).insert(
                mark_key(m),
                m,
            ));
        }
    }
}

/// Determinism: the rendered bytes of the marks file are a pure function of
/// the collection state.
pub proof fn lemma_marks_determinism(s1: Seq<MarkView>, s2: Seq<MarkView>)
    requires
        marks_sorted(s1),
        marks_distinct(s1),
        marks_sorted(s2),
        marks_distinct(s2),
        marks_map(s1) == marks_map(s2),
    ensures
        marks_render_spec(s1) == marks_render_spec(s2),
{
    lemma_marks_canonical(s1, s2);
}

/// Archival filtering: a timer stands in the listing without archived
/// entries exactly when it stands in the collection and is not archived;
/// the listing with archived entries holds exactly the collection.
pub proof fn lemma_archival_filtering(s: Seq<TimerView>, t: TimerView)
    ensures
        sort_by_target(timers_filter(s, false)).contains(t) <==> (s.contains(t) && !t.archived),
        sort_by_target(timers_filter(s, true)).contains(t) <==> s.contains(t),
{
    lemma_sort_by_target_membership(timers_filter(s, false), t);
    lemma_sort_by_target_membership(timers_filter(s, true), t);
    lemma_timers_filter_membership(s, false, t);
    lemma_timers_filter_membership(s, true, t);
}

proof fn lemma_timers_filter_membership(s: Seq<TimerView>, include_archived: bool, t: TimerView)
    ensures
        timers_filter(s, include_archived).contains(t) <==> (s.contains(t) && (include_archived
            || !t.archived)),
    decreases s.len(),
{
    if s.len() == 0 {
        assert(!s.contains(t)) by {
            if s.contains(t) {
                let i = choose|i: int| 0 <= i < s.len() && s[i] == t;
            }
        }
    } else {
        lemma_timers_filter_membership(s.drop_last(), include_archived, t);
        let f = timers_filter(s, include_archived);
        let fd = timers_filter(s.drop_last(), include_archived);
        assert(s.contains(t) <==> (s.drop_last().contains(t) || s.last() == t)) by {
            if s.contains(t) {
                let i = choose|i: int| 0 <= i < s.len() && s[i] == t;
                if i < s.len() - 1 {
                    assert(s.drop_last()[i] == t);
                    assert(s.drop_last().contains(t));
                }
            }
            if s.drop_last().contains(t) {
                let i = choose|i: int| 0 <= i < s.drop_last().len() && s.drop_last()[i] == t;
                assert(s[i] == t);
            }
            if s.last() == t {
                assert(s[s.len() - 1] == t);
            }
        }
        if crate::tables::timer_kept(s.last(), include_archived) {
            assert(f == fd.push(s.last()));
            assert(f.contains(t) <==> (fd.contains(t) || s.last() == t)) by {
                if f.contains(t) {
                    let i = choose|i: int| 0 <= i < f.len() && f[i] == t;
                    if i < f.len() - 1 {
                        assert(fd[i] == t);
                        assert(fd.contains(t));
                    }
                }
                if fd.contains(t) {
                    let i = choose|i: int| 0 <= i < fd.len() && fd[i] == t;
                    assert(f[i] == t);
                }
                if s.last() == t {
                    assert(f[f.len() - 1] == t);
                }
            }
        } else {
            assert(f == fd);
        }
    }
}

proof fn lemma_insert_by_target_membership(q: Seq<TimerView>, v: TimerView, t: TimerView)
    ensures
        crate::tables::insert_by_target(q, v).contains(t) <==> (q.contains(t) || v == t),
    decreases q.len(),
{
    let u = crate::tables::insert_by_target(q, v);
    if q.len() == 0 {
        assert(u == seq![v]);
        assert(u.contains(t) <==> v == t) by {
            if u.contains(t) {
                let i = choose|i: int| 0 <= i < u.len() && u[i] == t;
            }
            if v == t {
                assert(u[0] == t);
            }
        }
        assert(!q.contains(t)) by {
            if q.contains(t) {
                let i = choose|i: int| 0 <= i < q.len() && q[i] == t;
            }
        }
    } else {
        assert(q.contains(t) <==> (q.drop_last().contains(t) || q.last() == t)) by {
            if q.contains(t) {
                let i = choose|i: int| 0 <= i < q.len() && q[i] == t;
                if i < q.len() - 1 {
                    assert(q.drop_last()[i] == t);
                    assert(q.drop_last().contains(t));
                }
            }
            if q.drop_last().contains(t) {
                let i = choose|i: int| 0 <= i < q.drop_last().len() && q.drop_last()[i] == t;
                assert(q[i] == t);
            }
            if q.last() == t {
                assert(q[q.len() - 1] == t);
            }
        }
        if q.last().target_at_minute <= v.target_at_minute {
            assert(u == q.push(v));
            assert(u.contains(t) <==> (q.contains(t) || v == t)) by {
                if u.contains(t) {
                    let i = choose|i: int| 0 <= i < u.len() && u[i] == t;
                    if i < u.len() - 1 {
                        assert(q[i] == t);
                    }
                }
                if q.contains(t) {
                    let i = choose|i: int| 0 <= i < q.len() && q[i] == t;
                    assert(u[i] == t);
                }
                if v == t {
                    assert(u[u.len() - 1] == t);
                }
            }
        } else {
            let w = crate::tables::insert_by_target(q.drop_last(), v);
            assert(u == w.push(q.last()));
            lemma_insert_by_target_membership(q.drop_last(), v, t);
            assert(u.contains(t) <==> (w.contains(t) || q.last() == t)) by {
                if u.contains(t) {
                    let i = choose|i: int| 0 <= i < u.len() && u[i] == t;
                    if i < u.len() - 1 {
                        assert(w[i] == t);
                        assert(w.contains(t));
                    }
                }
                if w.contains(t) {
                    let i = choose|i: int| 0 <= i < w.len() && w[i] == t;
                    assert(u[i] == t);
                }
                if q.last() == t {
                    assert(u[u.len() - 1] == t);
                }
            }
        }
    }
}

proof fn lemma_sort_by_target_membership(q: Seq<TimerView>, t: TimerView)
    ensures
        sort_by_target(q).contains(t) <==> q.contains(t),
    decreases q.len(),
{
    if q.len() == 0 {
        assert(!q.contains(t)) by {
            if q.contains(t) {
                let i = choose|i: int| 0 <= i < q.len() && q[i] == t;
            }
        }
        assert(!sort_by_target(q).contains(t)) by {
            if sort_by_target(q).contains(t) {
                let i = choose|i: int|
                    0 <= i < sort_by_target(q).len() && sort_by_target(q)[i] == t;
            }
        }
    } else {
        lemma_sort_by_target_membership(q.drop_last(), t);
        lemma_insert_by_target_membership(sort_by_target(q.drop_last()), q.last(), t);
        assert(q.contains(t) <==> (q.drop_last().contains(t) || q.last() == t)) by {
            if q.contains(t) {
                let i = choose|i: int| 0 <= i < q.len() && q[i] == t;
                if i < q.len() - 1 {
                    assert(q.drop_last()[i] == t);
                    assert(q.drop_last().contains(t));
                }
            }
            if q.drop_last().contains(t) {
                let i = choose|i: int| 0 <= i < q.drop_last().len() && q.drop_last()[i] == t;
                assert(q[i] == t);
            }
            if q.last() == t {
                assert(q[q.len() - 1] == t);
            }
        }
    }
}


/// All three minute fields of a timer fit the minute type.
pub open spec fn timer_in_range(t: TimerView) -> bool {
    &&& i64::MIN <= t.target_at_minute <= i64::MAX
    &&& i64::MIN <= t.created_at_minute <= i64::MAX
    &&& i64::MIN <= t.updated_at_minute <= i64::MAX
}

/// All minute fields of a todo fit the minute type.
pub open spec fn todo_in_range(t: TodoView) -> bool {
    &&& i64::MIN <= t.created_at_minute <= i64::MAX
    &&& i64::MIN <= t.updated_at_minute <= i64::MAX
    &&& (t.done_at_minute matches Some(m) ==> i64::MIN <= m <= i64::MAX)
}

/// All minute fields of a mark fit the minute type.
pub open spec fn mark_in_range(m: MarkView) -> bool {
    &&& i64::MIN <= m.marked_at_minute <= i64::MAX
    &&& (m.prev_marked_at_minute matches Some(p) ==> i64::MIN <= p <= i64::MAX)
    &&& (m.duration_minutes matches Some(d) ==> i64::MIN <= d <= i64::MAX)
}

/// A todo-id reference that survives the join-and-split of the ids field:
/// non-empty, free of the separator, and unchanged by trimming.
pub open spec fn id_ok(x: Seq<char>) -> bool {
    &&& x.len() > 0
    &&& text::trim_spec(x) == x
    &&& forall|i: int| 0 <= i < x.len() ==> #[trigger] x[i] != ';'
}

/// Every todo-id reference of a mark is well formed.
pub open spec fn mark_refs_ok(m: MarkView) -> bool {
    forall|j: int| 0 <= j < m.todo_ids.len() ==> id_ok(#[trigger] m.todo_ids[j])
}

proof fn lemma_ids_scan_plain(x: Seq<char>, rest: Seq<char>, cur: Seq<char>, acc: Seq<Seq<char>>)
    requires
        forall|i: int| 0 <= i < x.len() ==> #[trigger] x[i] != ';',
    ensures
        crate::repository::ids_scan(x + rest, cur, acc) == crate::repository::ids_scan(
            rest,
            cur + x,
            acc,
        ),
    decreases x.len(),
{
    if x.len() == 0 {
        assert(x + rest =~= rest);
        assert(cur + x =~= cur);
    } else {
        let c = x[0];
        assert(c != ';');
        let t = x + rest;
        assert(t[0] == c);
        assert(t.drop_first() =~= x.drop_first() + rest);
        assert(forall|i: int|
            0 <= i < x.drop_first().len() ==> #[trigger] x.drop_first()[i] == x[i + 1]);
        lemma_ids_scan_plain(x.drop_first(), rest, cur.push(c), acc);
        assert(cur.push(c) + x.drop_first() =~= cur + x);
    }
}

proof fn lemma_ids_join_scan(ids: Seq<Seq<char>>, acc: Seq<Seq<char>>)
    requires
        ids.len() >= 1,
        forall|i: int| 0 <= i < ids.len() ==> id_ok(#[trigger] ids[i]),
    ensures
        crate::repository::ids_scan(crate::repository::join_ids(ids), Seq::empty(), acc) == acc
            + ids,
    decreases ids.len(),
{
    if ids.len() == 1 {
        assert(crate::repository::join_ids(ids) == ids[0]);
        assert(id_ok(ids[0]));
        lemma_ids_scan_plain(ids[0], Seq::empty(), Seq::empty(), acc);
        assert(ids[0] + Seq::<char>::empty() =~= ids[0]);
        assert(Seq::<char>::empty() + ids[0] =~= ids[0]);
        assert(text::trim_spec(ids[0]).len() > 0);
        assert(crate::repository::ids_scan(Seq::empty(), ids[0], acc) == acc.push(ids[0]));
        assert(acc.push(ids[0]) =~= acc + ids);
    } else {
        let rest = seq![';'] + crate::repository::join_ids(ids.drop_first());
        assert(crate::repository::join_ids(ids) =~= ids[0] + rest);
        assert(id_ok(ids[0]));
        lemma_ids_scan_plain(ids[0], rest, Seq::empty(), acc);
        assert(Seq::<char>::empty() + ids[0] =~= ids[0]);
        assert(rest[0] == ';');
        assert(rest.drop_first() =~= crate::repository::join_ids(ids.drop_first()));
        assert(text::trim_spec(ids[0]).len() > 0);
        assert(forall|i: int|
            0 <= i < ids.drop_first().len() ==> #[trigger] ids.drop_first()[i] == ids[i + 1]);
        lemma_ids_join_scan(ids.drop_first(), acc.push(ids[0]));
        assert(acc.push(ids[0]) + ids.drop_first() =~= acc + ids);
    }
}

/// Joining well-formed todo-id references and splitting the field back
/// reproduces them exactly.
pub proof fn lemma_ids_round_trip(ids: Seq<Seq<char>>)
    requires
        forall|i: int| 0 <= i < ids.len() ==> id_ok(#[trigger] ids[i]),
    ensures
        crate::repository::parse_ids_spec(crate::repository::join_ids(ids)) == ids,
{
    if ids.len() == 0 {
        assert(crate::repository::join_ids(ids) == Seq::<char>::empty());
        assert(text::trim_front_spec(Seq::<char>::empty()) == Seq::<char>::empty());
        assert(text::trim_back_spec(Seq::<char>::empty()) == Seq::<char>::empty());
        assert(crate::repository::parse_ids_spec(Seq::empty()) =~= ids);
    } else {
        lemma_ids_join_scan(ids, Seq::empty());
        assert(Seq::<Seq<char>>::empty() + ids =~= ids);
    }
}

proof fn lemma_bool_round_trip(b: bool)
    ensures
        crate::repository::bool_of_token(crate::repository::bool_token(b)) == Some(b),
{
    reveal_strlit("true");
    reveal_strlit("false");
    assert("true"@.len() == 4);
    assert("false"@.len() == 5);
}

proof fn lemma_status_round_trip(st: crate::model::TodoStatus)
    ensures
        crate::model::status_of_token(crate::model::status_token(st)) == Some(st),
{
    reveal_strlit("open");
    reveal_strlit("done");
    assert("open"@[0] == 'o');
    assert("done"@[0] == 'd');
}

proof fn lemma_opt_round_trip(v: Option<int>)
    requires
        v matches Some(m) ==> i64::MIN <= m <= i64::MAX,
    ensures
        crate::repository::opt_i64_of(crate::repository::opt_text(v)) matches Some(w)
            && crate::model::opt_minute_view(w) == v,
{
    match v {
        Option::None => {
        },
        Option::Some(m) => {
            text::lemma_i64_round_trip(m as i64);
        },
    }
}

proof fn lemma_rows_join_text(rows: Seq<Seq<Seq<char>>>)
    ensures
        crate::repository::rows_join(rows) + seq!['\n'] == seq!['\n'] + crate::codec::rows_text(
            rows,
        ),
    decreases rows.len(),
{
    if rows.len() == 0 {
        assert(crate::repository::rows_join(rows) == Seq::<char>::empty());
        assert(crate::codec::rows_text(rows) == Seq::<char>::empty());
        assert(Seq::<char>::empty() + seq!['\n'] =~= seq!['\n'] + Seq::<char>::empty());
    } else {
        lemma_rows_join_text(rows.drop_first());
        assert(crate::repository::rows_join(rows) + seq!['\n'] =~= seq!['\n']
            + crate::codec::encode_row_spec(rows[0]) + (crate::repository::rows_join(
            rows.drop_first(),
        ) + seq!['\n']));
        assert(seq!['\n'] + crate::codec::rows_text(rows) =~= seq!['\n']
            + crate::codec::encode_row_spec(rows[0]) + (seq!['\n'] + crate::codec::rows_text(
            rows.drop_first(),
        )));
    }
}

proof fn lemma_timer_row_round_trip(t: TimerView)
    requires
        timer_in_range(t),
    ensures
        crate::codec::parse_line_spec(
            crate::codec::encode_row_spec(crate::repository::timer_row(t)),
        ) == Some(crate::repository::timer_row(t)),
        crate::repository::timer_of_fields(crate::repository::timer_row(t)) == Some(t),
        crate::codec::encode_row_spec(crate::repository::timer_row(t)).len() >= 1,
{
    let row = crate::repository::timer_row(t);
    assert(row.len() == 6);
    crate::codec::lemma_row_round_trip(row);
    crate::codec::lemma_row_no_trailing_cr(row);
    text::lemma_i64_round_trip(t.target_at_minute as i64);
    text::lemma_i64_round_trip(t.created_at_minute as i64);
    text::lemma_i64_round_trip(t.updated_at_minute as i64);
    lemma_bool_round_trip(t.archived);
    assert(crate::repository::timer_of_fields(row) == Some(t)) by {
        let u = crate::repository::timer_of_fields(row).unwrap();
        assert(u.id == t.id && u.name == t.name && u.target_at_minute == t.target_at_minute
            && u.created_at_minute == t.created_at_minute && u.updated_at_minute
            == t.updated_at_minute && u.archived == t.archived);
    }
}

proof fn lemma_todo_row_round_trip(t: TodoView)
    requires
        todo_in_range(t),
    ensures
        crate::codec::parse_line_spec(
            crate::codec::encode_row_spec(crate::repository::todo_row(t)),
        ) == Some(crate::repository::todo_row(t)),
        crate::repository::todo_of_fields(crate::repository::todo_row(t)) == Some(t),
        crate::codec::encode_row_spec(crate::repository::todo_row(t)).len() >= 1,
{
    let row = crate::repository::todo_row(t);
    assert(row.len() == 7);
    crate::codec::lemma_row_round_trip(row);
    crate::codec::lemma_row_no_trailing_cr(row);
    lemma_status_round_trip(t.status);
    text::lemma_i64_round_trip(t.created_at_minute as i64);
    text::lemma_i64_round_trip(t.updated_at_minute as i64);
    lemma_opt_round_trip(t.done_at_minute);
    assert(crate::repository::todo_of_fields(row) == Some(t)) by {
        let u = crate::repository::todo_of_fields(row).unwrap();
        assert(u.id == t.id && u.timer_id == t.timer_id && u.title == t.title && u.status
            == t.status && u.created_at_minute == t.created_at_minute && u.updated_at_minute
            == t.updated_at_minute && u.done_at_minute == t.done_at_minute);
    }
}

proof fn lemma_mark_row_round_trip(m: MarkView)
    requires
        mark_in_range(m),
        mark_refs_ok(m),
    ensures
        crate::codec::parse_line_spec(
            crate::codec::encode_row_spec(crate::repository::mark_row(m)),
        ) == Some(crate::repository::mark_row(m)),
        crate::repository::mark_of_fields(crate::repository::mark_row(m)) == Some(m),
        crate::codec::encode_row_spec(crate::repository::mark_row(m)).len() >= 1,
{
    let row = crate::repository::mark_row(m);
    assert(row.len() == 7);
    crate::codec::lemma_row_round_trip(row);
    crate::codec::lemma_row_no_trailing_cr(row);
    text::lemma_i64_round_trip(m.marked_at_minute as i64);
    lemma_opt_round_trip(m.prev_marked_at_minute);
    lemma_opt_round_trip(m.duration_minutes);
    lemma_ids_round_trip(m.todo_ids);
    assert(crate::repository::mark_of_fields(row) == Some(m)) by {
        let u = crate::repository::mark_of_fields(row).unwrap();
        assert(u.id == m.id && u.timer_id == m.timer_id && u.marked_at_minute == m.marked_at_minute
            && u.prev_marked_at_minute == m.prev_marked_at_minute && u.duration_minutes
            == m.duration_minutes && u.description == m.description && u.todo_ids == m.todo_ids);
    }
}

proof fn lemma_load_timer_rows_rebuild(s: Seq<TimerView>, k: int)
    requires
        timers_sorted(s),
        forall|i: int| #![trigger s[i]] 0 <= i < s.len() ==> timer_in_range(s[i]),
        0 <= k <= s.len(),
    ensures
        crate::repository::load_timer_rows(
            Seq::new(
                (s.len() - k) as nat,
                |i: int| crate::codec::encode_row_spec(crate::repository::timer_row(s[k + i])),
            ),
            s.subrange(0, k),
        ) == Some(s),
    decreases (s.len() - k) as nat,
{
    let recs = Seq::new(
        (s.len() - k) as nat,
        |i: int| crate::codec::encode_row_spec(crate::repository::timer_row(s[k + i])),
    );
    if k == s.len() {
        assert(recs.len() == 0);
        assert(s.subrange(0, k) =~= s);
    } else {
        lemma_timer_row_round_trip(s[k]);
        assert(recs[0] == crate::codec::encode_row_spec(crate::repository::timer_row(s[k])));
        assert(recs[0].len() >= 1);
        assert(forall|e: int| #![trigger s.subrange(0, k)[e]] 0 <= e < k ==> s.subrange(0, k)[e]
            == s[e]);
        crate::tables::lemma_timer_upsert_append(s.subrange(0, k), s[k]);
        assert(s.subrange(0, k).push(s[k]) =~= s.subrange(0, k + 1));
        assert(recs.drop_first() =~= Seq::new(
            (s.len() - (k + 1)) as nat,
            |i: int| crate::codec::encode_row_spec(crate::repository::timer_row(s[k + 1 + i])),
        ));
        lemma_load_timer_rows_rebuild(s, k + 1);
    }
}

proof fn lemma_load_todo_rows_rebuild(s: Seq<TodoView>, k: int)
    requires
        todos_sorted(s),
        forall|i: int| #![trigger s[i]] 0 <= i < s.len() ==> todo_in_range(s[i]),
        0 <= k <= s.len(),
    ensures
        crate::repository::load_todo_rows(
            Seq::new(
                (s.len() - k) as nat,
                |i: int| crate::codec::encode_row_spec(crate::repository::todo_row(s[k + i])),
            ),
            s.subrange(0, k),
        ) == Some(s),
    decreases (s.len() - k) as nat,
{
    let recs = Seq::new(
        (s.len() - k) as nat,
        |i: int| crate::codec::encode_row_spec(crate::repository::todo_row(s[k + i])),
    );
    if k == s.len() {
        assert(recs.len() == 0);
        assert(s.subrange(0, k) =~= s);
    } else {
        lemma_todo_row_round_trip(s[k]);
        assert(recs[0] == crate::codec::encode_row_spec(crate::repository::todo_row(s[k])));
        assert(recs[0].len() >= 1);
        assert(forall|e: int| #![trigger s.subrange(0, k)[e]] 0 <= e < k ==> s.subrange(0, k)[e]
            == s[e]);
        crate::tables::lemma_todo_upsert_append(s.subrange(0, k), s[k]);
        assert(s.subrange(0, k).push(s[k]) =~= s.subrange(0, k + 1));
        assert(recs.drop_first() =~= Seq::new(
            (s.len() - (k + 1)) as nat,
            |i: int| crate::codec::encode_row_spec(crate::repository::todo_row(s[k + 1 + i])),
        ));
        lemma_load_todo_rows_rebuild(s, k + 1);
    }
}

proof fn lemma_load_mark_rows_rebuild(s: Seq<MarkView>, k: int)
    requires
        marks_sorted(s),
        forall|i: int| #![trigger s[i]] 0 <= i < s.len() ==> mark_in_range(s[i]),
        forall|i: int| #![trigger s[i]] 0 <= i < s.len() ==> mark_refs_ok(s[i]),
        0 <= k <= s.len(),
    ensures
        crate::repository::load_mark_rows(
            Seq::new(
                (s.len() - k) as nat,
                |i: int| crate::codec::encode_row_spec(crate::repository::mark_row(s[k + i])),
            ),
            s.subrange(0, k),
        ) == Some(s),
    decreases (s.len() - k) as nat,
{
    let recs = Seq::new(
        (s.len() - k) as nat,
        |i: int| crate::codec::encode_row_spec(crate::repository::mark_row(s[k + i])),
    );
    if k == s.len() {
        assert(recs.len() == 0);
        assert(s.subrange(0, k) =~= s);
    } else {
        assert(mark_refs_ok(s[k]));
        lemma_mark_row_round_trip(s[k]);
        assert(recs[0] == crate::codec::encode_row_spec(crate::repository::mark_row(s[k])));
        assert(recs[0].len() >= 1);
        assert(forall|e: int| #![trigger s.subrange(0, k)[e]] 0 <= e < k ==> s.subrange(0, k)[e]
            == s[e]);
        lemma_mark_insert_sorted_append(s, k);
        assert(recs.drop_first() =~= Seq::new(
            (s.len() - (k + 1)) as nat,
            |i: int| crate::codec::encode_row_spec(crate::repository::mark_row(s[k + 1 + i])),
        ));
        lemma_load_mark_rows_rebuild(s, k + 1);
    }
}

/// Inserting the next mark of a sorted sequence at its canonical place
/// appends it.
proof fn lemma_mark_insert_sorted_append(s: Seq<MarkView>, k: int)
    requires
        marks_sorted(s),
        0 <= k < s.len(),
    ensures
        mark_insert(s.subrange(0, k), s[k]) == s.subrange(0, k + 1),
{
    let p = s.subrange(0, k);
    if k == 0 {
        assert(p.len() == 0);
        assert(mark_insert(p, s[k]) =~= seq![s[k]]);
        assert(seq![s[k]] =~= s.subrange(0, 1));
    } else {
        assert(p.last() == s[k - 1]);
        assert(!mark_lt(s[k], s[k - 1]));
        assert(mark_insert(p, s[k]) == p.push(s[k]));
        assert(p.push(s[k]) =~= s.subrange(0, k + 1));
    }
}

/// Durability under reopen: loading the rendered timers file, with the
/// trailing newline the atomic writer appends, reproduces the exact
/// collection state.
#[verifier::rlimit(60)]
pub proof fn lemma_timers_durability(s: Seq<TimerView>)
    requires
        timers_sorted(s),
        forall|i: int| #![trigger s[i]] 0 <= i < s.len() ==> timer_in_range(s[i]),
    ensures
        crate::repository::load_timers_spec(timers_render_spec(s) + seq!['\n']) == Some(s),
{
    let hdr = crate::repository::timer_columns();
    let rows = crate::repository::timer_rows(s);
    let all = seq![hdr] + rows;
    assert(all[0] == hdr);
    assert(all.drop_first() =~= rows);
    lemma_rows_join_text(rows);
    assert(timers_render_spec(s) + seq!['\n'] =~= crate::codec::encode_row_spec(hdr) + (
    crate::repository::rows_join(rows) + seq!['\n']));
    assert(crate::codec::rows_text(all) =~= crate::codec::encode_row_spec(hdr) + (seq!['\n']
        + crate::codec::rows_text(rows)));
    assert(timers_render_spec(s) + seq!['\n'] =~= crate::codec::rows_text(all));
    assert(forall|i: int| 0 <= i < all.len() ==> #[trigger] all[i].len() >= 2) by {
        assert(forall|i: int| 0 <= i < rows.len() ==> #[trigger] rows[i].len() == 6);
        assert(forall|i: int| 1 <= i < all.len() ==> #[trigger] all[i] == rows[i - 1]);
    }
    crate::codec::lemma_split_encoded_rows(all);
    let recs = Seq::new(all.len(), |i: int| crate::codec::encode_row_spec(all[i]));
    assert(recs[0] == crate::repository::timers_header_spec());
    assert(recs.drop_first() =~= Seq::new(
        (s.len() - 0) as nat,
        |i: int| crate::codec::encode_row_spec(crate::repository::timer_row(s[0 + i])),
    ));
    assert(s.subrange(0, 0) =~= Seq::<TimerView>::empty());
    lemma_load_timer_rows_rebuild(s, 0);
    assert(crate::repository::load_timer_rows(recs.drop_first(), s.subrange(0, 0)) == Some(s));
}

/// Durability under reopen for the todos file.
#[verifier::rlimit(60)]
pub proof fn lemma_todos_durability(s: Seq<TodoView>)
    requires
        todos_sorted(s),
        forall|i: int| #![trigger s[i]] 0 <= i < s.len() ==> todo_in_range(s[i]),
    ensures
        crate::repository::load_todos_spec(todos_render_spec(s) + seq!['\n']) == Some(s),
{
    let hdr = crate::repository::todo_columns();
    let rows = crate::repository::todo_rows(s);
    let all = seq![hdr] + rows;
    assert(all[0] == hdr);
    assert(all.drop_first() =~= rows);
    lemma_rows_join_text(rows);
    assert(todos_render_spec(s) + seq!['\n'] =~= crate::codec::encode_row_spec(hdr) + (
    crate::repository::rows_join(rows) + seq!['\n']));
    assert(crate::codec::rows_text(all) =~= crate::codec::encode_row_spec(hdr) + (seq!['\n']
        + crate::codec::rows_text(rows)));
    assert(todos_render_spec(s) + seq!['\n'] =~= crate::codec::rows_text(all));
    assert(forall|i: int| 0 <= i < all.len() ==> #[trigger] all[i].len() >= 2) by {
        assert(forall|i: int| 0 <= i < rows.len() ==> #[trigger] rows[i].len() == 7);
        assert(forall|i: int| 1 <= i < all.len() ==> #[trigger] all[i] == rows[i - 1]);
    }
    crate::codec::lemma_split_encoded_rows(all);
    let recs = Seq::new(all.len(), |i: int| crate::codec::encode_row_spec(all[i]));
    assert(recs[0] == crate::repository::todos_header_spec());
    assert(recs.drop_first() =~= Seq::new(
        (s.len() - 0) as nat,
        |i: int| crate::codec::encode_row_spec(crate::repository::todo_row(s[0 + i])),
    ));
    assert(s.subrange(0, 0) =~= Seq::<TodoView>::empty());
    lemma_load_todo_rows_rebuild(s, 0);
    assert(crate::repository::load_todo_rows(recs.drop_first(), s.subrange(0, 0)) == Some(s));
}

/// Durability under reopen for the marks file, including multi-line
/// description text; the todo-id references must be non-empty, free of the
/// separator and unchanged by trimming, as store-assigned ids are.
#[verifier::rlimit(60)]
pub proof fn lemma_marks_durability(s: Seq<MarkView>)
    requires
        marks_sorted(s),
        forall|i: int| #![trigger s[i]] 0 <= i < s.len() ==> mark_in_range(s[i]),
        forall|i: int| #![trigger s[i]] 0 <= i < s.len() ==> mark_refs_ok(s[i]),
    ensures
        crate::repository::load_marks_spec(marks_render_spec(s) + seq!['\n']) == Some(s),
{
    let hdr = crate::repository::mark_columns();
    let rows = crate::repository::mark_rows(s);
    let all = seq![hdr] + rows;
    assert(all[0] == hdr);
    assert(all.drop_first() =~= rows);
    lemma_rows_join_text(rows);
    assert(marks_render_spec(s) + seq!['\n'] =~= crate::codec::encode_row_spec(hdr) + (
    crate::repository::rows_join(rows) + seq!['\n']));
    assert(crate::codec::rows_text(all) =~= crate::codec::encode_row_spec(hdr) + (seq!['\n']
        + crate::codec::rows_text(rows)));
    assert(marks_render_spec(s) + seq!['\n'] =~= crate::codec::rows_text(all));
    assert(forall|i: int| 0 <= i < all.len() ==> #[trigger] all[i].len() >= 2) by {
        assert(forall|i: int| 0 <= i < rows.len() ==> #[trigger] rows[i].len() == 7);
        assert(forall|i: int| 1 <= i < all.len() ==> #[trigger] all[i] == rows[i - 1]);
    }
    crate::codec::lemma_split_encoded_rows(all);
    let recs = Seq::new(all.len(), |i: int| crate::codec::encode_row_spec(all[i]));
    assert(recs[0] == crate::repository::marks_header_spec());
    assert(recs.drop_first() =~= Seq::new(
        (s.len() - 0) as nat,
        |i: int| crate::codec::encode_row_spec(crate::repository::mark_row(s[0 + i])),
    ));
    assert(s.subrange(0, 0) =~= Seq::<MarkView>::empty());
    lemma_load_mark_rows_rebuild(s, 0);
    assert(crate::repository::load_mark_rows(recs.drop_first(), s.subrange(0, 0)) == Some(s));
}

/// Header integrity: a timers file whose first record does not match the
/// expected header exactly never loads, so construction fails.
pub proof fn lemma_timers_header_integrity(content: Seq<char>)
    requires
        crate::codec::split_records_spec(content) matches Some(recs) ==> recs.len() == 0 || recs[0]
            != crate::repository::timers_header_spec(),
    ensures
        crate::repository::load_timers_spec(content) is None,
{
}

/// Header integrity for the todos file.
pub proof fn lemma_todos_header_integrity(content: Seq<char>)
    requires
        crate::codec::split_records_spec(content) matches Some(recs) ==> recs.len() == 0 || recs[0]
            != crate::repository::todos_header_spec(),
    ensures
        crate::repository::load_todos_spec(content) is None,
{
}

/// Header integrity for the marks file.
pub proof fn lemma_marks_header_integrity(content: Seq<char>)
    requires
        crate::codec::split_records_spec(content) matches Some(recs) ==> recs.len() == 0 || recs[0]
            != crate::repository::marks_header_spec(),
    ensures
        crate::repository::load_marks_spec(content) is None,
{
}

} // verus!