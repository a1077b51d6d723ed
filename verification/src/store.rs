//! The relational store: four in-memory tables (plans, plan days, writing
//! sessions, tasks) behind one handle, with sequential row ids.  Rows are
//! kept in insertion order, so id order is creation order.
//!
//! `wf` is the store invariant: ids strictly increase along each table and
//! stay below the id counters, day rows reference existing plans, writing
//! rows reference existing days or nothing, and every plan's `total_days`
//! equals its live day-row count.

use vstd::prelude::*;
use crate::models::{PlanStatus, Priority, RepeatType, WritingPlan, Writing, Task};

verus! {

/// Spec-level content of a plan, shared by stored rows and returned models.
#[verifier::ext_equal]
pub ghost struct PlanModel {
    pub id: Option<i64>,
    pub name: Seq<char>,
    pub theme: Option<Seq<char>>,
    pub start_date: Seq<char>,
    pub total_days: int,
    pub status: PlanStatus,
    pub created_at: Option<Seq<char>>,
}

/// Spec-level content of a writing session.
#[verifier::ext_equal]
pub ghost struct WritingModel {
    pub id: Option<i64>,
    pub plan_day_id: Option<i64>,
    pub title: Seq<char>,
    pub content: Seq<char>,
    pub word_count: int,
    pub duration_seconds: int,
    pub written_date: Seq<char>,
    pub created_at: Option<Seq<char>>,
}

/// Spec-level content of a task.
#[verifier::ext_equal]
pub ghost struct TaskModel {
    pub id: Option<i64>,
    pub title: Seq<char>,
    pub description: Option<Seq<char>>,
    pub priority: Priority,
    pub due_date: Option<Seq<char>>,
    pub repeat: Option<RepeatType>,
    pub completed: bool,
    pub created_at: Option<Seq<char>>,
    pub updated_at: Option<Seq<char>>,
}

pub open spec fn opt_str_view(o: Option<String>) -> Option<Seq<char>> {
    match o {
        Some(s) => Some(s@),
        None => None,
    }
}

/// A stored writing plan.
#[derive(Debug, Clone)]
pub struct PlanRow {
    pub id: i64,
    pub name: String,
    pub theme: Option<String>,
    pub start_date: String,
    pub total_days: i32,
    pub status: PlanStatus,
    pub created_at: String,
}

/// A stored plan day.
#[derive(Debug, Clone)]
pub struct DayRow {
    pub id: i64,
    pub plan_id: i64,
    pub day_number: i32,
    pub title: String,
    pub prompt: String,
    pub scheduled_date: Option<String>,
}

/// A stored writing session.
#[derive(Debug, Clone)]
pub struct WritingRow {
    pub id: i64,
    pub plan_day_id: Option<i64>,
    pub title: String,
    pub content: String,
    pub word_count: i32,
    pub duration_seconds: i32,
    pub written_date: String,
    pub created_at: String,
}

/// A stored task.
#[derive(Debug, Clone)]
pub struct TaskRow {
    pub id: i64,
    pub title: String,
    pub description: Option<String>,
    pub priority: Priority,
    pub due_date: Option<String>,
    pub repeat: Option<RepeatType>,
    pub completed: bool,
    pub created_at: String,
    pub updated_at: String,
}

/// The content of a stored plan row, as the caller sees it.
pub open spec fn plan_row_model(p: PlanRow) -> PlanModel {
    PlanModel {
        id: Some(p.id),
        name: p.name@,
        theme: opt_str_view(p.theme),
        start_date: p.start_date@,
        total_days: p.total_days as int,
        status: p.status,
        created_at: Some(p.created_at@),
    }
}

/// The content of a returned plan model.
pub open spec fn plan_model(w: WritingPlan) -> PlanModel {
    PlanModel {
        id: w.id,
        name: w.name@,
        theme: opt_str_view(w.theme),
        start_date: w.start_date@,
        total_days: w.total_days as int,
        status: w.status,
        created_at: opt_str_view(w.created_at),
    }
}

/// The content of a stored writing row, as the caller sees it.
pub open spec fn writing_row_model(w: WritingRow) -> WritingModel {
    WritingModel {
        id: Some(w.id),
        plan_day_id: w.plan_day_id,
        title: w.title@,
        content: w.content@,
        word_count: w.word_count as int,
        duration_seconds: w.duration_seconds as int,
        written_date: w.written_date@,
        created_at: Some(w.created_at@),
    }
}

/// The content of a returned writing model.
pub open spec fn writing_model(w: Writing) -> WritingModel {
    WritingModel {
        id: w.id,
        plan_day_id: w.plan_day_id,
        title: w.title@,
        content: w.content@,
        word_count: w.word_count as int,
        duration_seconds: w.duration_seconds as int,
        written_date: w.written_date@,
        created_at: opt_str_view(w.created_at),
    }
}

/// The content of a stored task row, as the caller sees it: the due date is
/// handed back exactly as stored.
pub open spec fn task_row_model(t: TaskRow) -> TaskModel {
    TaskModel {
        id: Some(t.id),
        title: t.title@,
        description: opt_str_view(t.description),
        priority: t.priority,
        due_date: opt_str_view(t.due_date),
        repeat: t.repeat,
        completed: t.completed,
        created_at: Some(t.created_at@),
        updated_at: Some(t.updated_at@),
    }
}

/// The content of a returned task model.
pub open spec fn task_model(t: Task) -> TaskModel {
    TaskModel {
        id: t.id,
        title: t.title@,
        description: opt_str_view(t.description),
        priority: t.priority,
        due_date: opt_str_view(t.due_date),
        repeat: t.repeat,
        completed: t.completed,
        created_at: opt_str_view(t.created_at),
        updated_at: opt_str_view(t.updated_at),
    }
}

/// Clone an optional string, keeping the value.
pub(crate) fn clone_opt_string(o: &Option<String>) -> (r: Option<String>)
    ensures
        r == *o,
{
    match o {
        Some(s) => Some(s.clone()),
        None => None,
    }
}

/// The plan rows that do not carry `plan_id`.
pub open spec fn plan_id_ne(plan_id: i64) -> spec_fn(PlanRow) -> bool {
    |p: PlanRow| p.id != plan_id
}

/// The task rows that do not carry `task_id`.
pub open spec fn task_id_ne(task_id: i64) -> spec_fn(TaskRow) -> bool {
    |t: TaskRow| t.id != task_id
}

/// The day rows outside the plan `plan_id`.
pub open spec fn day_plan_ne(plan_id: i64) -> spec_fn(DayRow) -> bool {
    |d: DayRow| d.plan_id != plan_id
}

/// The day rows of the plan `plan_id`.
pub open spec fn day_in_plan(plan_id: i64) -> spec_fn(DayRow) -> bool {
    |d: DayRow| d.plan_id == plan_id
}

/// The day rows of `plan_id` whose `(day_number, id)` key precedes the given
/// key: the rows renumbering puts before it.
pub open spec fn rank_pred(plan_id: i64, dn: int, id: i64) -> spec_fn(DayRow) -> bool {
    |d: DayRow| d.plan_id == plan_id && (d.day_number < dn || (d.day_number == dn && d.id < id))
}

/// Position of a day key in its plan's `(day_number, id)` order over `s`.
pub open spec fn lex_rank(s: Seq<DayRow>, plan_id: i64, dn: int, id: i64) -> int {
    s.filter(rank_pred(plan_id, dn, id)).len() as int
}

/// A strictly smaller key sits at a strictly smaller rank.
pub proof fn lemma_lex_rank_strict(s: Seq<DayRow>, plan_id: i64, k1: int, k2: int)
    requires
        0 <= k1 < s.len(),
        0 <= k2 < s.len(),
        s[k1].plan_id == plan_id,
        s[k2].plan_id == plan_id,
        s[k1].day_number < s[k2].day_number || (s[k1].day_number == s[k2].day_number && s[k1].id
            < s[k2].id),
    ensures
        lex_rank(s, plan_id, s[k1].day_number as int, s[k1].id) < lex_rank(
            s,
            plan_id,
            s[k2].day_number as int,
            s[k2].id,
        ),
{
    let p1 = rank_pred(plan_id, s[k1].day_number as int, s[k1].id);
    let p2 = rank_pred(plan_id, s[k2].day_number as int, s[k2].id);
    assert forall|x: DayRow| #[trigger] p1(x) implies p2(x) by {
        assert(p1(x) == (x.plan_id == plan_id && (x.day_number < s[k1].day_number || (x.day_number
            == s[k1].day_number && x.id < s[k1].id))));
        assert(p2(x) == (x.plan_id == plan_id && (x.day_number < s[k2].day_number || (x.day_number
            == s[k2].day_number && x.id < s[k2].id))));
    }
    assert(p2(s[k1]));
    assert(!p1(s[k1]));
    lemma_filter_len_implies_strict(s, p1, p2, k1);
}

/// A rank stays below the plan's day count: the row itself never counts.
pub proof fn lemma_lex_rank_below_count(s: Seq<DayRow>, plan_id: i64, k: int)
    requires
        0 <= k < s.len(),
        s[k].plan_id == plan_id,
    ensures
        0 <= lex_rank(s, plan_id, s[k].day_number as int, s[k].id) < s.filter(
            day_in_plan(plan_id),
        ).len(),
{
    let p1 = rank_pred(plan_id, s[k].day_number as int, s[k].id);
    let p2 = day_in_plan(plan_id);
    assert forall|x: DayRow| #[trigger] p1(x) implies p2(x) by {
        assert(p1(x) ==> x.plan_id == plan_id);
        assert(p2(x) == (x.plan_id == plan_id));
    }
    assert(p2(s[k]));
    assert(!p1(s[k]));
    lemma_filter_len_implies_strict(s, p1, p2, k);
}

/// Filtering a single element keeps it exactly when it passes.
pub proof fn lemma_filter_singleton<A>(x: A, pred: spec_fn(A) -> bool)
    ensures
        seq![x].filter(pred) == if pred(x) {
            seq![x]
        } else {
            Seq::<A>::empty()
        },
{
    reveal(Seq::filter);
    assert(seq![x].drop_last() =~= Seq::<A>::empty());
    assert(Seq::<A>::empty().filter(pred) =~= Seq::<A>::empty());
    if pred(x) {
        assert(seq![x].filter(pred) =~= Seq::<A>::empty().push(x));
        assert(Seq::<A>::empty().push(x) =~= seq![x]);
    }
}

/// The writing rows recorded against the day `day_id`.
pub open spec fn writing_of_day(day_id: i64) -> spec_fn(WritingRow) -> bool {
    |w: WritingRow| w.plan_day_id == Some(day_id)
}

/// One filtering step: extending the prefix by one element extends the
/// filtered prefix exactly when the element passes.
pub proof fn lemma_filter_take_step<A>(s: Seq<A>, pred: spec_fn(A) -> bool, j: int)
    requires
        0 <= j < s.len(),
    ensures
        s.take(j + 1).filter(pred) == if pred(s[j]) {
            s.take(j).filter(pred).push(s[j])
        } else {
            s.take(j).filter(pred)
        },
{
    reveal(Seq::filter);
    assert(s.take(j + 1).drop_last() =~= s.take(j));
    assert(s.take(j + 1).last() == s[j]);
}

/// Filtering keeps nothing out when every element passes.
pub proof fn lemma_filter_all_true<A>(s: Seq<A>, pred: spec_fn(A) -> bool)
    requires
        forall|i: int| 0 <= i < s.len() ==> pred(#[trigger] s[i]),
    ensures
        s.filter(pred) == s,
    decreases s.len(),
{
    reveal(Seq::filter);
    if s.len() > 0 {
        lemma_filter_all_true(s.drop_last(), pred);
        assert(s.drop_last().push(s.last()) =~= s);
    }
}

/// Filtering keeps nothing when no element passes.
pub proof fn lemma_filter_all_false<A>(s: Seq<A>, pred: spec_fn(A) -> bool)
    requires
        forall|i: int| 0 <= i < s.len() ==> !pred(#[trigger] s[i]),
    ensures
        s.filter(pred) == Seq::<A>::empty(),
    decreases s.len(),
{
    reveal(Seq::filter);
    if s.len() > 0 {
        lemma_filter_all_false(s.drop_last(), pred);
    }
}

/// Everything in the filtered sequence comes from the original.
pub proof fn lemma_filter_subset<A>(s: Seq<A>, pred: spec_fn(A) -> bool)
    ensures
        forall|x: A| s.filter(pred).contains(x) ==> s.contains(x),
    decreases s.len(),
{
    reveal(Seq::filter);
    if s.len() > 0 {
        lemma_filter_subset(s.drop_last(), pred);
        assert forall|x: A| s.filter(pred).contains(x) implies s.contains(x) by {
            if s.drop_last().contains(x) {
                let i = choose|i: int|
                    0 <= i < s.drop_last().len() && s.drop_last()[i] == x;
                assert(s[i] == x);
            } else {
                assert(x == s.last());
            }
        }
    }
}

/// Filtering a sequence of strictly increasing ids leaves the ids strictly
/// increasing.
pub proof fn lemma_filter_keeps_increasing<A>(
    s: Seq<A>,
    pred: spec_fn(A) -> bool,
    id_of: spec_fn(A) -> i64,
)
    requires
        forall|i: int, j: int|
            0 <= i < j < s.len() ==> id_of(#[trigger] s[i]) < id_of(#[trigger] s[j]),
    ensures
        forall|i: int, j: int|
            0 <= i < j < s.filter(pred).len() ==> id_of(#[trigger] s.filter(pred)[i]) < id_of(
                #[trigger] s.filter(pred)[j],
            ),
    decreases s.len(),
{
    reveal(Seq::filter);
    if s.len() > 0 {
        lemma_filter_keeps_increasing(s.drop_last(), pred, id_of);
        lemma_filter_subset(s.drop_last(), pred);
        if pred(s.last()) {
            let f = s.drop_last().filter(pred);
            assert forall|i: int, j: int|
                0 <= i < j < f.push(s.last()).len() implies id_of(
                #[trigger] f.push(s.last())[i],
            ) < id_of(#[trigger] f.push(s.last())[j]) by {
                if j < f.len() {
                    assert(f.push(s.last())[i] == f[i]);
                    assert(f.push(s.last())[j] == f[j]);
                } else {
                    assert(f.push(s.last())[j] == s.last());
                    assert(f.contains(f[i]));
                    assert(s.drop_last().contains(f[i]));
                    let k = choose|k: int|
                        0 <= k < s.drop_last().len() && s.drop_last()[k] == f[i];
                    assert(s[k] == f[i]);
                    assert(id_of(s[k]) < id_of(s.last()));
                }
            }
        }
    }
}

/// A second filter is unaffected by a first, broader one.
pub proof fn lemma_filter_of_filter_implied<A>(s: Seq<A>, p1: spec_fn(A) -> bool, p2: spec_fn(
    A,
) -> bool)
    requires
        forall|x: A| #[trigger] p2(x) ==> p1(x),
    ensures
        s.filter(p1).filter(p2) == s.filter(p2),
    decreases s.len(),
{
    reveal(Seq::filter);
    if s.len() > 0 {
        lemma_filter_of_filter_implied(s.drop_last(), p1, p2);
        if p1(s.last()) {
            assert(s.filter(p1) == s.drop_last().filter(p1).push(s.last()));
            assert(s.filter(p1).drop_last() =~= s.drop_last().filter(p1));
        }
    }
}

/// A narrower predicate never keeps more elements.
pub proof fn lemma_filter_len_implies<A>(s: Seq<A>, p1: spec_fn(A) -> bool, p2: spec_fn(A) -> bool)
    requires
        forall|x: A| #[trigger] p1(x) ==> p2(x),
    ensures
        s.filter(p1).len() <= s.filter(p2).len(),
    decreases s.len(),
{
    reveal(Seq::filter);
    if s.len() > 0 {
        lemma_filter_len_implies(s.drop_last(), p1, p2);
    }
}

/// A narrower predicate keeps strictly fewer elements when some element
/// passes only the wider one.
pub proof fn lemma_filter_len_implies_strict<A>(
    s: Seq<A>,
    p1: spec_fn(A) -> bool,
    p2: spec_fn(A) -> bool,
    w: int,
)
    requires
        forall|x: A| #[trigger] p1(x) ==> p2(x),
        0 <= w < s.len(),
        p2(s[w]),
        !p1(s[w]),
    ensures
        s.filter(p1).len() < s.filter(p2).len(),
    decreases s.len(),
{
    reveal(Seq::filter);
    if w == s.len() - 1 {
        lemma_filter_len_implies(s.drop_last(), p1, p2);
    } else {
        lemma_filter_len_implies_strict(s.drop_last(), p1, p2, w);
        assert(s.drop_last()[w] == s[w]);
    }
}

/// Sequences that agree pointwise on the predicate keep the same number of
/// elements.
pub proof fn lemma_filter_len_eq_pointwise<A>(s1: Seq<A>, s2: Seq<A>, pred: spec_fn(A) -> bool)
    requires
        s1.len() == s2.len(),
        forall|k: int| 0 <= k < s1.len() ==> pred(#[trigger] s1[k]) == pred(#[trigger] s2[k]),
    ensures
        s1.filter(pred).len() == s2.filter(pred).len(),
    decreases s1.len(),
{
    reveal(Seq::filter);
    if s1.len() > 0 {
        lemma_filter_len_eq_pointwise(s1.drop_last(), s2.drop_last(), pred);
    }
}

/// Filtering writing rows keeps their ids strictly increasing.
pub proof fn lemma_filter_writings_increasing(s: Seq<WritingRow>, pred: spec_fn(WritingRow) -> bool)
    requires
        forall|a: int, b: int| 0 <= a < b < s.len() ==> (#[trigger] s[a]).id < (#[trigger] s[b]).id,
    ensures
        forall|a: int, b: int|
            0 <= a < b < s.filter(pred).len() ==> (#[trigger] s.filter(pred)[a]).id < (
            #[trigger] s.filter(pred)[b]).id,
{
    let id_of = |w: WritingRow| w.id;
    assert forall|a: int, b: int| 0 <= a < b < s.len() implies #[trigger] id_of(s[a]) < #[trigger] id_of(
        s[b],
    ) by {}
    lemma_filter_keeps_increasing(s, pred, id_of);
    assert forall|a: int, b: int|
        0 <= a < b < s.filter(pred).len() implies (#[trigger] s.filter(pred)[a]).id < (
    #[trigger] s.filter(pred)[b]).id by {
        assert(id_of(s.filter(pred)[a]) < id_of(s.filter(pred)[b]));
    }
}

/// Under strictly increasing ids, two plan rows with the same id sit at the
/// same index.
pub proof fn lemma_plan_ids_unique(s: Seq<PlanRow>, i: int, j: int)
    requires
        forall|a: int, b: int| 0 <= a < b < s.len() ==> (#[trigger] s[a]).id < (#[trigger] s[b]).id,
        0 <= i < s.len(),
        0 <= j < s.len(),
        s[i].id == s[j].id,
    ensures
        i == j,
{
}

/// Under strictly increasing ids, two day rows with the same id sit at the
/// same index.
pub proof fn lemma_day_ids_unique(s: Seq<DayRow>, i: int, j: int)
    requires
        forall|a: int, b: int| 0 <= a < b < s.len() ==> (#[trigger] s[a]).id < (#[trigger] s[b]).id,
        0 <= i < s.len(),
        0 <= j < s.len(),
        s[i].id == s[j].id,
    ensures
        i == j,
{
}

/// Filtering plan rows keeps their ids strictly increasing.
pub proof fn lemma_filter_plans_increasing(s: Seq<PlanRow>, pred: spec_fn(PlanRow) -> bool)
    requires
        forall|a: int, b: int| 0 <= a < b < s.len() ==> (#[trigger] s[a]).id < (#[trigger] s[b]).id,
    ensures
        forall|a: int, b: int|
            0 <= a < b < s.filter(pred).len() ==> (#[trigger] s.filter(pred)[a]).id < (
            #[trigger] s.filter(pred)[b]).id,
{
    let id_of = |p: PlanRow| p.id;
    assert forall|a: int, b: int| 0 <= a < b < s.len() implies #[trigger] id_of(s[a]) < #[trigger] id_of(
        s[b],
    ) by {}
    lemma_filter_keeps_increasing(s, pred, id_of);
    assert forall|a: int, b: int|
        0 <= a < b < s.filter(pred).len() implies (#[trigger] s.filter(pred)[a]).id < (
    #[trigger] s.filter(pred)[b]).id by {
        assert(id_of(s.filter(pred)[a]) < id_of(s.filter(pred)[b]));
    }
}

/// Filtering day rows keeps their ids strictly increasing.
pub proof fn lemma_filter_days_increasing(s: Seq<DayRow>, pred: spec_fn(DayRow) -> bool)
    requires
        forall|a: int, b: int| 0 <= a < b < s.len() ==> (#[trigger] s[a]).id < (#[trigger] s[b]).id,
    ensures
        forall|a: int, b: int|
            0 <= a < b < s.filter(pred).len() ==> (#[trigger] s.filter(pred)[a]).id < (
            #[trigger] s.filter(pred)[b]).id,
{
    let id_of = |d: DayRow| d.id;
    assert forall|a: int, b: int| 0 <= a < b < s.len() implies #[trigger] id_of(s[a]) < #[trigger] id_of(
        s[b],
    ) by {}
    lemma_filter_keeps_increasing(s, pred, id_of);
    assert forall|a: int, b: int|
        0 <= a < b < s.filter(pred).len() implies (#[trigger] s.filter(pred)[a]).id < (
    #[trigger] s.filter(pred)[b]).id by {
        assert(id_of(s.filter(pred)[a]) < id_of(s.filter(pred)[b]));
    }
}

/// The store handle.
pub struct Store {
    pub plans: Vec<PlanRow>,
    pub days: Vec<DayRow>,
    pub writings: Vec<WritingRow>,
    pub tasks: Vec<TaskRow>,
    pub next_plan_id: i64,
    pub next_day_id: i64,
    pub next_writing_id: i64,
    pub next_task_id: i64,
}

impl Store {
    /// Some plan row carries this id.
    pub open spec fn has_plan(self, id: i64) -> bool {
        exists|i: int| 0 <= i < self.plans@.len() && (#[trigger] self.plans@[i]).id == id
    }

    /// Some day row carries this id.
    pub open spec fn has_day(self, id: i64) -> bool {
        exists|i: int| 0 <= i < self.days@.len() && (#[trigger] self.days@[i]).id == id
    }

    /// Some writing row carries this id.
    pub open spec fn has_writing(self, id: i64) -> bool {
        exists|i: int| 0 <= i < self.writings@.len() && (#[trigger] self.writings@[i]).id == id
    }

    /// Some task row carries this id.
    pub open spec fn has_task(self, id: i64) -> bool {
        exists|i: int| 0 <= i < self.tasks@.len() && (#[trigger] self.tasks@[i]).id == id
    }

    /// The day rows of one plan, in stored order.
    pub open spec fn days_of(self, plan_id: i64) -> Seq<DayRow> {
        self.days@.filter(|d: DayRow| d.plan_id == plan_id)
    }

    /// Some day row carries `day_id` and belongs to the plan `plan_id`.
    pub open spec fn day_of_plan(self, day_id: i64, plan_id: i64) -> bool {
        exists|i: int|
            0 <= i < self.days@.len() && (#[trigger] self.days@[i]).id == day_id
                && self.days@[i].plan_id == plan_id
    }

    /// The writing rows recorded against one day, in stored order.
    pub open spec fn writings_of_day(self, day_id: i64) -> Seq<WritingRow> {
        self.writings@.filter(|w: WritingRow| w.plan_day_id == Some(day_id))
    }

    /// The store invariant.
    pub open spec fn wf(self) -> bool {
        &&& forall|i: int, j: int|
            0 <= i < j < self.plans@.len() ==> (#[trigger] self.plans@[i]).id < (
            #[trigger] self.plans@[j]).id
        &&& forall|i: int, j: int|
            0 <= i < j < self.days@.len() ==> (#[trigger] self.days@[i]).id < (
            #[trigger] self.days@[j]).id
        &&& forall|i: int, j: int|
            0 <= i < j < self.writings@.len() ==> (#[trigger] self.writings@[i]).id < (
            #[trigger] self.writings@[j]).id
        &&& forall|i: int, j: int|
            0 <= i < j < self.tasks@.len() ==> (#[trigger] self.tasks@[i]).id < (
            #[trigger] self.tasks@[j]).id
        &&& 0 < self.next_plan_id
        &&& 0 < self.next_day_id
        &&& 0 < self.next_writing_id
        &&& 0 < self.next_task_id
        &&& forall|i: int|
            0 <= i < self.plans@.len() ==> 0 < (#[trigger] self.plans@[i]).id < self.next_plan_id
        &&& forall|i: int|
            0 <= i < self.days@.len() ==> 0 < (#[trigger] self.days@[i]).id < self.next_day_id
        &&& forall|i: int|
            0 <= i < self.writings@.len() ==> 0 < (#[trigger] self.writings@[i]).id
                < self.next_writing_id
        &&& forall|i: int|
            0 <= i < self.tasks@.len() ==> 0 < (#[trigger] self.tasks@[i]).id < self.next_task_id
        &&& forall|i: int|
            0 <= i < self.days@.len() ==> self.has_plan((#[trigger] self.days@[i]).plan_id)
        &&& forall|i: int|
            0 <= i < self.writings@.len() ==> match (#[trigger] self.writings@[i]).plan_day_id {
                Some(d) => self.has_day(d),
                None => true,
            }
        &&& forall|i: int|
            0 <= i < self.plans@.len() ==> (#[trigger] self.plans@[i]).total_days as int
                == self.days_of(self.plans@[i].id).len()
    }

    /// The day numbers of one plan are dense: each lies in `1..=count` and no
    /// two are equal — together, the set is exactly `{1, ..., count}`.
    pub open spec fn days_dense(self, plan_id: i64) -> bool {
        let ds = self.days_of(plan_id);
        &&& forall|i: int|
            0 <= i < ds.len() ==> 1 <= (#[trigger] ds[i]).day_number <= ds.len()
        &&& forall|i: int, j: int|
            0 <= i < j < ds.len() ==> ds[i].day_number != ds[j].day_number
    }

    /// An empty store.
    pub fn new() -> (r: Store)
        ensures
            r.wf(),
            r.plans@.len() == 0,
            r.days@.len() == 0,
            r.writings@.len() == 0,
            r.tasks@.len() == 0,
    {
        let r = Store {
            plans: Vec::new(),
            days: Vec::new(),
            writings: Vec::new(),
            tasks: Vec::new(),
            next_plan_id: 1,
            next_day_id: 1,
            next_writing_id: 1,
            next_task_id: 1,
        };
        proof {
            assert(r.days@.filter(|d: DayRow| d.plan_id == 0) =~= Seq::<DayRow>::empty());
        }
        r
    }

    /// Index of the plan row carrying `id`.
    pub(crate) fn find_plan(&self, id: i64) -> (r: Option<usize>)
        ensures
            match r {
                Some(i) => i < self.plans@.len() && self.plans@[i as int].id == id,
                None => !self.has_plan(id),
            },
    {
        let mut i: usize = 0;
        while i < self.plans.len()
            invariant
                0 <= i <= self.plans@.len(),
                forall|k: int| 0 <= k < i ==> (#[trigger] self.plans@[k]).id != id,
            decreases self.plans@.len() - i,
        {
            if self.plans[i].id == id {
                return Some(i);
            }
            i = i + 1;
        }
        None
    }

    /// Index of the day row carrying `id`.
    pub(crate) fn find_day(&self, id: i64) -> (r: Option<usize>)
        ensures
            match r {
                Some(i) => i < self.days@.len() && self.days@[i as int].id == id,
                None => !self.has_day(id),
            },
    {
        let mut i: usize = 0;
        while i < self.days.len()
            invariant
                0 <= i <= self.days@.len(),
                forall|k: int| 0 <= k < i ==> (#[trigger] self.days@[k]).id != id,
            decreases self.days@.len() - i,
        {
            if self.days[i].id == id {
                return Some(i);
            }
            i = i + 1;
        }
        None
    }

    /// Index of the task row carrying `id`.
    pub(crate) fn find_task(&self, id: i64) -> (r: Option<usize>)
        ensures
            match r {
                Some(i) => i < self.tasks@.len() && self.tasks@[i as int].id == id,
                None => !self.has_task(id),
            },
    {
        let mut i: usize = 0;
        while i < self.tasks.len()
            invariant
                0 <= i <= self.tasks@.len(),
                forall|k: int| 0 <= k < i ==> (#[trigger] self.tasks@[k]).id != id,
            decreases self.tasks@.len() - i,
        {
            if self.tasks[i].id == id {
                return Some(i);
            }
            i = i + 1;
        }
        None
    }

    /// Index of the writing row carrying `id`.
    pub(crate) fn find_writing(&self, id: i64) -> (r: Option<usize>)
        ensures
            match r {
                Some(i) => i < self.writings@.len() && self.writings@[i as int].id == id,
                None => !self.has_writing(id),
            },
    {
        let mut i: usize = 0;
        while i < self.writings.len()
            invariant
                0 <= i <= self.writings@.len(),
                forall|k: int| 0 <= k < i ==> (#[trigger] self.writings@[k]).id != id,
            decreases self.writings@.len() - i,
        {
            if self.writings[i].id == id {
                return Some(i);
            }
            i = i + 1;
        }
        None
    }
}

} // verus!
