//! Task store operations: plain create/read/update/delete over the task
//! table, the two ordered listings, and completion toggling.

use vstd::prelude::*;
use crate::errors::AppError;
use crate::models::{CreateTaskRequest, Priority, Task, UpdateTaskRequest};
use crate::sort::{lemma_count_two_indices, lemma_two_indices_count, sort_rows, sorted_le, TotalLe};
use crate::store::{clone_opt_string, lemma_filter_all_true, lemma_filter_take_step,
    lemma_filter_all_false, lemma_filter_keeps_increasing, opt_str_view, task_id_ne, task_model,
    task_row_model, Store, TaskRow};
use crate::text::{lemma_lex_lt_total, lemma_lex_lt_trans, lex_lt, str_eq, str_lt};

verus! {

/// The rank the storage text of a priority takes in descending text order:
/// `medium` > `low` > `high` lexicographically, so `medium` lists first.
pub open spec fn priority_text_rank(p: Priority) -> int {
    match p {
        Priority::Medium => 0,
        Priority::Low => 1,
        Priority::High => 2,
    }
}

/// Ascending order on optional due dates, absent ones first.
pub open spec fn due_lt(x: Option<Seq<char>>, y: Option<Seq<char>>) -> bool {
    match (x, y) {
        (None, None) => false,
        (None, Some(_)) => true,
        (Some(_), None) => false,
        (Some(a), Some(b)) => lex_lt(a, b),
    }
}

pub open spec fn due_eq(x: Option<Seq<char>>, y: Option<Seq<char>>) -> bool {
    match (x, y) {
        (None, None) => true,
        (Some(a), Some(b)) => a == b,
        _ => false,
    }
}

/// The listing order of all tasks: open before done, then due date
/// ascending with undated first, then priority in descending text order,
/// then most recently created first.
pub open spec fn task_le(a: TaskRow, b: TaskRow) -> bool {
    if a.completed != b.completed {
        !a.completed
    } else if !due_eq(opt_str_view(a.due_date), opt_str_view(b.due_date)) {
        due_lt(opt_str_view(a.due_date), opt_str_view(b.due_date))
    } else if priority_text_rank(a.priority) != priority_text_rank(b.priority) {
        priority_text_rank(a.priority) < priority_text_rank(b.priority)
    } else {
        b.id <= a.id
    }
}

impl TotalLe for TaskRow {
    open spec fn le_spec(&self, other: &Self) -> bool {
        task_le(*self, *other)
    }

    proof fn lemma_connex(a: &Self, b: &Self) {
        lemma_lex_lt_total_opt(opt_str_view(a.due_date), opt_str_view(b.due_date));
    }

    proof fn lemma_trans(a: &Self, b: &Self, c: &Self) {
        lemma_lex_lt_total_opt(opt_str_view(a.due_date), opt_str_view(b.due_date));
        lemma_lex_lt_total_opt(opt_str_view(b.due_date), opt_str_view(c.due_date));
        lemma_lex_lt_total_opt(opt_str_view(a.due_date), opt_str_view(c.due_date));
        if due_lt(opt_str_view(a.due_date), opt_str_view(b.due_date)) && due_lt(
            opt_str_view(b.due_date),
            opt_str_view(c.due_date),
        ) {
            lemma_due_lt_trans(
                opt_str_view(a.due_date),
                opt_str_view(b.due_date),
                opt_str_view(c.due_date),
            );
        }
    }

    fn le(&self, other: &Self) -> (r: bool) {
        if self.completed != other.completed {
            !self.completed
        } else {
            let de = opt_str_equal(&self.due_date, &other.due_date);
            if !de {
                opt_str_less(&self.due_date, &other.due_date)
            } else {
                let ra = priority_rank(self.priority);
                let rb = priority_rank(other.priority);
                if ra != rb {
                    ra < rb
                } else {
                    other.id <= self.id
                }
            }
        }
    }
}

/// Trichotomy over optional dates.
proof fn lemma_lex_lt_total_opt(x: Option<Seq<char>>, y: Option<Seq<char>>)
    ensures
        due_lt(x, y) || due_lt(y, x) || due_eq(x, y),
        !(due_lt(x, y) && due_lt(y, x)),
        due_lt(x, y) ==> !due_eq(x, y),
{
    match (x, y) {
        (Some(a), Some(b)) => {
            lemma_lex_lt_total(a, b);
        },
        _ => {},
    }
}

proof fn lemma_due_lt_trans(x: Option<Seq<char>>, y: Option<Seq<char>>, z: Option<Seq<char>>)
    requires
        due_lt(x, y),
        due_lt(y, z),
    ensures
        due_lt(x, z),
{
    match (x, y, z) {
        (Some(a), Some(b), Some(c)) => {
            lemma_lex_lt_trans(a, b, c);
        },
        _ => {},
    }
}

/// The numeric form of the descending text order of priorities.
fn priority_rank(p: Priority) -> (r: u8)
    ensures
        r as int == priority_text_rank(p),
{
    match p {
        Priority::Medium => 0,
        Priority::Low => 1,
        Priority::High => 2,
    }
}

/// Equality of optional date strings by content.
fn opt_str_equal(a: &Option<String>, b: &Option<String>) -> (r: bool)
    ensures
        r == due_eq(opt_str_view(*a), opt_str_view(*b)),
{
    match (a, b) {
        (None, None) => true,
        (Some(x), Some(y)) => str_eq(x.as_str(), y.as_str()),
        _ => false,
    }
}

/// Ascending comparison of optional date strings, absent ones first.
fn opt_str_less(a: &Option<String>, b: &Option<String>) -> (r: bool)
    ensures
        r == due_lt(opt_str_view(*a), opt_str_view(*b)),
{
    match (a, b) {
        (None, None) => false,
        (None, Some(_)) => true,
        (Some(_), None) => false,
        (Some(x), Some(y)) => str_lt(x.as_str(), y.as_str()),
    }
}

/// Task `a` strictly precedes `b` in the all-tasks listing.
pub open spec fn task_listed_before(a: Task, b: Task) -> bool {
    if a.completed != b.completed {
        !a.completed
    } else if !due_eq(opt_str_view(a.due_date), opt_str_view(b.due_date)) {
        due_lt(opt_str_view(a.due_date), opt_str_view(b.due_date))
    } else if priority_text_rank(a.priority) != priority_text_rank(b.priority) {
        priority_text_rank(a.priority) < priority_text_rank(b.priority)
    } else {
        match (a.id, b.id) {
            (Some(x), Some(y)) => y < x,
            _ => false,
        }
    }
}

/// Copy a stored task row into the caller-facing model.
fn task_to_model(t: &TaskRow) -> (r: Task)
    ensures
        task_model(r) == task_row_model(*t),
{
    Task {
        id: Some(t.id),
        title: t.title.clone(),
        description: clone_opt_string(&t.description),
        priority: t.priority,
        due_date: clone_opt_string(&t.due_date),
        repeat: t.repeat,
        completed: t.completed,
        created_at: Some(t.created_at.clone()),
        updated_at: Some(t.updated_at.clone()),
    }
}

impl Store {
    /// Copy the stored task row at `i` into the caller-facing model.
    fn task_at(&self, i: usize) -> (r: Task)
        requires
            i < self.tasks@.len(),
        ensures
            task_model(r) == task_row_model(self.tasks@[i as int]),
    {
        task_to_model(&self.tasks[i])
    }

    /// Create a task: open, with the given fields, timestamped `now`.  The
    /// created record is returned.
    pub fn create_task(&mut self, req: &CreateTaskRequest, now: &str) -> (r: Task)
        requires
            old(self).wf(),
            old(self).next_task_id < 0x7fff_ffff_ffff_ffff,
        ensures
            final(self).wf(),
            final(self).tasks@.len() == old(self).tasks@.len() + 1,
            final(self).tasks@.take(old(self).tasks@.len() as int) == old(self).tasks@,
            ({
                let t = final(self).tasks@.last();
                &&& t.id == old(self).next_task_id
                &&& t.title@ == req.title@
                &&& opt_str_view(t.description) == opt_str_view(req.description)
                &&& t.priority == req.priority
                &&& opt_str_view(t.due_date) == opt_str_view(req.due_date)
                &&& t.repeat == req.repeat
                &&& t.completed == false
                &&& t.created_at@ == now@
                &&& t.updated_at@ == now@
            }),
            task_model(r) == task_row_model(final(self).tasks@.last()),
            final(self).plans@ == old(self).plans@,
            final(self).days@ == old(self).days@,
            final(self).writings@ == old(self).writings@,
            final(self).next_task_id == old(self).next_task_id + 1,
            final(self).next_plan_id == old(self).next_plan_id,
            final(self).next_day_id == old(self).next_day_id,
            final(self).next_writing_id == old(self).next_writing_id,
    {
        let id = self.next_task_id;
        self.tasks.push(
            TaskRow {
                id,
                title: req.title.clone(),
                description: clone_opt_string(&req.description),
                priority: req.priority,
                due_date: clone_opt_string(&req.due_date),
                repeat: req.repeat,
                completed: false,
                created_at: String::from_str(now),
                updated_at: String::from_str(now),
            },
        );
        self.next_task_id = self.next_task_id + 1;
        proof {
            assert(self.tasks@.take(old(self).tasks@.len() as int) =~= old(self).tasks@);
            lemma_wf_after_task_change(*old(self), *self);
        }
        let n = self.tasks.len() - 1;
        self.task_at(n)
    }

    /// The task carrying `id`.  Fails with `NotFound` when none does.
    pub fn get_task_by_id(&self, id: i64) -> (r: Result<Task, AppError>)
        ensures
            match r {
                Ok(t) => self.has_task(id) && exists|i: int|
                    0 <= i < self.tasks@.len() && (#[trigger] self.tasks@[i]).id == id
                        && task_model(t) == task_row_model(self.tasks@[i]),
                Err(e) => !self.has_task(id) && e is NotFound,
            },
    {
        match self.find_task(id) {
            Some(i) => Ok(self.task_at(i)),
            None => Err(AppError::NotFound(String::from_str("task not found"))),
        }
    }

    /// All tasks in listing order: open before done, due date ascending
    /// with undated first, priority in descending text order, then most
    /// recently created first.  The row order `rs` the listing follows is
    /// unique: it is the one ordering of the stored rows that `task_le`
    /// sorts with all ids distinct.
    pub fn get_all_tasks(&self) -> (r: Vec<Task>)
        requires
            self.wf(),
        ensures
            r@.len() == self.tasks@.len(),
            exists|rs: Seq<TaskRow>|
                {
                    &&& #[trigger] rs.to_multiset() == self.tasks@.to_multiset()
                    &&& rs.len() == r@.len()
                    &&& sorted_le(rs)
                    &&& (forall|a: int, b: int|
                        0 <= a < b < rs.len() ==> (#[trigger] rs[a]).id != (#[trigger] rs[b]).id)
                    &&& (forall|i: int|
                        0 <= i < r@.len() ==> task_model(#[trigger] r@[i]) == task_row_model(
                            rs[i],
                        ))
                },
    {
        // clone the table and order it
        let mut rows: Vec<TaskRow> = Vec::new();
        let mut k: usize = 0;
        while k < self.tasks.len()
            invariant
                0 <= k <= self.tasks@.len(),
                rows@.len() == k,
                forall|t: int| 0 <= t < k ==> #[trigger] rows@[t] == self.tasks@[t],
            decreases self.tasks@.len() - k,
        {
            let t = &self.tasks[k];
            rows.push(clone_task_row(t));
            k = k + 1;
        }
        proof {
            assert(rows@ =~= self.tasks@);
        }
        let ghost collected = rows@;
        let sorted = sort_rows(rows);
        proof {
            lemma_sorted_task_ids_distinct(collected, sorted@);
        }
        let mut out: Vec<Task> = Vec::new();
        let mut t2: usize = 0;
        while t2 < sorted.len()
            invariant
                0 <= t2 <= sorted@.len(),
                out@.len() == t2,
                forall|i: int|
                    0 <= i < t2 ==> task_model(#[trigger] out@[i]) == task_row_model(sorted@[i]),
            decreases sorted@.len() - t2,
        {
            let m = task_to_model(&sorted[t2]);
            out.push(m);
            t2 = t2 + 1;
        }
        proof {
            assert(sorted@.to_multiset() == self.tasks@.to_multiset());
        }
        out
    }

    /// The tasks due today or without a due date, ordered open before done,
    /// then priority in descending text order, then most recently created
    /// first.
    pub fn get_today_tasks(&self, today: &str) -> (r: Vec<Task>)
        requires
            self.wf(),
        ensures
            r@.len() == self.tasks@.filter(due_today_pred(today@)).len(),
            exists|rs: Seq<TaskRow>|
                {
                    &&& #[trigger] rs.to_multiset() == self.tasks@.filter(
                        due_today_pred(today@),
                    ).to_multiset()
                    &&& rs.len() == r@.len()
                    &&& today_sorted(rs)
                    &&& (forall|a: int, b: int|
                        0 <= a < b < rs.len() ==> (#[trigger] rs[a]).id != (#[trigger] rs[b]).id)
                    &&& (forall|i: int|
                        0 <= i < r@.len() ==> task_model(#[trigger] r@[i]) == task_row_model(
                            rs[i],
                        ))
                },
    {
        let ghost pred = due_today_pred(today@);
        let mut rows: Vec<TodayTaskRow> = Vec::new();
        let mut k: usize = 0;
        proof {
            assert(self.tasks@.take(0).filter(pred) =~= Seq::<TaskRow>::empty());
        }
        while k < self.tasks.len()
            invariant
                0 <= k <= self.tasks@.len(),
                pred == due_today_pred(today@),
                rows@.map_values(|x: TodayTaskRow| x.row) == self.tasks@.take(k as int).filter(
                    pred,
                ),
            decreases self.tasks@.len() - k,
        {
            let t = &self.tasks[k];
            let hit = match &t.due_date {
                None => true,
                Some(s) => str_eq(s.as_str(), today),
            };
            proof {
                lemma_filter_take_step(self.tasks@, pred, k as int);
                assert(pred(self.tasks@[k as int]) == (match self.tasks@[k as int].due_date {
                    None => true,
                    Some(s) => s@ == today@,
                }));
            }
            let ghost pre = rows@;
            if hit {
                rows.push(TodayTaskRow { row: clone_task_row(t) });
                proof {
                    assert(rows@.map_values(|x: TodayTaskRow| x.row) =~= pre.map_values(
                        |x: TodayTaskRow| x.row,
                    ).push(self.tasks@[k as int]));
                }
            }
            k = k + 1;
        }
        proof {
            assert(self.tasks@.take(self.tasks@.len() as int) =~= self.tasks@);
        }
        let ghost collected = rows@.map_values(|x: TodayTaskRow| x.row);
        let sorted = sort_rows(rows);
        let ghost sortedrows = sorted@.map_values(|x: TodayTaskRow| x.row);
        proof {
            lemma_today_rows_multiset(rows@, sorted@);
            assert(rows@.map_values(|x: TodayTaskRow| x.row) == collected);
            lemma_filter_tasks_increasing_ids(self.tasks@, pred);
            lemma_sorted_task_ids_distinct(collected, sortedrows);
        }
        let mut out: Vec<Task> = Vec::new();
        let mut t2: usize = 0;
        while t2 < sorted.len()
            invariant
                0 <= t2 <= sorted@.len(),
                out@.len() == t2,
                sortedrows == sorted@.map_values(|x: TodayTaskRow| x.row),
                forall|i: int|
                    0 <= i < t2 ==> task_model(#[trigger] out@[i]) == task_row_model(
                        sortedrows[i],
                    ),
            decreases sorted@.len() - t2,
        {
            let m = task_to_model(&sorted[t2].row);
            out.push(m);
            t2 = t2 + 1;
        }
        proof {
            assert forall|a: int, b: int|
                0 <= a < b < sortedrows.len() implies today_le(
                #[trigger] sortedrows[a],
                #[trigger] sortedrows[b],
            ) by {
                assert(sorted@[a].le_spec(&sorted@[b]));
            }
        }
        out
    }
}

/// A task row under the today-list order.
pub struct TodayTaskRow {
    pub row: TaskRow,
}

/// The tasks due on `today` or carrying no due date.
pub open spec fn due_today_pred(today: Seq<char>) -> spec_fn(TaskRow) -> bool {
    |t: TaskRow| match t.due_date {
        None => true,
        Some(s) => s@ == today,
    }
}

/// The today-list order: open before done, then priority in descending text
/// order, then most recently created first.
pub open spec fn today_le(a: TaskRow, b: TaskRow) -> bool {
    if a.completed != b.completed {
        !a.completed
    } else if priority_text_rank(a.priority) != priority_text_rank(b.priority) {
        priority_text_rank(a.priority) < priority_text_rank(b.priority)
    } else {
        b.id <= a.id
    }
}

pub open spec fn today_sorted(rs: Seq<TaskRow>) -> bool {
    forall|a: int, b: int| 0 <= a < b < rs.len() ==> today_le(#[trigger] rs[a], #[trigger] rs[b])
}

impl TotalLe for TodayTaskRow {
    open spec fn le_spec(&self, other: &Self) -> bool {
        today_le(self.row, other.row)
    }

    proof fn lemma_connex(a: &Self, b: &Self) {
    }

    proof fn lemma_trans(a: &Self, b: &Self, c: &Self) {
    }

    fn le(&self, other: &Self) -> (r: bool) {
        if self.row.completed != other.row.completed {
            !self.row.completed
        } else {
            let ra = priority_rank(self.row.priority);
            let rb = priority_rank(other.row.priority);
            if ra != rb {
                ra < rb
            } else {
                other.row.id <= self.row.id
            }
        }
    }
}

/// Filtering task rows keeps their ids strictly increasing.
proof fn lemma_filter_tasks_increasing_ids(s: Seq<TaskRow>, pred: spec_fn(TaskRow) -> bool)
    requires
        forall|a: int, b: int| 0 <= a < b < s.len() ==> (#[trigger] s[a]).id < (#[trigger] s[b]).id,
    ensures
        forall|a: int, b: int|
            0 <= a < b < s.filter(pred).len() ==> (#[trigger] s.filter(pred)[a]).id < (
            #[trigger] s.filter(pred)[b]).id,
{
    let id_of = |t: TaskRow| t.id;
    assert forall|a: int, b: int| 0 <= a < b < s.len() implies #[trigger] id_of(s[a]) < #[trigger] id_of(
        s[b],
    ) by {}
    lemma_filter_keeps_increasing(s, pred, id_of);
    assert forall|a: int, b: int|
        0 <= a < b < s.filter(pred).len() implies (#[trigger] s.filter(pred)[a]).id < (
    #[trigger] s.filter(pred)[b]).id by {
        assert(id_of(s.filter(pred)[a]) < id_of(s.filter(pred)[b]));
    }
}

/// Wrapped and unwrapped today-rows carry the same multiset of rows.
proof fn lemma_today_rows_multiset(src: Seq<TodayTaskRow>, dst: Seq<TodayTaskRow>)
    requires
        src.to_multiset() == dst.to_multiset(),
    ensures
        src.map_values(|x: TodayTaskRow| x.row).to_multiset() == dst.map_values(
            |x: TodayTaskRow| x.row,
        ).to_multiset(),
    decreases src.len(),
{
    broadcast use vstd::seq_lib::group_to_multiset_ensures;
    broadcast use vstd::multiset::group_multiset_axioms;

    if src.len() == 0 {
        assert(dst.to_multiset().len() == 0);
        assert(dst.len() == 0);
        assert(src.map_values(|x: TodayTaskRow| x.row) =~= Seq::<TaskRow>::empty());
        assert(dst.map_values(|x: TodayTaskRow| x.row) =~= Seq::<TaskRow>::empty());
    } else {
        let x0 = src.last();
        let srcp = src.drop_last();
        assert(srcp.push(x0) =~= src);
        vstd::seq_lib::to_multiset_build(srcp, x0);
        assert(src.to_multiset().count(x0) > 0);
        assert(dst.to_multiset().count(x0) > 0);
        dst.to_multiset_ensures();
        assert(dst.contains(x0));
        let j = choose|j: int| 0 <= j < dst.len() && dst[j] == x0;
        let dstp = dst.remove(j);
        assert(dstp.to_multiset() == dst.to_multiset().remove(x0));
        assert(srcp.to_multiset() == src.to_multiset().remove(x0)) by {
            assert(srcp.push(x0).to_multiset() == srcp.to_multiset().insert(x0));
            assert forall|v: TodayTaskRow|
                srcp.to_multiset().count(v) == #[trigger] src.to_multiset().remove(x0).count(
                    v,
                ) by {}
            assert(srcp.to_multiset() =~= src.to_multiset().remove(x0));
        }
        lemma_today_rows_multiset(srcp, dstp);
        // map respects push and remove
        let f = |x: TodayTaskRow| x.row;
        assert(src.map_values(f) =~= srcp.map_values(f).push(x0.row));
        assert(dst.map_values(f).remove(j) =~= dstp.map_values(f));
        vstd::seq_lib::to_multiset_build(srcp.map_values(f), x0.row);
        vstd::seq_lib::to_multiset_remove(dst.map_values(f), j);
        assert(dst.map_values(f)[j] == x0.row);
        assert forall|v: TaskRow|
            src.map_values(f).to_multiset().count(v) == #[trigger] dst.map_values(
                f,
            ).to_multiset().count(v) by {}
        assert(src.map_values(f).to_multiset() =~= dst.map_values(f).to_multiset());
    }
}

/// Copy a task row, keeping the value.
fn clone_task_row(t: &TaskRow) -> (r: TaskRow)
    ensures
        r == *t,
{
    TaskRow {
        id: t.id,
        title: t.title.clone(),
        description: clone_opt_string(&t.description),
        priority: t.priority,
        due_date: clone_opt_string(&t.due_date),
        repeat: t.repeat,
        completed: t.completed,
        created_at: t.created_at.clone(),
        updated_at: t.updated_at.clone(),
    }
}

/// Sorting keeps the task ids pairwise distinct.
proof fn lemma_sorted_task_ids_distinct(src: Seq<TaskRow>, dst: Seq<TaskRow>)
    requires
        src.to_multiset() == dst.to_multiset(),
        forall|a: int, b: int|
            0 <= a < b < src.len() ==> (#[trigger] src[a]).id < (#[trigger] src[b]).id,
    ensures
        forall|a: int, b: int|
            0 <= a < b < dst.len() ==> (#[trigger] dst[a]).id != (#[trigger] dst[b]).id,
{
    broadcast use vstd::seq_lib::group_to_multiset_ensures;

    assert forall|a: int, b: int|
        0 <= a < b < dst.len() implies (#[trigger] dst[a]).id != (#[trigger] dst[b]).id by {
        if dst[a] == dst[b] {
            lemma_two_indices_count(dst, a, b);
            lemma_count_two_indices(src, dst[a]);
            let (x, y) = choose|x: int, y: int|
                0 <= x < y < src.len() && #[trigger] src[x] == dst[a] && #[trigger] src[y]
                    == dst[a];
            assert(src[x].id < src[y].id);
            assert(false);
        } else {
            if dst[a].id == dst[b].id {
                assert(dst.contains(dst[a]));
                assert(dst.to_multiset().count(dst[a]) > 0);
                assert(src.to_multiset().count(dst[a]) > 0);
                assert(src.contains(dst[a]));
                assert(dst.contains(dst[b]));
                assert(dst.to_multiset().count(dst[b]) > 0);
                assert(src.to_multiset().count(dst[b]) > 0);
                assert(src.contains(dst[b]));
                let x = choose|x: int| 0 <= x < src.len() && src[x] == dst[a];
                let y = choose|y: int| 0 <= y < src.len() && src[y] == dst[b];
                assert(x != y);
                if x < y {
                    assert(src[x].id < src[y].id);
                } else {
                    assert(src[y].id < src[x].id);
                }
                assert(false);
            }
        }
    }
}

/// Any change confined to the task table that keeps its ids increasing and
/// below the counter keeps the store well formed.
proof fn lemma_wf_after_task_change(prev: Store, cur: Store)
    requires
        prev.wf(),
        cur.plans@ == prev.plans@,
        cur.days@ == prev.days@,
        cur.writings@ == prev.writings@,
        cur.next_plan_id == prev.next_plan_id,
        cur.next_day_id == prev.next_day_id,
        cur.next_writing_id == prev.next_writing_id,
        0 < cur.next_task_id,
        forall|i: int, j: int|
            0 <= i < j < cur.tasks@.len() ==> (#[trigger] cur.tasks@[i]).id < (
            #[trigger] cur.tasks@[j]).id,
        forall|i: int|
            0 <= i < cur.tasks@.len() ==> 0 < (#[trigger] cur.tasks@[i]).id < cur.next_task_id,
    ensures
        cur.wf(),
{
    assert forall|i: int| 0 <= i < cur.writings@.len() implies match (
    #[trigger] cur.writings@[i]).plan_day_id {
        Some(d) => cur.has_day(d),
        None => true,
    } by {
        match cur.writings@[i].plan_day_id {
            Some(d) => {
                assert(prev.has_day(d));
                let k = choose|k: int|
                    0 <= k < prev.days@.len() && (#[trigger] prev.days@[k]).id == d;
                assert(cur.days@[k].id == d);
            },
            None => {},
        }
    }
    assert forall|i: int| 0 <= i < cur.days@.len() implies cur.has_plan(
        (#[trigger] cur.days@[i]).plan_id,
    ) by {
        assert(prev.has_plan(prev.days@[i].plan_id));
        let k = choose|k: int|
            0 <= k < prev.plans@.len() && (#[trigger] prev.plans@[k]).id
                == prev.days@[i].plan_id;
        assert(cur.plans@[k].id == cur.days@[i].plan_id);
    }
    assert forall|i: int|
        0 <= i < cur.plans@.len() implies (#[trigger] cur.plans@[i]).total_days as int
            == cur.days_of(cur.plans@[i].id).len() by {
        assert(cur.days_of(cur.plans@[i].id) == prev.days_of(prev.plans@[i].id));
    }
}

} // verus!

verus! {

/// Whether a partial task update carries any field at all.
pub open spec fn any_task_field(req: UpdateTaskRequest) -> bool {
    req.title is Some || req.description is Some || req.priority is Some || req.due_date is Some
        || req.repeat is Some || req.completed is Some
}

/// The updated row matches the request: provided fields replaced, the rest
/// kept, and the update timestamped.
pub open spec fn task_updated(o: TaskRow, n: TaskRow, req: UpdateTaskRequest, now: Seq<char>) -> bool {
    &&& n.id == o.id
    &&& n.title@ == match req.title {
        Some(x) => x@,
        None => o.title@,
    }
    &&& opt_str_view(n.description) == match req.description {
        Some(x) => Some(x@),
        None => opt_str_view(o.description),
    }
    &&& n.priority == match req.priority {
        Some(p) => p,
        None => o.priority,
    }
    &&& opt_str_view(n.due_date) == match req.due_date {
        Some(x) => Some(x@),
        None => opt_str_view(o.due_date),
    }
    &&& n.repeat == match req.repeat {
        Some(x) => Some(x),
        None => o.repeat,
    }
    &&& n.completed == match req.completed {
        Some(c) => c,
        None => o.completed,
    }
    &&& n.created_at == o.created_at
    &&& n.updated_at@ == now
}

impl Store {
    /// Update the provided fields of a task and timestamp the change; with
    /// no fields given the current row is returned untouched.  Fails with
    /// `NotFound` when the id does not exist.
    #[verifier::rlimit(100)]
    pub fn update_task(&mut self, req: &UpdateTaskRequest, now: &str) -> (r: Result<
        Task,
        AppError,
    >)
        requires
            old(self).wf(),
        ensures
            final(self).wf(),
            match r {
                Ok(t) => {
                    &&& old(self).has_task(req.id)
                    &&& final(self).tasks@.len() == old(self).tasks@.len()
                    &&& forall|k: int|
                        (0 <= k < final(self).tasks@.len() && old(self).tasks@[k].id != req.id)
                            ==> #[trigger] final(self).tasks@[k] == old(self).tasks@[k]
                    &&& forall|k: int|
                        (0 <= k < final(self).tasks@.len() && (#[trigger] old(self).tasks@[k]).id
                            == req.id) ==> if any_task_field(*req) {
                            task_updated(old(self).tasks@[k], final(self).tasks@[k], *req, now@)
                        } else {
                            final(self).tasks@[k] == old(self).tasks@[k]
                        }
                    &&& exists|k: int|
                        0 <= k < final(self).tasks@.len() && (#[trigger] final(self).tasks@[k]).id
                            == req.id && task_model(t) == task_row_model(final(self).tasks@[k])
                    &&& final(self).plans@ == old(self).plans@
                    &&& final(self).days@ == old(self).days@
                    &&& final(self).writings@ == old(self).writings@
                    &&& final(self).next_plan_id == old(self).next_plan_id
                    &&& final(self).next_day_id == old(self).next_day_id
                    &&& final(self).next_writing_id == old(self).next_writing_id
                    &&& final(self).next_task_id == old(self).next_task_id
                },
                Err(e) => !old(self).has_task(req.id) && e is NotFound && *final(self) == *old(
                    self,
                ),
            },
    {
        let i = match self.find_task(req.id) {
            None => {
                return Err(AppError::NotFound(String::from_str("task not found")));
            },
            Some(i) => i,
        };
        let any = req.title.is_some() || req.description.is_some() || req.priority.is_some()
            || req.due_date.is_some() || req.repeat.is_some() || req.completed.is_some();
        if !any {
            let t = self.task_at(i);
            return Ok(t);
        }
        let new_row = {
            let o = &self.tasks[i];
            TaskRow {
                id: o.id,
                title: match &req.title {
                    Some(x) => x.clone(),
                    None => o.title.clone(),
                },
                description: match &req.description {
                    Some(x) => Some(x.clone()),
                    None => clone_opt_string(&o.description),
                },
                priority: match req.priority {
                    Some(p) => p,
                    None => o.priority,
                },
                due_date: match &req.due_date {
                    Some(x) => Some(x.clone()),
                    None => clone_opt_string(&o.due_date),
                },
                repeat: match req.repeat {
                    Some(x) => Some(x),
                    None => o.repeat,
                },
                completed: match req.completed {
                    Some(c) => c,
                    None => o.completed,
                },
                created_at: o.created_at.clone(),
                updated_at: String::from_str(now),
            }
        };
        self.tasks[i] = new_row;
        proof {
            assert forall|k: int|
                (0 <= k < self.tasks@.len() && old(self).tasks@[k].id != req.id)
                    implies #[trigger] self.tasks@[k] == old(self).tasks@[k] by {
                if k != i {
                } else {
                    assert(old(self).tasks@[i as int].id == req.id);
                }
            }
            assert(task_updated(old(self).tasks@[i as int], self.tasks@[i as int], *req, now@));
            assert forall|k: int|
                (0 <= k < self.tasks@.len() && (#[trigger] old(self).tasks@[k]).id == req.id)
                    implies task_updated(old(self).tasks@[k], self.tasks@[k], *req, now@) by {
                if k != i {
                    if k < i {
                        assert(old(self).tasks@[k].id < old(self).tasks@[i as int].id);
                    } else {
                        assert(old(self).tasks@[i as int].id < old(self).tasks@[k].id);
                    }
                }
            }
            assert forall|a: int, b: int|
                0 <= a < b < self.tasks@.len() implies (#[trigger] self.tasks@[a]).id < (
            #[trigger] self.tasks@[b]).id by {
                assert(self.tasks@[a].id == old(self).tasks@[a].id);
                assert(self.tasks@[b].id == old(self).tasks@[b].id);
            }
            assert forall|a: int|
                0 <= a < self.tasks@.len() implies 0 < (#[trigger] self.tasks@[a]).id
                    < self.next_task_id by {
                assert(self.tasks@[a].id == old(self).tasks@[a].id);
            }
            lemma_wf_after_task_change(*old(self), *self);
        }
        let t = self.task_at(i);
        Ok(t)
    }

    /// Delete the task carrying `id`.  Fails with `NotFound` when none
    /// does.
    #[verifier::rlimit(100)]
    pub fn delete_task(&mut self, id: i64) -> (r: Result<(), AppError>)
        requires
            old(self).wf(),
        ensures
            final(self).wf(),
            match r {
                Ok(_) => {
                    &&& old(self).has_task(id)
                    &&& final(self).tasks@ == old(self).tasks@.filter(task_id_ne(id))
                    &&& final(self).plans@ == old(self).plans@
                    &&& final(self).days@ == old(self).days@
                    &&& final(self).writings@ == old(self).writings@
                    &&& final(self).next_plan_id == old(self).next_plan_id
                    &&& final(self).next_day_id == old(self).next_day_id
                    &&& final(self).next_writing_id == old(self).next_writing_id
                    &&& final(self).next_task_id == old(self).next_task_id
                },
                Err(e) => !old(self).has_task(id) && e is NotFound && *final(self) == *old(self),
            },
    {
        let i = match self.find_task(id) {
            None => {
                return Err(AppError::NotFound(String::from_str("task not found")));
            },
            Some(i) => i,
        };
        self.tasks.remove(i);
        proof {
            let prev = old(self).tasks@;
            let pred = task_id_ne(id);
            assert(prev.remove(i as int) =~= prev.take(i as int) + prev.skip(i + 1));
            assert forall|k: int| 0 <= k < prev.take(i as int).len() implies pred(
                #[trigger] prev.take(i as int)[k],
            ) by {
                assert(prev.take(i as int)[k] == prev[k]);
                assert(prev[k].id < prev[i as int].id);
            }
            assert forall|k: int| 0 <= k < prev.skip(i + 1).len() implies pred(
                #[trigger] prev.skip(i + 1)[k],
            ) by {
                assert(prev.skip(i + 1)[k] == prev[k + i + 1]);
                assert(prev[i as int].id < prev[k + i + 1].id);
            }
            lemma_filter_all_true(prev.take(i as int), pred);
            lemma_filter_all_true(prev.skip(i + 1), pred);
            Seq::filter_distributes_over_add(prev.take(i as int), prev.skip(i + 1), pred);
            assert(prev.take(i as int).add(prev.skip(i + 1)) =~= prev.remove(i as int));
            assert(prev =~= prev.take(i as int) + prev.subrange(i as int, i + 1) + prev.skip(
                i + 1,
            ));
            Seq::filter_distributes_over_add(
                prev.take(i as int) + prev.subrange(i as int, i + 1),
                prev.skip(i + 1),
                pred,
            );
            Seq::filter_distributes_over_add(
                prev.take(i as int),
                prev.subrange(i as int, i + 1),
                pred,
            );
            lemma_filter_all_false(prev.subrange(i as int, i + 1), pred);
            assert(prev.subrange(i as int, i + 1) =~= seq![prev[i as int]]);
            assert(prev.filter(pred) =~= self.tasks@);
            assert forall|a: int, b: int|
                0 <= a < b < self.tasks@.len() implies (#[trigger] self.tasks@[a]).id < (
            #[trigger] self.tasks@[b]).id by {
                if b < i {
                    assert(self.tasks@[a] == prev[a]);
                    assert(self.tasks@[b] == prev[b]);
                } else if a < i {
                    assert(self.tasks@[a] == prev[a]);
                    assert(self.tasks@[b] == prev[b + 1]);
                } else {
                    assert(self.tasks@[a] == prev[a + 1]);
                    assert(self.tasks@[b] == prev[b + 1]);
                }
            }
            assert forall|a: int|
                0 <= a < self.tasks@.len() implies 0 < (#[trigger] self.tasks@[a]).id
                    < self.next_task_id by {
                if a < i {
                    assert(self.tasks@[a] == prev[a]);
                } else {
                    assert(self.tasks@[a] == prev[a + 1]);
                }
            }
            lemma_wf_after_task_change(*old(self), *self);
        }
        Ok(())
    }

    /// Flip the completion state of a task and timestamp the change; the
    /// updated record is returned.  Fails with `NotFound` when the id does
    /// not exist.
    pub fn toggle_task(&mut self, id: i64, now: &str) -> (r: Result<Task, AppError>)
        requires
            old(self).wf(),
        ensures
            final(self).wf(),
            match r {
                Ok(t) => {
                    &&& old(self).has_task(id)
                    &&& final(self).tasks@.len() == old(self).tasks@.len()
                    &&& forall|k: int|
                        (0 <= k < final(self).tasks@.len() && old(self).tasks@[k].id != id)
                            ==> #[trigger] final(self).tasks@[k] == old(self).tasks@[k]
                    &&& forall|k: int|
                        (0 <= k < final(self).tasks@.len() && (#[trigger] old(self).tasks@[k]).id
                            == id) ==> {
                            let o = old(self).tasks@[k];
                            let n = final(self).tasks@[k];
                            &&& n.completed == !o.completed
                            &&& n.updated_at@ == now@
                            &&& n.id == o.id
                            &&& n.title == o.title
                            &&& n.description == o.description
                            &&& n.priority == o.priority
                            &&& n.due_date == o.due_date
                            &&& n.repeat == o.repeat
                            &&& n.created_at == o.created_at
                        }
                    &&& exists|k: int|
                        0 <= k < final(self).tasks@.len() && (#[trigger] final(self).tasks@[k]).id
                            == id && task_model(t) == task_row_model(final(self).tasks@[k])
                    &&& final(self).plans@ == old(self).plans@
                    &&& final(self).days@ == old(self).days@
                    &&& final(self).writings@ == old(self).writings@
                    &&& final(self).next_plan_id == old(self).next_plan_id
                    &&& final(self).next_day_id == old(self).next_day_id
                    &&& final(self).next_writing_id == old(self).next_writing_id
                    &&& final(self).next_task_id == old(self).next_task_id
                },
                Err(e) => !old(self).has_task(id) && e is NotFound && *final(self) == *old(self),
            },
    {
        let i = match self.find_task(id) {
            None => {
                return Err(AppError::NotFound(String::from_str("task not found")));
            },
            Some(i) => i,
        };
        let was = self.tasks[i].completed;
        self.tasks[i].completed = !was;
        self.tasks[i].updated_at = String::from_str(now);
        proof {
            assert forall|k: int|
                (0 <= k < self.tasks@.len() && (#[trigger] old(self).tasks@[k]).id == id) implies k
                == i as int by {
                if k != i {
                    if k < i {
                        assert(old(self).tasks@[k].id < old(self).tasks@[i as int].id);
                    } else {
                        assert(old(self).tasks@[i as int].id < old(self).tasks@[k].id);
                    }
                }
            }
            assert forall|a: int, b: int|
                0 <= a < b < self.tasks@.len() implies (#[trigger] self.tasks@[a]).id < (
            #[trigger] self.tasks@[b]).id by {
                assert(self.tasks@[a].id == old(self).tasks@[a].id);
                assert(self.tasks@[b].id == old(self).tasks@[b].id);
            }
            assert forall|a: int|
                0 <= a < self.tasks@.len() implies 0 < (#[trigger] self.tasks@[a]).id
                    < self.next_task_id by {
                assert(self.tasks@[a].id == old(self).tasks@[a].id);
            }
            lemma_wf_after_task_change(*old(self), *self);
        }
        let t = self.task_at(i);
        Ok(t)
    }

    /// Create the given tasks in order, timestamped `now`; the created
    /// records are returned in the same order.
    pub fn batch_create_tasks(&mut self, reqs: &Vec<CreateTaskRequest>, now: &str) -> (r: Vec<
        Task,
    >)
        requires
            old(self).wf(),
            old(self).next_task_id + reqs@.len() < 0x7fff_ffff_ffff_ffff,
        ensures
            final(self).wf(),
            r@.len() == reqs@.len(),
            final(self).tasks@.len() == old(self).tasks@.len() + reqs@.len(),
            final(self).tasks@.take(old(self).tasks@.len() as int) == old(self).tasks@,
            forall|k: int|
                0 <= k < reqs@.len() ==> {
                    let t = #[trigger] final(self).tasks@[old(self).tasks@.len() + k];
                    &&& t.id == old(self).next_task_id + k
                    &&& t.title@ == reqs@[k].title@
                    &&& opt_str_view(t.description) == opt_str_view(reqs@[k].description)
                    &&& t.priority == reqs@[k].priority
                    &&& opt_str_view(t.due_date) == opt_str_view(reqs@[k].due_date)
                    &&& t.repeat == reqs@[k].repeat
                    &&& t.completed == false
                    &&& t.created_at@ == now@
                    &&& t.updated_at@ == now@
                },
            forall|k: int|
                0 <= k < reqs@.len() ==> task_model(#[trigger] r@[k]) == task_row_model(
                    final(self).tasks@[old(self).tasks@.len() + k],
                ),
            final(self).plans@ == old(self).plans@,
            final(self).days@ == old(self).days@,
            final(self).writings@ == old(self).writings@,
            final(self).next_task_id == old(self).next_task_id + reqs@.len(),
            final(self).next_plan_id == old(self).next_plan_id,
            final(self).next_day_id == old(self).next_day_id,
            final(self).next_writing_id == old(self).next_writing_id,
    {
        let mut out: Vec<Task> = Vec::new();
        let mut k: usize = 0;
        while k < reqs.len()
            invariant
                0 <= k <= reqs@.len(),
                self.wf(),
                old(self).wf(),
                old(self).next_task_id + reqs@.len() < 0x7fff_ffff_ffff_ffff,
                out@.len() == k,
                self.tasks@.len() == old(self).tasks@.len() + k,
                self.tasks@.take(old(self).tasks@.len() as int) == old(self).tasks@,
                self.next_task_id == old(self).next_task_id + k,
                forall|t: int|
                    0 <= t < k ==> {
                        let row = #[trigger] self.tasks@[old(self).tasks@.len() + t];
                        &&& row.id == old(self).next_task_id + t
                        &&& row.title@ == reqs@[t].title@
                        &&& opt_str_view(row.description) == opt_str_view(reqs@[t].description)
                        &&& row.priority == reqs@[t].priority
                        &&& opt_str_view(row.due_date) == opt_str_view(reqs@[t].due_date)
                        &&& row.repeat == reqs@[t].repeat
                        &&& row.completed == false
                        &&& row.created_at@ == now@
                        &&& row.updated_at@ == now@
                    },
                forall|t: int|
                    0 <= t < k ==> task_model(#[trigger] out@[t]) == task_row_model(
                        self.tasks@[old(self).tasks@.len() + t],
                    ),
                self.plans@ == old(self).plans@,
                self.days@ == old(self).days@,
                self.writings@ == old(self).writings@,
                self.next_plan_id == old(self).next_plan_id,
                self.next_day_id == old(self).next_day_id,
                self.next_writing_id == old(self).next_writing_id,
            decreases reqs@.len() - k,
        {
            let ghost before = self.tasks@;
            let t = self.create_task(&reqs[k], now);
            out.push(t);
            proof {
                assert(self.tasks@.take(before.len() as int) == before);
                assert(self.tasks@.take(old(self).tasks@.len() as int) =~= before.take(
                    old(self).tasks@.len() as int,
                ));
                assert forall|t2: int|
                    0 <= t2 < k + 1 implies task_model(#[trigger] out@[t2]) == task_row_model(
                    self.tasks@[old(self).tasks@.len() + t2],
                ) by {
                    if t2 < k {
                        assert(self.tasks@[old(self).tasks@.len() + t2] == self.tasks@.take(
                            before.len() as int,
                        )[old(self).tasks@.len() + t2]);
                        assert(self.tasks@[old(self).tasks@.len() + t2] == before[old(
                            self,
                        ).tasks@.len() + t2]);
                    } else {
                        assert(self.tasks@[old(self).tasks@.len() + t2] == self.tasks@.last());
                    }
                }
                assert forall|t2: int|
                    0 <= t2 < k + 1 implies {
                    let row = #[trigger] self.tasks@[old(self).tasks@.len() + t2];
                    &&& row.id == old(self).next_task_id + t2
                    &&& row.title@ == reqs@[t2].title@
                    &&& opt_str_view(row.description) == opt_str_view(reqs@[t2].description)
                    &&& row.priority == reqs@[t2].priority
                    &&& opt_str_view(row.due_date) == opt_str_view(reqs@[t2].due_date)
                    &&& row.repeat == reqs@[t2].repeat
                    &&& row.completed == false
                    &&& row.created_at@ == now@
                    &&& row.updated_at@ == now@
                } by {
                    if t2 < k {
                        assert(self.tasks@[old(self).tasks@.len() + t2] == before[old(
                            self,
                        ).tasks@.len() + t2]);
                    } else {
                        assert(self.tasks@[old(self).tasks@.len() + t2] == self.tasks@.last());
                    }
                }
            }
            k = k + 1;
        }
        out
    }
}

} // verus!
