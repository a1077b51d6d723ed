//! Plan store operations: creation with day scheduling, listings, partial
//! updates, status transitions, deletion with cascade, and single-day
//! insertion and removal with dense renumbering.

use vstd::prelude::*;
use crate::dates::{date_num, parse_date, scheduled_date_for, scheduled_date_spec};
use crate::errors::AppError;
use crate::models::{AddPlanDayRequest, ImportPlanRequest, PlanDayDetail, PlanStatus,
    PlanWithDays, TodayWritingTask, UpdatePlanDayRequest, UpdatePlanRequest, WritingPlan};
use crate::sort::{sort_rows, sorted_le, TotalLe};
use crate::text::str_eq;
use crate::store::{clone_opt_string, day_in_plan, day_plan_ne, lemma_day_ids_unique,
    lemma_filter_all_false, lemma_filter_all_true, lemma_filter_days_increasing,
    lemma_filter_of_filter_implied, lemma_filter_plans_increasing, lemma_filter_subset,
    lemma_filter_len_eq_pointwise, lemma_filter_len_implies, lemma_filter_take_step,
    lemma_filter_singleton, lemma_lex_rank_below_count, lemma_lex_rank_strict,
    lemma_plan_ids_unique, lex_rank,
    opt_str_view, plan_id_ne, plan_model, plan_row_model, rank_pred, writing_of_day, DayRow,
    PlanModel, PlanRow, Store, WritingRow};

verus! {

/// The image of a partial plan update on one stored row.
pub open spec fn updated_plan_row(p: PlanRow, req: UpdatePlanRequest) -> PlanRow {
    PlanRow {
        name: match req.name {
            Some(n) => n,
            None => p.name,
        },
        theme: match req.theme {
            Some(t) => Some(t),
            None => p.theme,
        },
        start_date: match req.start_date {
            Some(s) => s,
            None => p.start_date,
        },
        ..p
    }
}

} // verus!

verus! {

impl Store {
    /// All tables other than the plans unchanged, counters included.
    pub open spec fn same_but_plans(self, prev: Store) -> bool {
        &&& self.days@ == prev.days@
        &&& self.writings@ == prev.writings@
        &&& self.tasks@ == prev.tasks@
        &&& self.next_plan_id == prev.next_plan_id
        &&& self.next_day_id == prev.next_day_id
        &&& self.next_writing_id == prev.next_writing_id
        &&& self.next_task_id == prev.next_task_id
    }

    /// Copy the stored plan row at `i` into the caller-facing model.
    fn plan_at(&self, i: usize) -> (r: WritingPlan)
        requires
            i < self.plans@.len(),
        ensures
            plan_model(r) == plan_row_model(self.plans@[i as int]),
    {
        let p = &self.plans[i];
        WritingPlan {
            id: Some(p.id),
            name: p.name.clone(),
            theme: clone_opt_string(&p.theme),
            start_date: p.start_date.clone(),
            total_days: p.total_days,
            status: p.status,
            created_at: Some(p.created_at.clone()),
        }
    }

    /// All plans, most recently created first.
    pub fn get_all_plans(&self) -> (r: Vec<WritingPlan>)
        ensures
            r@.len() == self.plans@.len(),
            forall|i: int|
                0 <= i < r@.len() ==> plan_model(#[trigger] r@[i]) == plan_row_model(
                    self.plans@[self.plans@.len() - 1 - i],
                ),
    {
        let mut out: Vec<WritingPlan> = Vec::new();
        let mut i: usize = self.plans.len();
        while i > 0
            invariant
                0 <= i <= self.plans@.len(),
                out@.len() == self.plans@.len() - i,
                forall|k: int|
                    0 <= k < out@.len() ==> plan_model(#[trigger] out@[k]) == plan_row_model(
                        self.plans@[self.plans@.len() - 1 - k],
                    ),
            decreases i,
        {
            i = i - 1;
            let m = self.plan_at(i);
            out.push(m);
        }
        out
    }

    /// The plan carrying `id`.  Fails with `NotFound` when no plan does.
    pub fn get_plan_by_id(&self, id: i64) -> (r: Result<WritingPlan, AppError>)
        ensures
            match r {
                Ok(w) => self.has_plan(id) && exists|i: int|
                    0 <= i < self.plans@.len() && (#[trigger] self.plans@[i]).id == id
                        && plan_model(w) == plan_row_model(self.plans@[i]),
                Err(e) => !self.has_plan(id) && e is NotFound,
            },
    {
        match self.find_plan(id) {
            Some(i) => Ok(self.plan_at(i)),
            None => Err(AppError::NotFound(String::from_str("writing plan not found"))),
        }
    }

    /// Set the status of the plan carrying `plan_id`; everything else is
    /// unchanged.  Fails with `NotFound` when no plan does.
    pub fn update_plan_status(&mut self, plan_id: i64, status: PlanStatus) -> (r: Result<
        (),
        AppError,
    >)
        requires
            old(self).wf(),
        ensures
            final(self).wf(),
            match r {
                Ok(_) => {
                    &&& old(self).has_plan(plan_id)
                    &&& final(self).plans@.len() == old(self).plans@.len()
                    &&& forall|i: int|
                        0 <= i < final(self).plans@.len() ==> #[trigger] final(self).plans@[i]
                            == if old(self).plans@[i].id == plan_id {
                            PlanRow { status: status, ..old(self).plans@[i] }
                        } else {
                            old(self).plans@[i]
                        }
                    &&& final(self).same_but_plans(*old(self))
                },
                Err(e) => !old(self).has_plan(plan_id) && e is NotFound && *final(self) == *old(
                    self,
                ),
            },
    {
        match self.find_plan(plan_id) {
            None => Err(AppError::NotFound(String::from_str("writing plan not found"))),
            Some(i) => {
                self.plans[i].status = status;
                proof {
                    lemma_wf_plan_rows_replaced(*old(self), *self);
                    assert forall|k: int| 0 <= k < self.plans@.len() implies #[trigger] self.plans@[k]
                        == if old(self).plans@[k].id == plan_id {
                        PlanRow { status: status, ..old(self).plans@[k] }
                    } else {
                        old(self).plans@[k]
                    } by {
                        if k != i {
                            assert(self.plans@[k] == old(self).plans@[k]);
                            assert(old(self).plans@[k].id != plan_id);
                        }
                    }
                }
                Ok(())
            },
        }
    }
    /// Update the provided fields of a plan; absent fields keep their values,
    /// and with no fields given the current row is returned unchanged.  Fails
    /// with `NotFound` when the id does not exist.
    pub fn update_plan(&mut self, req: &UpdatePlanRequest) -> (r: Result<WritingPlan, AppError>)
        requires
            old(self).wf(),
        ensures
            final(self).wf(),
            match r {
                Ok(w) => {
                    &&& old(self).has_plan(req.id)
                    &&& final(self).plans@.len() == old(self).plans@.len()
                    &&& forall|i: int|
                        0 <= i < final(self).plans@.len() ==> #[trigger] final(self).plans@[i]
                            == if old(self).plans@[i].id == req.id {
                            updated_plan_row(old(self).plans@[i], *req)
                        } else {
                            old(self).plans@[i]
                        }
                    &&& exists|i: int|
                        0 <= i < final(self).plans@.len() && (#[trigger] final(self).plans@[i]).id
                            == req.id && plan_model(w) == plan_row_model(final(self).plans@[i])
                    &&& final(self).same_but_plans(*old(self))
                },
                Err(e) => !old(self).has_plan(req.id) && e is NotFound && *final(self) == *old(
                    self,
                ),
            },
    {
        match self.find_plan(req.id) {
            None => Err(AppError::NotFound(String::from_str("writing plan not found"))),
            Some(i) => {
                if let Some(n) = &req.name {
                    self.plans[i].name = n.clone();
                }
                if let Some(t) = &req.theme {
                    self.plans[i].theme = Some(t.clone());
                }
                if let Some(s) = &req.start_date {
                    self.plans[i].start_date = s.clone();
                }
                proof {
                    lemma_wf_plan_rows_replaced(*old(self), *self);
                    assert forall|k: int|
                        0 <= k < self.plans@.len() implies #[trigger] self.plans@[k] == if old(
                        self,
                    ).plans@[k].id == req.id {
                        updated_plan_row(old(self).plans@[k], *req)
                    } else {
                        old(self).plans@[k]
                    } by {
                        if k != i {
                            assert(self.plans@[k] == old(self).plans@[k]);
                            assert(old(self).plans@[k].id != req.id);
                        }
                    }
                }
                let w = self.plan_at(i);
                Ok(w)
            },
        }
    }

    /// Delete a plan: its day rows go with it, and writing sessions that
    /// referenced those days lose the reference but are otherwise intact.
    /// Fails with `NotFound` when the id does not exist.
    pub fn delete_plan(&mut self, plan_id: i64) -> (r: Result<(), AppError>)
        requires
            old(self).wf(),
        ensures
            final(self).wf(),
            match r {
                Ok(_) => {
                    &&& old(self).has_plan(plan_id)
                    &&& final(self).plans@ == old(self).plans@.filter(plan_id_ne(plan_id))
                    &&& final(self).days@ == old(self).days@.filter(day_plan_ne(plan_id))
                    &&& final(self).writings@.len() == old(self).writings@.len()
                    &&& forall|j: int|
                        0 <= j < final(self).writings@.len()
                            ==> #[trigger] final(self).writings@[j]
                            == if (old(self).writings@[j].plan_day_id matches Some(d)
                            && old(self).day_of_plan(d, plan_id)) {
                            WritingRow { plan_day_id: None, ..old(self).writings@[j] }
                        } else {
                            old(self).writings@[j]
                        }
                    &&& final(self).tasks@ == old(self).tasks@
                    &&& final(self).next_plan_id == old(self).next_plan_id
                    &&& final(self).next_day_id == old(self).next_day_id
                    &&& final(self).next_writing_id == old(self).next_writing_id
                    &&& final(self).next_task_id == old(self).next_task_id
                },
                Err(e) => !old(self).has_plan(plan_id) && e is NotFound && *final(self) == *old(
                    self,
                ),
            },
    {
        let idx = match self.find_plan(plan_id) {
            None => {
                return Err(AppError::NotFound(String::from_str("writing plan not found")));
            },
            Some(i) => i,
        };
        let ghost plan_pred = plan_id_ne(plan_id);
        self.plans.remove(idx);
        proof {
            let prev = old(self).plans@;
            assert(prev.remove(idx as int) =~= prev.take(idx as int) + prev.skip(idx + 1));
            assert forall|k: int| 0 <= k < prev.take(idx as int).len() implies plan_pred(
                #[trigger] prev.take(idx as int)[k],
            ) by {
                assert(prev.take(idx as int)[k] == prev[k]);
                assert(prev[k].id < prev[idx as int].id);
            }
            assert forall|k: int| 0 <= k < prev.skip(idx + 1).len() implies plan_pred(
                #[trigger] prev.skip(idx + 1)[k],
            ) by {
                assert(prev.skip(idx + 1)[k] == prev[k + idx + 1]);
                assert(prev[idx as int].id < prev[k + idx + 1].id);
            }
            lemma_filter_all_true(prev.take(idx as int), plan_pred);
            lemma_filter_all_true(prev.skip(idx + 1), plan_pred);
            Seq::filter_distributes_over_add(
                prev.take(idx as int),
                prev.skip(idx + 1),
                plan_pred,
            );
            assert(prev.take(idx as int).add(prev.skip(idx + 1)) =~= prev.remove(idx as int));
            assert(prev.subrange(idx as int, idx + 1) =~= seq![prev[idx as int]]);
            assert(prev =~= prev.take(idx as int) + prev.subrange(idx as int, idx + 1) + prev.skip(
                idx + 1,
            ));
            Seq::filter_distributes_over_add(
                prev.take(idx as int) + prev.subrange(idx as int, idx + 1),
                prev.skip(idx + 1),
                plan_pred,
            );
            Seq::filter_distributes_over_add(
                prev.take(idx as int),
                prev.subrange(idx as int, idx + 1),
                plan_pred,
            );
            lemma_filter_all_false(prev.subrange(idx as int, idx + 1), plan_pred);
            assert(prev.filter(plan_pred) =~= self.plans@);
        }
        // clear the day reference of writings that pointed into this plan
        let mut j: usize = 0;
        while j < self.writings.len()
            invariant
                old(self).wf(),
                self.days@ == old(self).days@,
                self.writings@.len() == old(self).writings@.len(),
                forall|k: int|
                    0 <= k < j ==> #[trigger] self.writings@[k] == if (old(
                        self,
                    ).writings@[k].plan_day_id matches Some(d) && old(self).day_of_plan(
                        d,
                        plan_id,
                    )) {
                        WritingRow { plan_day_id: None, ..old(self).writings@[k] }
                    } else {
                        old(self).writings@[k]
                    },
                forall|k: int|
                    j <= k < self.writings@.len() ==> #[trigger] self.writings@[k] == old(
                        self,
                    ).writings@[k],
                self.plans@ == old(self).plans@.filter(plan_id_ne(plan_id)),
                self.tasks@ == old(self).tasks@,
                self.next_plan_id == old(self).next_plan_id,
                self.next_day_id == old(self).next_day_id,
                self.next_writing_id == old(self).next_writing_id,
                self.next_task_id == old(self).next_task_id,
            decreases self.writings@.len() - j,
        {
            let mut clear = false;
            if let Some(d) = self.writings[j].plan_day_id {
                match self.find_day(d) {
                    Some(di) => {
                        if self.days[di].plan_id == plan_id {
                            clear = true;
                        }
                        proof {
                            if !clear {
                                if old(self).day_of_plan(d, plan_id) {
                                    let w = choose|w: int|
                                        0 <= w < old(self).days@.len() && (#[trigger] old(
                                            self,
                                        ).days@[w]).id == d && old(self).days@[w].plan_id
                                            == plan_id;
                                    lemma_day_ids_unique(old(self).days@, w, di as int);
                                }
                            }
                        }
                    },
                    None => {
                        proof {
                            if old(self).day_of_plan(d, plan_id) {
                                assert(old(self).has_day(d));
                            }
                        }
                    },
                }
            }
            if clear {
                self.writings[j].plan_day_id = None;
            }
            j = j + 1;
        }
        // drop the day rows of the plan
        let ghost day_pred = day_plan_ne(plan_id);
        let mut olddays: Vec<DayRow> = Vec::new();
        core::mem::swap(&mut self.days, &mut olddays);
        let ghost all = olddays@;
        proof {
            assert(all.take(0).filter(day_pred) =~= Seq::<DayRow>::empty());
            assert(all.skip(0) =~= all);
        }
        while olddays.len() > 0
            invariant
                all == old(self).days@,
                olddays@.len() <= all.len(),
                self.days@ == all.take(all.len() - olddays@.len()).filter(day_plan_ne(plan_id)),
                olddays@ == all.skip(all.len() - olddays@.len()),
                self.writings@.len() == old(self).writings@.len(),
                forall|k: int|
                    0 <= k < self.writings@.len() ==> #[trigger] self.writings@[k] == if (old(
                        self,
                    ).writings@[k].plan_day_id matches Some(d) && old(self).day_of_plan(
                        d,
                        plan_id,
                    )) {
                        WritingRow { plan_day_id: None, ..old(self).writings@[k] }
                    } else {
                        old(self).writings@[k]
                    },
                self.plans@ == old(self).plans@.filter(plan_id_ne(plan_id)),
                self.tasks@ == old(self).tasks@,
                self.next_plan_id == old(self).next_plan_id,
                self.next_day_id == old(self).next_day_id,
                self.next_writing_id == old(self).next_writing_id,
                self.next_task_id == old(self).next_task_id,
            decreases olddays@.len(),
        {
            let ghost jj = all.len() - olddays@.len();
            let ghost before = olddays@;
            let d = olddays.remove(0);
            proof {
                assert(0 <= jj < all.len());
                assert(all.skip(jj)[0] == all[jj]);
                assert(d == all[jj]);
                lemma_filter_take_step(all, day_plan_ne(plan_id), jj);
                assert((day_plan_ne(plan_id))(d) == (d.plan_id != plan_id));
                assert(olddays@ =~= all.skip(jj + 1));
            }
            if d.plan_id != plan_id {
                self.days.push(d);
            }
        }
        proof {
            assert(all.take(all.len() as int) =~= all);
            assert(self.days@ == old(self).days@.filter(day_plan_ne(plan_id)));
            lemma_wf_after_delete_plan(*old(self), *self, plan_id);
        }
        Ok(())
    }
}

/// After the cascade of a plan deletion the store is well formed again.
proof fn lemma_wf_after_delete_plan(prev: Store, cur: Store, plan_id: i64)
    requires
        prev.wf(),
        cur.plans@ == prev.plans@.filter(plan_id_ne(plan_id)),
        cur.days@ == prev.days@.filter(day_plan_ne(plan_id)),
        cur.writings@.len() == prev.writings@.len(),
        forall|j: int|
            0 <= j < cur.writings@.len() ==> #[trigger] cur.writings@[j] == if (
            prev.writings@[j].plan_day_id matches Some(d) && prev.day_of_plan(d, plan_id)) {
                WritingRow { plan_day_id: None, ..prev.writings@[j] }
            } else {
                prev.writings@[j]
            },
        cur.tasks@ == prev.tasks@,
        cur.next_plan_id == prev.next_plan_id,
        cur.next_day_id == prev.next_day_id,
        cur.next_writing_id == prev.next_writing_id,
        cur.next_task_id == prev.next_task_id,
    ensures
        cur.wf(),
{
    let plan_pred = plan_id_ne(plan_id);
    let day_pred = day_plan_ne(plan_id);
    broadcast use vstd::seq_lib::group_filter_ensures;

    lemma_filter_plans_increasing(prev.plans@, plan_pred);
    lemma_filter_days_increasing(prev.days@, day_pred);
    lemma_filter_subset(prev.plans@, plan_pred);
    lemma_filter_subset(prev.days@, day_pred);
    assert forall|i: int, j: int|
        0 <= i < j < cur.writings@.len() implies (#[trigger] cur.writings@[i]).id < (
    #[trigger] cur.writings@[j]).id by {
        assert(cur.writings@[i].id == prev.writings@[i].id);
        assert(cur.writings@[j].id == prev.writings@[j].id);
    }
    assert forall|i: int| 0 <= i < cur.plans@.len() implies 0 < (#[trigger] cur.plans@[i]).id
        < cur.next_plan_id by {
        assert(prev.plans@.contains(cur.plans@[i]));
        let k = choose|k: int| 0 <= k < prev.plans@.len() && prev.plans@[k] == cur.plans@[i];
    }
    assert forall|i: int| 0 <= i < cur.days@.len() implies 0 < (#[trigger] cur.days@[i]).id
        < cur.next_day_id by {
        assert(prev.days@.contains(cur.days@[i]));
        let k = choose|k: int| 0 <= k < prev.days@.len() && prev.days@[k] == cur.days@[i];
    }
    assert forall|i: int| 0 <= i < cur.writings@.len() implies 0 < (#[trigger] cur.writings@[i]).id
        < cur.next_writing_id by {
        assert(cur.writings@[i].id == prev.writings@[i].id);
    }
    // day rows still reference live plans
    assert forall|i: int| 0 <= i < cur.days@.len() implies cur.has_plan(
        (#[trigger] cur.days@[i]).plan_id,
    ) by {
        assert(prev.days@.contains(cur.days@[i]));
        let k = choose|k: int| 0 <= k < prev.days@.len() && prev.days@[k] == cur.days@[i];
        assert(prev.has_plan(prev.days@[k].plan_id));
        let m = choose|m: int|
            0 <= m < prev.plans@.len() && (#[trigger] prev.plans@[m]).id == prev.days@[k].plan_id;
        assert(day_pred(cur.days@[i]));
        assert(plan_pred(prev.plans@[m]));
        assert(prev.plans@.filter(plan_pred).contains(prev.plans@[m]));
        let t = choose|t: int|
            0 <= t < cur.plans@.len() && cur.plans@[t] == prev.plans@[m];
        assert(cur.plans@[t].id == cur.days@[i].plan_id);
    }
    // writing rows still reference live days or nothing
    assert forall|i: int| 0 <= i < cur.writings@.len() implies match (
    #[trigger] cur.writings@[i]).plan_day_id {
        Some(d) => cur.has_day(d),
        None => true,
    } by {
        match cur.writings@[i].plan_day_id {
            Some(d) => {
                assert(prev.writings@[i].plan_day_id == Some(d));
                assert(!prev.day_of_plan(d, plan_id));
                assert(prev.has_day(d));
                let k = choose|k: int|
                    0 <= k < prev.days@.len() && (#[trigger] prev.days@[k]).id == d;
                assert(prev.days@[k].plan_id != plan_id);
                assert(day_pred(prev.days@[k]));
                assert(prev.days@.filter(day_pred).contains(prev.days@[k]));
                let t = choose|t: int|
                    0 <= t < cur.days@.len() && cur.days@[t] == prev.days@[k];
            },
            None => {},
        }
    }
    // total_days stays in sync: surviving plans keep exactly their days
    assert forall|i: int|
        0 <= i < cur.plans@.len() implies (#[trigger] cur.plans@[i]).total_days as int
            == cur.days_of(cur.plans@[i].id).len() by {
        assert(prev.plans@.contains(cur.plans@[i]));
        let k = choose|k: int| 0 <= k < prev.plans@.len() && prev.plans@[k] == cur.plans@[i];
        let pid = cur.plans@[i].id;
        assert(pid != plan_id);
        let of_plan = day_in_plan(pid);
        assert forall|x: DayRow| #[trigger] of_plan(x) implies day_pred(x) by {
            assert(of_plan(x) == (x.plan_id == pid));
            assert(day_pred(x) == (x.plan_id != plan_id));
        }
        lemma_filter_of_filter_implied(prev.days@, day_pred, of_plan);
        assert(cur.days_of(pid) == prev.days_of(pid));
        assert(prev.plans@[k].total_days as int == prev.days_of(pid).len());
    }
}

/// Replacing plan rows without touching their ids or day counts keeps the
/// store well formed.
pub proof fn lemma_wf_plan_rows_replaced(prev: Store, cur: Store)
    requires
        prev.wf(),
        cur.plans@.len() == prev.plans@.len(),
        forall|k: int|
            0 <= k < cur.plans@.len() ==> (#[trigger] cur.plans@[k]).id == prev.plans@[k].id
                && cur.plans@[k].total_days == prev.plans@[k].total_days,
        cur.same_but_plans(prev),
    ensures
        cur.wf(),
{
    assert forall|id: i64| prev.has_plan(id) implies cur.has_plan(id) by {
        let k = choose|k: int|
            0 <= k < prev.plans@.len() && (#[trigger] prev.plans@[k]).id == id;
        assert(cur.plans@[k].id == id);
    }
    assert forall|i: int| 0 <= i < cur.days@.len() implies cur.has_plan(
        (#[trigger] cur.days@[i]).plan_id,
    ) by {
        assert(prev.has_plan(prev.days@[i].plan_id));
    }
    assert forall|i: int|
        0 <= i < cur.plans@.len() implies (#[trigger] cur.plans@[i]).total_days as int
            == cur.days_of(cur.plans@[i].id).len() by {
        assert(cur.days_of(cur.plans@[i].id) == prev.days_of(prev.plans@[i].id));
    }
    assert forall|i: int| 0 <= i < cur.writings@.len() implies match (
    #[trigger] cur.writings@[i]).plan_day_id {
        Some(d) => cur.has_day(d),
        None => true,
    } by {
        match cur.writings@[i].plan_day_id {
            Some(d) => {
                assert(prev.has_day(d));
                let k = choose|k: int|
                    0 <= k < prev.days@.len() && (#[trigger] prev.days@[k]).id == d;
                assert(cur.days@[k].id == d);
            },
            None => {},
        }
    }
}

} // verus!

verus! {

impl Store {
    /// Create a plan with its day entries.  Each entry is scheduled
    /// `day - 1` days after the start date, using the entry's own day number,
    /// not its position.  The operation is atomic: on failure the store is
    /// unchanged.  Fails when the start date is not a valid `YYYY-MM-DD`
    /// date or a scheduled date cannot be represented.
    pub fn create_plan(&mut self, req: &ImportPlanRequest, now: &str) -> (r: Result<i64, AppError>)
        requires
            old(self).wf(),
            req.days@.len() <= 0x7fff_ffff,
            old(self).next_plan_id < 0x7fff_ffff_ffff_ffff,
            old(self).next_day_id + req.days@.len() < 0x7fff_ffff_ffff_ffff,
        ensures
            final(self).wf(),
            match r {
                Ok(id) => {
                    &&& date_num(req.start_date@) is Some
                    &&& forall|k: int|
                        0 <= k < req.days@.len() ==> scheduled_date_spec(
                            req.start_date@,
                            (#[trigger] req.days@[k]).day as int,
                        ) is Some
                    &&& id == old(self).next_plan_id
                    &&& final(self).plans@.len() == old(self).plans@.len() + 1
                    &&& final(self).plans@.take(old(self).plans@.len() as int) == old(self).plans@
                    &&& plan_row_model(final(self).plans@.last()) == (PlanModel {
                        id: Some(id),
                        name: req.name@,
                        theme: opt_str_view(req.theme),
                        start_date: req.start_date@,
                        total_days: req.days@.len() as int,
                        status: PlanStatus::Active,
                        created_at: Some(now@),
                    })
                    &&& final(self).days@.len() == old(self).days@.len() + req.days@.len()
                    &&& final(self).days@.take(old(self).days@.len() as int) == old(self).days@
                    &&& forall|k: int|
                        0 <= k < req.days@.len() ==> {
                            let d = #[trigger] final(self).days@[old(self).days@.len() + k];
                            &&& d.id == old(self).next_day_id + k
                            &&& d.plan_id == id
                            &&& d.day_number == req.days@[k].day
                            &&& d.title@ == req.days@[k].title@
                            &&& d.prompt@ == req.days@[k].prompt@
                            &&& opt_str_view(d.scheduled_date) == scheduled_date_spec(
                                req.start_date@,
                                req.days@[k].day as int,
                            )
                        }
                    &&& final(self).writings@ == old(self).writings@
                    &&& final(self).tasks@ == old(self).tasks@
                    &&& final(self).next_plan_id == old(self).next_plan_id + 1
                    &&& final(self).next_day_id == old(self).next_day_id + req.days@.len()
                    &&& final(self).next_writing_id == old(self).next_writing_id
                    &&& final(self).next_task_id == old(self).next_task_id
                },
                Err(e) => {
                    &&& *final(self) == *old(self)
                    &&& e is Business
                    &&& (date_num(req.start_date@) is None || exists|k: int|
                        0 <= k < req.days@.len() && scheduled_date_spec(
                            req.start_date@,
                            (#[trigger] req.days@[k]).day as int,
                        ) is None)
                },
            },
    {
        if parse_date(req.start_date.as_str()).is_none() {
            return Err(
                AppError::Business(String::from_str("invalid date format, expected YYYY-MM-DD")),
            );
        }
        let id = self.next_plan_id;
        let mut new_days: Vec<DayRow> = Vec::new();
        let mut k: usize = 0;
        while k < req.days.len()
            invariant
                0 <= k <= req.days@.len(),
                req.days@.len() <= 0x7fff_ffff,
                old(self).wf(),
                *self == *old(self),
                id == old(self).next_plan_id,
                old(self).next_day_id + req.days@.len() < 0x7fff_ffff_ffff_ffff,
                new_days@.len() == k,
                forall|t: int|
                    0 <= t < k ==> scheduled_date_spec(
                        req.start_date@,
                        (#[trigger] req.days@[t]).day as int,
                    ) is Some,
                forall|t: int|
                    0 <= t < k ==> {
                        let d = #[trigger] new_days@[t];
                        &&& d.id == old(self).next_day_id + t
                        &&& d.plan_id == id
                        &&& d.day_number == req.days@[t].day
                        &&& d.title@ == req.days@[t].title@
                        &&& d.prompt@ == req.days@[t].prompt@
                        &&& opt_str_view(d.scheduled_date) == scheduled_date_spec(
                            req.start_date@,
                            req.days@[t].day as int,
                        )
                    },
            decreases req.days@.len() - k,
        {
            let item = &req.days[k];
            let sched = match scheduled_date_for(req.start_date.as_str(), item.day) {
                Ok(s) => s,
                Err(e) => {
                    return Err(e);
                },
            };
            new_days.push(
                DayRow {
                    id: self.next_day_id + (k as i64),
                    plan_id: id,
                    day_number: item.day,
                    title: item.title.clone(),
                    prompt: item.prompt.clone(),
                    scheduled_date: Some(sched),
                },
            );
            k = k + 1;
        }
        let total: i32 = req.days.len() as i32;
        self.plans.push(
            PlanRow {
                id,
                name: req.name.clone(),
                theme: clone_opt_string(&req.theme),
                start_date: req.start_date.clone(),
                total_days: total,
                status: PlanStatus::Active,
                created_at: String::from_str(now),
            },
        );
        let ghost block = new_days@;
        self.days.append(&mut new_days);
        self.next_plan_id = self.next_plan_id + 1;
        self.next_day_id = self.next_day_id + (total as i64);
        proof {
            lemma_wf_after_create_plan(*old(self), *self, *req, id, block);
            assert(self.plans@.take(old(self).plans@.len() as int) =~= old(self).plans@);
            assert(self.days@.take(old(self).days@.len() as int) =~= old(self).days@);
        }
        Ok(id)
    }
}

/// Appending a fresh plan row and its fresh day rows keeps the store well
/// formed.
proof fn lemma_wf_after_create_plan(
    prev: Store,
    cur: Store,
    req: ImportPlanRequest,
    id: i64,
    block: Seq<DayRow>,
)
    requires
        prev.wf(),
        id == prev.next_plan_id,
        req.days@.len() <= 0x7fff_ffff,
        prev.next_day_id + req.days@.len() < 0x7fff_ffff_ffff_ffff,
        cur.plans@ == prev.plans@.push(
            PlanRow {
                id,
                name: req.name,
                theme: req.theme,
                start_date: req.start_date,
                total_days: req.days@.len() as i32,
                status: PlanStatus::Active,
                created_at: cur.plans@.last().created_at,
            },
        ),
        block.len() == req.days@.len(),
        forall|t: int|
            0 <= t < block.len() ==> (#[trigger] block[t]).id == prev.next_day_id + t
                && block[t].plan_id == id,
        cur.days@ == prev.days@ + block,
        cur.writings@ == prev.writings@,
        cur.tasks@ == prev.tasks@,
        cur.next_plan_id == prev.next_plan_id + 1,
        cur.next_day_id == prev.next_day_id + req.days@.len(),
        cur.next_writing_id == prev.next_writing_id,
        cur.next_task_id == prev.next_task_id,
    ensures
        cur.wf(),
{
    let new_plan = cur.plans@.last();
    assert forall|i: int, j: int|
        0 <= i < j < cur.plans@.len() implies (#[trigger] cur.plans@[i]).id < (
    #[trigger] cur.plans@[j]).id by {
        if j < prev.plans@.len() {
            assert(cur.plans@[i] == prev.plans@[i]);
            assert(cur.plans@[j] == prev.plans@[j]);
        } else {
            assert(cur.plans@[i] == prev.plans@[i]);
            assert(prev.plans@[i].id < prev.next_plan_id);
        }
    }
    assert forall|i: int, j: int|
        0 <= i < j < cur.days@.len() implies (#[trigger] cur.days@[i]).id < (
    #[trigger] cur.days@[j]).id by {
        if j < prev.days@.len() {
            assert(cur.days@[i] == prev.days@[i]);
            assert(cur.days@[j] == prev.days@[j]);
        } else {
            assert(cur.days@[j] == block[j - prev.days@.len()]);
            if i < prev.days@.len() {
                assert(cur.days@[i] == prev.days@[i]);
                assert(prev.days@[i].id < prev.next_day_id);
            } else {
                assert(cur.days@[i] == block[i - prev.days@.len()]);
            }
        }
    }
    assert forall|i: int| 0 <= i < cur.plans@.len() implies 0 < (#[trigger] cur.plans@[i]).id
        < cur.next_plan_id by {
        if i < prev.plans@.len() {
            assert(cur.plans@[i] == prev.plans@[i]);
        }
    }
    assert forall|i: int| 0 <= i < cur.days@.len() implies 0 < (#[trigger] cur.days@[i]).id
        < cur.next_day_id by {
        if i < prev.days@.len() {
            assert(cur.days@[i] == prev.days@[i]);
        } else {
            assert(cur.days@[i] == block[i - prev.days@.len()]);
        }
    }
    assert forall|i: int| 0 <= i < cur.days@.len() implies cur.has_plan(
        (#[trigger] cur.days@[i]).plan_id,
    ) by {
        if i < prev.days@.len() {
            assert(cur.days@[i] == prev.days@[i]);
            assert(prev.has_plan(prev.days@[i].plan_id));
            let k = choose|k: int|
                0 <= k < prev.plans@.len() && (#[trigger] prev.plans@[k]).id
                    == prev.days@[i].plan_id;
            assert(cur.plans@[k].id == cur.days@[i].plan_id);
        } else {
            assert(cur.days@[i] == block[i - prev.days@.len()]);
            assert(cur.plans@[cur.plans@.len() - 1].id == id);
        }
    }
    assert forall|i: int| 0 <= i < cur.writings@.len() implies match (
    #[trigger] cur.writings@[i]).plan_day_id {
        Some(d) => cur.has_day(d),
        None => true,
    } by {
        match cur.writings@[i].plan_day_id {
            Some(d) => {
                assert(prev.has_day(d));
                let k = choose|k: int|
                    0 <= k < prev.days@.len() && (#[trigger] prev.days@[k]).id == d;
                assert(cur.days@[k].id == d);
            },
            None => {},
        }
    }
    // total_days stays in sync
    assert forall|i: int|
        0 <= i < cur.plans@.len() implies (#[trigger] cur.plans@[i]).total_days as int
            == cur.days_of(cur.plans@[i].id).len() by {
        let pid = cur.plans@[i].id;
        Seq::filter_distributes_over_add(prev.days@, block, day_in_plan(pid));
        if i < prev.plans@.len() {
            assert(cur.plans@[i] == prev.plans@[i]);
            assert(pid < prev.next_plan_id);
            assert forall|t: int| 0 <= t < block.len() implies !(day_in_plan(pid))(
                #[trigger] block[t],
            ) by {
                assert(block[t].plan_id == id);
            }
            lemma_filter_all_false(block, day_in_plan(pid));
            assert(cur.days_of(pid) =~= prev.days_of(pid));
        } else {
            assert(pid == id);
            assert forall|t: int| 0 <= t < prev.days@.len() implies !(day_in_plan(pid))(
                #[trigger] prev.days@[t],
            ) by {
                assert(prev.has_plan(prev.days@[t].plan_id));
                let k = choose|k: int|
                    0 <= k < prev.plans@.len() && (#[trigger] prev.plans@[k]).id
                        == prev.days@[t].plan_id;
                assert(prev.plans@[k].id < prev.next_plan_id);
            }
            lemma_filter_all_false(prev.days@, day_in_plan(pid));
            assert forall|t: int| 0 <= t < block.len() implies (day_in_plan(pid))(
                #[trigger] block[t],
            ) by {
                assert(block[t].plan_id == id);
            }
            lemma_filter_all_true(block, day_in_plan(pid));
            assert(cur.days_of(pid) =~= block);
        }
    }
}

} // verus!

verus! {

/// The image of a partial day update on one stored row.
pub open spec fn updated_day_row(d: DayRow, req: UpdatePlanDayRequest) -> DayRow {
    DayRow {
        title: match req.title {
            Some(t) => t,
            None => d.title,
        },
        prompt: match req.prompt {
            Some(p) => p,
            None => d.prompt,
        },
        ..d
    }
}

/// The scheduled date stored for an inserted day: the explicit override if
/// given, else the date computed from the plan's start date and the
/// position; `None` when that computation fails.
pub open spec fn added_day_sched(req: AddPlanDayRequest, start: Seq<char>) -> Option<Seq<char>> {
    match req.scheduled_date {
        Some(s) => Some(s@),
        None => scheduled_date_spec(start, req.day_number as int),
    }
}

impl Store {
    /// Update the provided fields of a single day; with no fields given this
    /// is a no-op that succeeds even for an unknown id.  Otherwise fails with
    /// `NotFound` when the id does not exist.
    pub fn update_plan_day(&mut self, req: &UpdatePlanDayRequest) -> (r: Result<(), AppError>)
        requires
            old(self).wf(),
        ensures
            final(self).wf(),
            match r {
                Ok(_) => if req.title is None && req.prompt is None {
                    *final(self) == *old(self)
                } else {
                    &&& old(self).has_day(req.id)
                    &&& final(self).days@.len() == old(self).days@.len()
                    &&& forall|k: int|
                        0 <= k < final(self).days@.len() ==> #[trigger] final(self).days@[k]
                            == if old(self).days@[k].id == req.id {
                            updated_day_row(old(self).days@[k], *req)
                        } else {
                            old(self).days@[k]
                        }
                    &&& final(self).plans@ == old(self).plans@
                    &&& final(self).writings@ == old(self).writings@
                    &&& final(self).tasks@ == old(self).tasks@
                    &&& final(self).next_plan_id == old(self).next_plan_id
                    &&& final(self).next_day_id == old(self).next_day_id
                    &&& final(self).next_writing_id == old(self).next_writing_id
                    &&& final(self).next_task_id == old(self).next_task_id
                },
                Err(e) => {
                    &&& !(req.title is None && req.prompt is None)
                    &&& !old(self).has_day(req.id)
                    &&& e is NotFound
                    &&& *final(self) == *old(self)
                },
            },
    {
        if req.title.is_none() && req.prompt.is_none() {
            return Ok(());
        }
        match self.find_day(req.id) {
            None => Err(AppError::NotFound(String::from_str("plan day not found"))),
            Some(i) => {
                if let Some(t) = &req.title {
                    self.days[i].title = t.clone();
                }
                if let Some(p) = &req.prompt {
                    self.days[i].prompt = p.clone();
                }
                proof {
                    lemma_wf_day_rows_replaced(*old(self), *self);
                    assert forall|k: int| 0 <= k < self.days@.len() implies #[trigger] self.days@[k]
                        == if old(self).days@[k].id == req.id {
                        updated_day_row(old(self).days@[k], *req)
                    } else {
                        old(self).days@[k]
                    } by {
                        if k != i {
                            assert(self.days@[k] == old(self).days@[k]);
                            assert(old(self).days@[k].id != req.id);
                        }
                    }
                }
                Ok(())
            },
        }
    }

    /// Insert a day at a position: every day of the plan at or past the
    /// position moves up one number (its scheduled date stays), the new day
    /// takes the position, and the day count is refreshed.  Fails with
    /// `NotFound` when the plan does not exist, and with a domain error when
    /// no override is given and the scheduled date cannot be computed (the
    /// plan's start date does not parse, or the result is unrepresentable),
    /// when a day number cannot grow, or when the day count cannot be
    /// represented.
    pub fn add_plan_day(&mut self, req: &AddPlanDayRequest) -> (r: Result<(), AppError>)
        requires
            old(self).wf(),
            old(self).next_day_id < 0x7fff_ffff_ffff_ffff,
        ensures
            final(self).wf(),
            match r {
                Ok(_) => {
                    &&& old(self).has_plan(req.plan_id)
                    &&& old(self).days_of(req.plan_id).len() < 0x7fff_ffff
                    &&& !(exists|k: int|
                        0 <= k < old(self).days@.len() && (#[trigger] old(self).days@[k]).plan_id
                            == req.plan_id && old(self).days@[k].day_number >= req.day_number
                            && old(self).days@[k].day_number == 0x7fff_ffff)
                    &&& final(self).days@.len() == old(self).days@.len() + 1
                    &&& forall|k: int|
                        0 <= k < old(self).days@.len() ==> #[trigger] final(self).days@[k] == if (
                        old(self).days@[k].plan_id == req.plan_id && old(self).days@[k].day_number
                            >= req.day_number) {
                            DayRow {
                                day_number: (old(self).days@[k].day_number + 1) as i32,
                                ..old(self).days@[k]
                            }
                        } else {
                            old(self).days@[k]
                        }
                    &&& {
                        let d = final(self).days@.last();
                        &&& d.id == old(self).next_day_id
                        &&& d.plan_id == req.plan_id
                        &&& d.day_number == req.day_number
                        &&& d.title@ == req.title@
                        &&& d.prompt@ == req.prompt@
                    }
                    &&& forall|pi: int|
                        (0 <= pi < old(self).plans@.len() && (#[trigger] old(self).plans@[pi]).id
                            == req.plan_id) ==> added_day_sched(
                            *req,
                            old(self).plans@[pi].start_date@,
                        ) is Some && opt_str_view(final(self).days@.last().scheduled_date)
                            == added_day_sched(*req, old(self).plans@[pi].start_date@)
                    &&& final(self).plans@.len() == old(self).plans@.len()
                    &&& forall|pi: int|
                        0 <= pi < old(self).plans@.len() ==> #[trigger] final(self).plans@[pi]
                            == if old(self).plans@[pi].id == req.plan_id {
                            PlanRow {
                                total_days: (old(self).days_of(req.plan_id).len() + 1) as i32,
                                ..old(self).plans@[pi]
                            }
                        } else {
                            old(self).plans@[pi]
                        }
                    &&& final(self).writings@ == old(self).writings@
                    &&& final(self).tasks@ == old(self).tasks@
                    &&& final(self).next_plan_id == old(self).next_plan_id
                    &&& final(self).next_day_id == old(self).next_day_id + 1
                    &&& final(self).next_writing_id == old(self).next_writing_id
                    &&& final(self).next_task_id == old(self).next_task_id
                },
                Err(e) => {
                    &&& *final(self) == *old(self)
                    &&& (e is NotFound <==> !old(self).has_plan(req.plan_id))
                    &&& (e is Business ==> old(self).has_plan(req.plan_id) && (old(self).days_of(
                        req.plan_id,
                    ).len() >= 0x7fff_ffff || (exists|k: int|
                        0 <= k < old(self).days@.len() && (#[trigger] old(self).days@[k]).plan_id
                            == req.plan_id && old(self).days@[k].day_number >= req.day_number
                            && old(self).days@[k].day_number == 0x7fff_ffff) || (
                    req.scheduled_date is None && forall|pi: int|
                        (0 <= pi < old(self).plans@.len() && (#[trigger] old(self).plans@[pi]).id
                            == req.plan_id) ==> scheduled_date_spec(
                            old(self).plans@[pi].start_date@,
                            req.day_number as int,
                        ) is None)))
                    &&& (e is NotFound || e is Business)
                },
            },
    {
        let pi = match self.find_plan(req.plan_id) {
            None => {
                return Err(AppError::NotFound(String::from_str("writing plan not found")));
            },
            Some(i) => i,
        };
        let pid = req.plan_id;
        // settle the scheduled date before touching anything, so a failure
        // leaves the store unchanged
        let sched: String = match &req.scheduled_date {
            Some(s) => s.clone(),
            None => {
                match scheduled_date_for(self.plans[pi].start_date.as_str(), req.day_number) {
                    Ok(s) => s,
                    Err(e) => {
                        proof {
                            assert forall|qi: int|
                                (0 <= qi < old(self).plans@.len() && (#[trigger] old(
                                    self,
                                ).plans@[qi]).id == req.plan_id) implies scheduled_date_spec(
                                old(self).plans@[qi].start_date@,
                                req.day_number as int,
                            ) is None by {
                                lemma_plan_ids_unique(old(self).plans@, qi, pi as int);
                            }
                        }
                        return Err(e);
                    },
                }
            },
        };
        proof {
            assert(added_day_sched(*req, old(self).plans@[pi as int].start_date@) == Some(
                sched@,
            ));
        }
        // scan: count the plan's days and check that every shifted number can grow
        let n = self.days.len();
        let mut cnt: usize = 0;
        let mut k: usize = 0;
        while k < n
            invariant
                0 <= k <= n,
                n == self.days@.len(),
                old(self).wf(),
                old(self).has_plan(req.plan_id),
                pid == req.plan_id,
                0 <= pi < old(self).plans@.len(),
                old(self).plans@[pi as int].id == pid,
                added_day_sched(*req, old(self).plans@[pi as int].start_date@) == Some(sched@),
                *self == *old(self),
                cnt == self.days@.take(k as int).filter(day_in_plan(pid)).len(),
                forall|t: int|
                    0 <= t < k ==> !((#[trigger] self.days@[t]).plan_id == pid
                        && self.days@[t].day_number >= req.day_number && self.days@[t].day_number
                        == 0x7fff_ffff),
            decreases n - k,
        {
            let d = &self.days[k];
            proof {
                lemma_filter_take_step(self.days@, day_in_plan(pid), k as int);
                assert((day_in_plan(pid))(self.days@[k as int]) == (self.days@[k as int].plan_id
                    == pid));
            }
            if d.plan_id == pid {
                if d.day_number >= req.day_number && d.day_number == 0x7fff_ffff {
                    return Err(AppError::Business(String::from_str("day number out of range")));
                }
                cnt = cnt + 1;
                proof {
                    lemma_filter_len_implies(
                        self.days@.take(k + 1),
                        day_in_plan(pid),
                        day_in_plan(pid),
                    );
                }
            }
            k = k + 1;
        }
        proof {
            assert(self.days@.take(n as int) =~= self.days@);
            assert(cnt == old(self).days_of(pid).len());
        }
        if cnt >= 0x7fff_ffff {
            return Err(AppError::Business(String::from_str("day count out of range")));
        }
        // shift the numbers of the days at or past the position
        let mut k2: usize = 0;
        while k2 < n
            invariant
                0 <= k2 <= n,
                n == self.days@.len(),
                old(self).wf(),
                0 <= pi < old(self).plans@.len(),
                old(self).plans@[pi as int].id == pid,
                added_day_sched(*req, old(self).plans@[pi as int].start_date@) == Some(sched@),
                self.days@.len() == old(self).days@.len(),
                forall|t: int|
                    0 <= t < k2 ==> #[trigger] self.days@[t] == if (old(self).days@[t].plan_id
                        == pid && old(self).days@[t].day_number >= req.day_number) {
                        DayRow {
                            day_number: (old(self).days@[t].day_number + 1) as i32,
                            ..old(self).days@[t]
                        }
                    } else {
                        old(self).days@[t]
                    },
                forall|t: int|
                    k2 <= t < n ==> #[trigger] self.days@[t] == old(self).days@[t],
                forall|t: int|
                    0 <= t < n ==> !((#[trigger] old(self).days@[t]).plan_id == pid && old(
                        self,
                    ).days@[t].day_number >= req.day_number && old(self).days@[t].day_number
                        == 0x7fff_ffff),
                self.plans@ == old(self).plans@,
                self.writings@ == old(self).writings@,
                self.tasks@ == old(self).tasks@,
                self.next_plan_id == old(self).next_plan_id,
                self.next_day_id == old(self).next_day_id,
                self.next_writing_id == old(self).next_writing_id,
                self.next_task_id == old(self).next_task_id,
            decreases n - k2,
        {
            let shift = self.days[k2].plan_id == pid && self.days[k2].day_number >= req.day_number;
            if shift {
                let dn = self.days[k2].day_number;
                self.days[k2].day_number = dn + 1;
            }
            k2 = k2 + 1;
        }
        // insert the new day
        let new_id = self.next_day_id;
        self.days.push(
            DayRow {
                id: new_id,
                plan_id: pid,
                day_number: req.day_number,
                title: req.title.clone(),
                prompt: req.prompt.clone(),
                scheduled_date: Some(sched),
            },
        );
        self.next_day_id = self.next_day_id + 1;
        let new_total: i32 = (cnt + 1) as i32;
        self.plans[pi].total_days = new_total;
        proof {
            lemma_wf_after_add_day(*old(self), *self, pid, pi as int, cnt as int);
            assert forall|qi: int|
                (0 <= qi < old(self).plans@.len() && (#[trigger] old(self).plans@[qi]).id == pid)
                    implies added_day_sched(*req, old(self).plans@[qi].start_date@) is Some
                && opt_str_view(self.days@.last().scheduled_date) == added_day_sched(
                *req,
                old(self).plans@[qi].start_date@,
            ) by {
                if qi != pi as int {
                    if qi < pi as int {
                        assert(old(self).plans@[qi].id < old(self).plans@[pi as int].id);
                    } else {
                        assert(old(self).plans@[pi as int].id < old(self).plans@[qi].id);
                    }
                }
            }
            assert forall|qi: int| 0 <= qi < old(self).plans@.len() implies #[trigger] self.plans@[qi]
                == if old(self).plans@[qi].id == pid {
                PlanRow {
                    total_days: (old(self).days_of(pid).len() + 1) as i32,
                    ..old(self).plans@[qi]
                }
            } else {
                old(self).plans@[qi]
            } by {
                if qi != pi as int {
                    assert(self.plans@[qi] == old(self).plans@[qi]);
                    if qi < pi as int {
                        assert(old(self).plans@[qi].id < old(self).plans@[pi as int].id);
                    } else {
                        assert(old(self).plans@[pi as int].id < old(self).plans@[qi].id);
                    }
                }
            }
        }
        Ok(())
    }
}

/// Replacing day rows without touching their ids or owning plans keeps the
/// store well formed.
pub proof fn lemma_wf_day_rows_replaced(prev: Store, cur: Store)
    requires
        prev.wf(),
        cur.days@.len() == prev.days@.len(),
        forall|k: int|
            0 <= k < cur.days@.len() ==> (#[trigger] cur.days@[k]).id == prev.days@[k].id
                && cur.days@[k].plan_id == prev.days@[k].plan_id,
        cur.plans@ == prev.plans@,
        cur.writings@ == prev.writings@,
        cur.tasks@ == prev.tasks@,
        cur.next_plan_id == prev.next_plan_id,
        cur.next_day_id == prev.next_day_id,
        cur.next_writing_id == prev.next_writing_id,
        cur.next_task_id == prev.next_task_id,
    ensures
        cur.wf(),
{
    assert forall|i: int| 0 <= i < cur.writings@.len() implies match (
    #[trigger] cur.writings@[i]).plan_day_id {
        Some(d) => cur.has_day(d),
        None => true,
    } by {
        match cur.writings@[i].plan_day_id {
            Some(d) => {
                assert(prev.has_day(d));
                let k = choose|k: int|
                    0 <= k < prev.days@.len() && (#[trigger] prev.days@[k]).id == d;
                assert(cur.days@[k].id == d);
            },
            None => {},
        }
    }
    assert forall|i: int|
        0 <= i < cur.plans@.len() implies (#[trigger] cur.plans@[i]).total_days as int
            == cur.days_of(cur.plans@[i].id).len() by {
        let pid = cur.plans@[i].id;
        assert forall|k: int| 0 <= k < cur.days@.len() implies (day_in_plan(pid))(
            #[trigger] cur.days@[k],
        ) == (day_in_plan(pid))(prev.days@[k]) by {
            assert((day_in_plan(pid))(cur.days@[k]) == (cur.days@[k].plan_id == pid));
            assert((day_in_plan(pid))(prev.days@[k]) == (prev.days@[k].plan_id == pid));
        }
        lemma_filter_len_eq_pointwise(cur.days@, prev.days@, day_in_plan(pid));
    }
}

/// After shifting a plan's day numbers and appending its fresh day, the store
/// is well formed.
proof fn lemma_wf_after_add_day(prev: Store, cur: Store, pid: i64, pi: int, cnt: int)
    requires
        prev.wf(),
        prev.next_day_id < 0x7fff_ffff_ffff_ffff,
        0 <= pi < prev.plans@.len(),
        prev.plans@[pi].id == pid,
        cnt == prev.days_of(pid).len(),
        cnt + 1 <= 0x7fff_ffff,
        cur.days@.len() == prev.days@.len() + 1,
        forall|k: int|
            0 <= k < prev.days@.len() ==> (#[trigger] cur.days@[k]).id == prev.days@[k].id
                && cur.days@[k].plan_id == prev.days@[k].plan_id,
        cur.days@.last().id == prev.next_day_id,
        cur.days@.last().plan_id == pid,
        cur.plans@.len() == prev.plans@.len(),
        forall|k: int|
            0 <= k < cur.plans@.len() ==> (#[trigger] cur.plans@[k]).id == prev.plans@[k].id,
        forall|k: int|
            0 <= k < cur.plans@.len() && k != pi ==> #[trigger] cur.plans@[k] == prev.plans@[k],
        cur.plans@[pi] == (PlanRow { total_days: (cnt + 1) as i32, ..prev.plans@[pi] }),
        cur.writings@ == prev.writings@,
        cur.tasks@ == prev.tasks@,
        cur.next_plan_id == prev.next_plan_id,
        cur.next_day_id == prev.next_day_id + 1,
        cur.next_writing_id == prev.next_writing_id,
        cur.next_task_id == prev.next_task_id,
    ensures
        cur.wf(),
{
    let base = cur.days@.take(prev.days@.len() as int);
    assert forall|i: int, j: int|
        0 <= i < j < cur.days@.len() implies (#[trigger] cur.days@[i]).id < (
    #[trigger] cur.days@[j]).id by {
        if j < prev.days@.len() {
            assert(cur.days@[i].id == prev.days@[i].id);
            assert(cur.days@[j].id == prev.days@[j].id);
        } else {
            assert(cur.days@[j] == cur.days@.last());
            assert(cur.days@[i].id == prev.days@[i].id);
            assert(prev.days@[i].id < prev.next_day_id);
        }
    }
    assert forall|i: int| 0 <= i < cur.days@.len() implies 0 < (#[trigger] cur.days@[i]).id
        < cur.next_day_id by {
        if i < prev.days@.len() {
            assert(cur.days@[i].id == prev.days@[i].id);
        } else {
            assert(cur.days@[i] == cur.days@.last());
        }
    }
    assert forall|i: int| 0 <= i < cur.days@.len() implies cur.has_plan(
        (#[trigger] cur.days@[i]).plan_id,
    ) by {
        if i < prev.days@.len() {
            assert(cur.days@[i].plan_id == prev.days@[i].plan_id);
            assert(prev.has_plan(prev.days@[i].plan_id));
            let k = choose|k: int|
                0 <= k < prev.plans@.len() && (#[trigger] prev.plans@[k]).id
                    == prev.days@[i].plan_id;
            assert(cur.plans@[k].id == cur.days@[i].plan_id);
        } else {
            assert(cur.days@[i] == cur.days@.last());
            assert(cur.plans@[pi].id == pid);
        }
    }
    assert forall|i: int| 0 <= i < cur.writings@.len() implies match (
    #[trigger] cur.writings@[i]).plan_day_id {
        Some(d) => cur.has_day(d),
        None => true,
    } by {
        match cur.writings@[i].plan_day_id {
            Some(d) => {
                assert(prev.has_day(d));
                let k = choose|k: int|
                    0 <= k < prev.days@.len() && (#[trigger] prev.days@[k]).id == d;
                assert(cur.days@[k].id == d);
            },
            None => {},
        }
    }
    assert forall|i: int|
        0 <= i < cur.plans@.len() implies (#[trigger] cur.plans@[i]).total_days as int
            == cur.days_of(cur.plans@[i].id).len() by {
        let qid = cur.plans@[i].id;
        assert(cur.days@ =~= base + seq![cur.days@.last()]);
        Seq::filter_distributes_over_add(base, seq![cur.days@.last()], day_in_plan(qid));
        assert forall|k: int| 0 <= k < base.len() implies (day_in_plan(qid))(#[trigger] base[k])
            == (day_in_plan(qid))(prev.days@[k]) by {
            assert(base[k] == cur.days@[k]);
            assert((day_in_plan(qid))(base[k]) == (base[k].plan_id == qid));
            assert((day_in_plan(qid))(prev.days@[k]) == (prev.days@[k].plan_id == qid));
        }
        lemma_filter_len_eq_pointwise(base, prev.days@, day_in_plan(qid));
        if i == pi {
            assert((day_in_plan(qid))(cur.days@.last()));
            lemma_filter_singleton(cur.days@.last(), day_in_plan(qid));
        } else {
            if i < pi {
                assert(prev.plans@[i].id < prev.plans@[pi].id);
            } else {
                assert(prev.plans@[pi].id < prev.plans@[i].id);
            }
            assert(qid == prev.plans@[i].id);
            assert(qid != pid);
            assert(!(day_in_plan(qid))(cur.days@.last()));
            lemma_filter_singleton(cur.days@.last(), day_in_plan(qid));
            assert(cur.plans@[i] == prev.plans@[i]);
        }
    }
}

} // verus!

verus! {

/// What deleting the day at former position `di` leaves behind: the row is
/// gone, the owning plan's remaining days are renumbered densely following
/// their former `(day_number, id)` order, the plan's day count is refreshed,
/// and writings that referenced the day lose the reference.
pub open spec fn delete_day_post(prev: Store, cur: Store, day_id: i64, di: int) -> bool {
    let pid = prev.days@[di].plan_id;
    let base = prev.days@.remove(di);
    &&& cur.days@.len() == base.len()
    &&& forall|k: int|
        0 <= k < base.len() ==> #[trigger] cur.days@[k] == if base[k].plan_id == pid {
            DayRow {
                day_number: (1 + lex_rank(base, pid, base[k].day_number as int, base[k].id)) as i32,
                ..base[k]
            }
        } else {
            base[k]
        }
    &&& cur.days_dense(pid)
    &&& cur.plans@.len() == prev.plans@.len()
    &&& forall|i: int|
        0 <= i < prev.plans@.len() ==> #[trigger] cur.plans@[i] == if prev.plans@[i].id == pid {
            PlanRow {
                total_days: base.filter(day_in_plan(pid)).len() as i32,
                ..prev.plans@[i]
            }
        } else {
            prev.plans@[i]
        }
    &&& cur.writings@.len() == prev.writings@.len()
    &&& forall|k: int|
        0 <= k < prev.writings@.len() ==> #[trigger] cur.writings@[k] == if prev.writings@[k].plan_day_id
            == Some(day_id) {
            WritingRow { plan_day_id: None, ..prev.writings@[k] }
        } else {
            prev.writings@[k]
        }
    &&& cur.tasks@ == prev.tasks@
    &&& cur.next_plan_id == prev.next_plan_id
    &&& cur.next_day_id == prev.next_day_id
    &&& cur.next_writing_id == prev.next_writing_id
    &&& cur.next_task_id == prev.next_task_id
}

impl Store {
    /// Delete a single day: the remaining days of its plan are renumbered
    /// densely as `1..=count`, keeping their former order by day number (ties
    /// by creation); their scheduled dates are left as they were.  Writings
    /// that referenced the day lose the reference.  Fails with `NotFound`
    /// when the id does not exist.
    pub fn delete_plan_day(&mut self, day_id: i64) -> (r: Result<(), AppError>)
        requires
            old(self).wf(),
        ensures
            final(self).wf(),
            match r {
                Ok(_) => {
                    &&& old(self).has_day(day_id)
                    &&& forall|di: int|
                        (0 <= di < old(self).days@.len() && (#[trigger] old(self).days@[di]).id
                            == day_id) ==> delete_day_post(*old(self), *final(self), day_id, di)
                },
                Err(e) => !old(self).has_day(day_id) && e is NotFound && *final(self) == *old(
                    self,
                ),
            },
    {
        let di = match self.find_day(day_id) {
            None => {
                return Err(AppError::NotFound(String::from_str("plan day not found")));
            },
            Some(i) => i,
        };
        let pid = self.days[di].plan_id;
        // clear the references of writings recorded against this day
        let mut j: usize = 0;
        while j < self.writings.len()
            invariant
                old(self).wf(),
                self.days@ == old(self).days@,
                self.plans@ == old(self).plans@,
                self.tasks@ == old(self).tasks@,
                self.next_plan_id == old(self).next_plan_id,
                self.next_day_id == old(self).next_day_id,
                self.next_writing_id == old(self).next_writing_id,
                self.next_task_id == old(self).next_task_id,
                self.writings@.len() == old(self).writings@.len(),
                forall|k: int|
                    0 <= k < j ==> #[trigger] self.writings@[k] == if old(
                        self,
                    ).writings@[k].plan_day_id == Some(day_id) {
                        WritingRow { plan_day_id: None, ..old(self).writings@[k] }
                    } else {
                        old(self).writings@[k]
                    },
                forall|k: int|
                    j <= k < self.writings@.len() ==> #[trigger] self.writings@[k] == old(
                        self,
                    ).writings@[k],
            decreases self.writings@.len() - j,
        {
            let is_ref = match self.writings[j].plan_day_id {
                Some(d) => d == day_id,
                None => false,
            };
            if is_ref {
                self.writings[j].plan_day_id = None;
            }
            j = j + 1;
        }
        // remove the day row itself
        self.days.remove(di);
        let ghost base = self.days@;
        // compute the new number of every remaining day of the plan
        let n = self.days.len();
        let mut ranks: Vec<i32> = Vec::new();
        let mut cnt: usize = 0;
        let mut k: usize = 0;
        while k < n
            invariant
                old(self).wf(),
                0 <= di < old(self).days@.len(),
                old(self).days@[di as int].id == day_id,
                old(self).days@[di as int].plan_id == pid,
                base == old(self).days@.remove(di as int),
                n == self.days@.len(),
                self.days@ == base,
                0 <= k <= n,
                ranks@.len() == k,
                cnt == base.take(k as int).filter(day_in_plan(pid)).len(),
                cnt <= 0x7fff_fffe,
                forall|t: int|
                    0 <= t < k && base[t].plan_id == pid ==> (#[trigger] ranks@[t]) as int == 1
                        + lex_rank(base, pid, base[t].day_number as int, base[t].id),
            decreases n - k,
        {
            let in_p = self.days[k].plan_id == pid;
            proof {
                lemma_filter_take_step(base, day_in_plan(pid), k as int);
                assert((day_in_plan(pid))(base[k as int]) == (base[k as int].plan_id == pid));
            }
            if in_p {
                let dnk = self.days[k].day_number;
                let idk = self.days[k].id;
                let mut c: usize = 0;
                let mut t2: usize = 0;
                while t2 < n
                    invariant
                        n == self.days@.len(),
                        self.days@ == base,
                        0 <= t2 <= n,
                        c <= t2,
                        0 <= k < n,
                        base[k as int].day_number == dnk,
                        base[k as int].id == idk,
                        base[k as int].plan_id == pid,
                        c == base.take(t2 as int).filter(rank_pred(pid, dnk as int, idk)).len(),
                    decreases n - t2,
                {
                    proof {
                        lemma_filter_take_step(base, rank_pred(pid, dnk as int, idk), t2 as int);
                        assert((rank_pred(pid, dnk as int, idk))(base[t2 as int]) == (base[t2 as int].plan_id
                            == pid && (base[t2 as int].day_number < dnk || (base[t2 as int].day_number
                            == dnk && base[t2 as int].id < idk))));
                    }
                    let d = &self.days[t2];
                    if d.plan_id == pid && (d.day_number < dnk || (d.day_number == dnk && d.id
                        < idk)) {
                        c = c + 1;
                    }
                    t2 = t2 + 1;
                }
                proof {
                    assert(base.take(n as int) =~= base);
                    assert(c as int == lex_rank(base, pid, dnk as int, idk));
                    lemma_lex_rank_below_count(base, pid, k as int);
                    lemma_delete_day_count_bound(*old(self), base, di as int, pid);
                    assert(base =~= base.take(k + 1) + base.skip(k + 1));
                    Seq::filter_distributes_over_add(base.take(k + 1), base.skip(k + 1), day_in_plan(pid));
                }
                cnt = cnt + 1;
                ranks.push((c + 1) as i32);
            } else {
                ranks.push(0);
            }
            k = k + 1;
        }
        proof {
            assert(base.take(n as int) =~= base);
            lemma_delete_day_count_bound(*old(self), base, di as int, pid);
        }
        // apply the numbers
        let mut k2: usize = 0;
        while k2 < n
            invariant
                old(self).wf(),
                0 <= di < old(self).days@.len(),
                old(self).days@[di as int].id == day_id,
                old(self).days@[di as int].plan_id == pid,
                base == old(self).days@.remove(di as int),
                n == self.days@.len(),
                base.len() == n,
                0 <= k2 <= n,
                ranks@.len() == n,
                cnt == base.filter(day_in_plan(pid)).len(),
                cnt <= 0x7fff_fffe,
                forall|t: int|
                    0 <= t < n && base[t].plan_id == pid ==> (#[trigger] ranks@[t]) as int == 1
                        + lex_rank(base, pid, base[t].day_number as int, base[t].id),
                forall|t: int|
                    0 <= t < k2 ==> #[trigger] self.days@[t] == if base[t].plan_id == pid {
                        DayRow { day_number: ranks@[t], ..base[t] }
                    } else {
                        base[t]
                    },
                forall|t: int| k2 <= t < n ==> #[trigger] self.days@[t] == base[t],
                self.plans@ == old(self).plans@,
                self.tasks@ == old(self).tasks@,
                self.next_plan_id == old(self).next_plan_id,
                self.next_day_id == old(self).next_day_id,
                self.next_writing_id == old(self).next_writing_id,
                self.next_task_id == old(self).next_task_id,
                self.writings@.len() == old(self).writings@.len(),
                forall|k: int|
                    0 <= k < self.writings@.len() ==> #[trigger] self.writings@[k] == if old(
                        self,
                    ).writings@[k].plan_day_id == Some(day_id) {
                        WritingRow { plan_day_id: None, ..old(self).writings@[k] }
                    } else {
                        old(self).writings@[k]
                    },
            decreases n - k2,
        {
            if self.days[k2].plan_id == pid {
                let v = ranks[k2];
                self.days[k2].day_number = v;
            }
            k2 = k2 + 1;
        }
        // refresh the plan's day count
        let pi = match self.find_plan(pid) {
            Some(i) => i,
            None => {
                proof {
                    assert(old(self).has_plan(pid));
                    let w = choose|w: int|
                        0 <= w < old(self).plans@.len() && (#[trigger] old(self).plans@[w]).id
                            == pid;
                    assert(self.plans@[w].id == pid);
                    assert(false);
                }
                return Err(AppError::NotFound(String::from_str("writing plan not found")));
            },
        };
        self.plans[pi].total_days = cnt as i32;
        proof {
            lemma_wf_after_delete_day(*old(self), *self, day_id, di as int, pid, base, cnt as int);
            assert forall|di2: int|
                (0 <= di2 < old(self).days@.len() && (#[trigger] old(self).days@[di2]).id
                    == day_id) implies delete_day_post(*old(self), *self, day_id, di2) by {
                lemma_day_ids_unique(old(self).days@, di2, di as int);
                assert forall|i: int| 0 <= i < old(self).plans@.len() implies #[trigger] self.plans@[i]
                    == if old(self).plans@[i].id == pid {
                    PlanRow {
                        total_days: base.filter(day_in_plan(pid)).len() as i32,
                        ..old(self).plans@[i]
                    }
                } else {
                    old(self).plans@[i]
                } by {
                    if i != pi as int {
                        assert(self.plans@[i] == old(self).plans@[i]);
                        if i < pi as int {
                            assert(old(self).plans@[i].id < old(self).plans@[pi as int].id);
                        } else {
                            assert(old(self).plans@[pi as int].id < old(self).plans@[i].id);
                        }
                    }
                }
            }
        }
        Ok(())
    }
}

/// Removing one of a plan's days leaves the plan with fewer days than fit in
/// its stored count.
proof fn lemma_delete_day_count_bound(prev: Store, base: Seq<DayRow>, di: int, pid: i64)
    requires
        prev.wf(),
        0 <= di < prev.days@.len(),
        prev.days@[di].plan_id == pid,
        base == prev.days@.remove(di),
    ensures
        base.filter(day_in_plan(pid)).len() <= 0x7fff_fffe,
        base.filter(day_in_plan(pid)).len() + 1 == prev.days_of(pid).len(),
{
    let s = prev.days@;
    assert(prev.has_plan(pid));
    let w = choose|w: int| 0 <= w < prev.plans@.len() && (#[trigger] prev.plans@[w]).id == pid;
    assert(prev.plans@[w].total_days as int == prev.days_of(pid).len());
    assert(s.remove(di) =~= s.take(di) + s.skip(di + 1));
    Seq::filter_distributes_over_add(s.take(di), s.skip(di + 1), day_in_plan(pid));
    assert(s =~= s.take(di) + s.subrange(di, di + 1) + s.skip(di + 1));
    Seq::filter_distributes_over_add(
        s.take(di) + s.subrange(di, di + 1),
        s.skip(di + 1),
        day_in_plan(pid),
    );
    Seq::filter_distributes_over_add(s.take(di), s.subrange(di, di + 1), day_in_plan(pid));
    assert(s.subrange(di, di + 1) =~= seq![s[di]]);
    assert((day_in_plan(pid))(s[di]));
    lemma_filter_singleton(s[di], day_in_plan(pid));
}

/// After the renumbering that follows a day deletion, the store is well
/// formed and the plan's numbering is dense again.
proof fn lemma_wf_after_delete_day(
    prev: Store,
    cur: Store,
    day_id: i64,
    di: int,
    pid: i64,
    base: Seq<DayRow>,
    cnt: int,
)
    requires
        prev.wf(),
        0 <= di < prev.days@.len(),
        prev.days@[di].id == day_id,
        prev.days@[di].plan_id == pid,
        base == prev.days@.remove(di),
        cnt == base.filter(day_in_plan(pid)).len(),
        cnt <= 0x7fff_fffe,
        cur.days@.len() == base.len(),
        forall|k: int|
            0 <= k < base.len() ==> #[trigger] cur.days@[k] == if base[k].plan_id == pid {
                DayRow {
                    day_number: (1 + lex_rank(
                        base,
                        pid,
                        base[k].day_number as int,
                        base[k].id,
                    )) as i32,
                    ..base[k]
                }
            } else {
                base[k]
            },
        cur.plans@.len() == prev.plans@.len(),
        forall|i: int|
            0 <= i < prev.plans@.len() ==> #[trigger] cur.plans@[i] == if prev.plans@[i].id == pid {
                PlanRow { total_days: cnt as i32, ..prev.plans@[i] }
            } else {
                prev.plans@[i]
            },
        cur.writings@.len() == prev.writings@.len(),
        forall|k: int|
            0 <= k < prev.writings@.len() ==> #[trigger] cur.writings@[k] == if prev.writings@[k].plan_day_id
                == Some(day_id) {
                WritingRow { plan_day_id: None, ..prev.writings@[k] }
            } else {
                prev.writings@[k]
            },
        cur.tasks@ == prev.tasks@,
        cur.next_plan_id == prev.next_plan_id,
        cur.next_day_id == prev.next_day_id,
        cur.next_writing_id == prev.next_writing_id,
        cur.next_task_id == prev.next_task_id,
    ensures
        cur.wf(),
        cur.days_dense(pid),
{
    // ids along the shortened table still increase, and numbering does not
    // touch them
    assert forall|i: int, j: int|
        0 <= i < j < base.len() implies (#[trigger] base[i]).id < (#[trigger] base[j]).id by {
        if j < di {
            assert(base[i] == prev.days@[i]);
            assert(base[j] == prev.days@[j]);
        } else if i < di {
            assert(base[i] == prev.days@[i]);
            assert(base[j] == prev.days@[j + 1]);
        } else {
            assert(base[i] == prev.days@[i + 1]);
            assert(base[j] == prev.days@[j + 1]);
        }
    }
    assert forall|k: int| 0 <= k < base.len() implies (#[trigger] cur.days@[k]).id == base[k].id
        && cur.days@[k].plan_id == base[k].plan_id && 0 < base[k].id < prev.next_day_id
        && prev.has_plan(base[k].plan_id) by {
        if k < di {
            assert(base[k] == prev.days@[k]);
        } else {
            assert(base[k] == prev.days@[k + 1]);
        }
    }
    assert forall|i: int| 0 <= i < cur.days@.len() implies cur.has_plan(
        (#[trigger] cur.days@[i]).plan_id,
    ) by {
        let q = cur.days@[i].plan_id;
        assert(prev.has_plan(q));
        let w = choose|w: int|
            0 <= w < prev.plans@.len() && (#[trigger] prev.plans@[w]).id == q;
        assert(cur.plans@[w].id == q);
    }
    assert forall|i: int| 0 <= i < cur.writings@.len() implies match (
    #[trigger] cur.writings@[i]).plan_day_id {
        Some(d) => cur.has_day(d),
        None => true,
    } by {
        match cur.writings@[i].plan_day_id {
            Some(d) => {
                assert(cur.writings@[i] == if prev.writings@[i].plan_day_id == Some(day_id) {
                    WritingRow { plan_day_id: None, ..prev.writings@[i] }
                } else {
                    prev.writings@[i]
                });
                assert(prev.writings@[i].plan_day_id == Some(d));
                assert(d != day_id);
                assert(prev.has_day(d));
                let w = choose|w: int|
                    0 <= w < prev.days@.len() && (#[trigger] prev.days@[w]).id == d;
                assert(w != di);
                if w < di {
                    assert(base[w].id == d);
                    assert(cur.days@[w].id == d);
                } else {
                    assert(base[w - 1] == prev.days@[w]);
                    assert(cur.days@[w - 1].id == d);
                }
            },
            None => {},
        }
    }
    // counts per plan
    assert forall|k: int| 0 <= k < base.len() implies (day_in_plan(pid))(#[trigger] cur.days@[k])
        == (day_in_plan(pid))(base[k]) by {
        assert((day_in_plan(pid))(cur.days@[k]) == (cur.days@[k].plan_id == pid));
        assert((day_in_plan(pid))(base[k]) == (base[k].plan_id == pid));
    }
    lemma_filter_len_eq_pointwise(cur.days@, base, day_in_plan(pid));
    assert forall|i: int|
        0 <= i < cur.plans@.len() implies (#[trigger] cur.plans@[i]).total_days as int
            == cur.days_of(cur.plans@[i].id).len() by {
        let qid = cur.plans@[i].id;
        assert(qid == prev.plans@[i].id);
        assert forall|k: int| 0 <= k < base.len() implies (day_in_plan(qid))(
            #[trigger] cur.days@[k],
        ) == (day_in_plan(qid))(base[k]) by {
            assert((day_in_plan(qid))(cur.days@[k]) == (cur.days@[k].plan_id == qid));
            assert((day_in_plan(qid))(base[k]) == (base[k].plan_id == qid));
        }
        lemma_filter_len_eq_pointwise(cur.days@, base, day_in_plan(qid));
        if prev.plans@[i].id == pid {
            assert(cur.plans@[i].total_days as int == cnt);
        } else {
            let s = prev.days@;
            assert(s.remove(di) =~= s.take(di) + s.skip(di + 1));
            Seq::filter_distributes_over_add(s.take(di), s.skip(di + 1), day_in_plan(qid));
            assert(s =~= s.take(di) + s.subrange(di, di + 1) + s.skip(di + 1));
            Seq::filter_distributes_over_add(
                s.take(di) + s.subrange(di, di + 1),
                s.skip(di + 1),
                day_in_plan(qid),
            );
            Seq::filter_distributes_over_add(s.take(di), s.subrange(di, di + 1), day_in_plan(qid));
            assert(s.subrange(di, di + 1) =~= seq![s[di]]);
            assert(!(day_in_plan(qid))(s[di]));
            lemma_filter_singleton(s[di], day_in_plan(qid));
            assert(base.filter(day_in_plan(qid)).len() == prev.days_of(qid).len());
        }
    }
    // the renumbered plan is dense again
    let ds = cur.days_of(pid);
    lemma_filter_subset(cur.days@, day_in_plan(pid));
    assert(ds.len() == cnt);
    assert forall|x: DayRow| ds.contains(x) implies cur.days@.contains(x) by {}
    assert forall|i: int| 0 <= i < ds.len() implies 1 <= (#[trigger] ds[i]).day_number
        <= ds.len() by {
        broadcast use vstd::seq_lib::group_filter_ensures;

        assert(ds.contains(ds[i]));
        assert(cur.days@.contains(ds[i]));
        let k = choose|k: int| 0 <= k < cur.days@.len() && cur.days@[k] == ds[i];
        assert((day_in_plan(pid))(ds[i]));
        assert(base[k].plan_id == pid);
        lemma_lex_rank_below_count(base, pid, k);
    }
    assert forall|i: int, j: int| 0 <= i < j < ds.len() implies ds[i].day_number
        != ds[j].day_number by {
        broadcast use vstd::seq_lib::group_filter_ensures;

        lemma_filter_days_increasing(cur.days@, day_in_plan(pid));
        assert(ds[i].id < ds[j].id);
        assert(ds.contains(ds[i]));
        assert(ds.contains(ds[j]));
        assert(cur.days@.contains(ds[i]));
        assert(cur.days@.contains(ds[j]));
        let k1 = choose|k: int| 0 <= k < cur.days@.len() && cur.days@[k] == ds[i];
        let k2 = choose|k: int| 0 <= k < cur.days@.len() && cur.days@[k] == ds[j];
        assert((day_in_plan(pid))(ds[i]));
        assert((day_in_plan(pid))(ds[j]));
        assert(base[k1].plan_id == pid);
        assert(base[k2].plan_id == pid);
        assert(base[k1].id != base[k2].id);
        if base[k1].day_number < base[k2].day_number || (base[k1].day_number
            == base[k2].day_number && base[k1].id < base[k2].id) {
            lemma_lex_rank_strict(base, pid, k1, k2);
        } else {
            lemma_lex_rank_strict(base, pid, k2, k1);
        }
        lemma_lex_rank_below_count(base, pid, k1);
        lemma_lex_rank_below_count(base, pid, k2);
    }
}

} // verus!

verus! {

/// Day rows order by `(day_number, id)`: the listing order of a plan's days,
/// ties broken by creation.
impl TotalLe for DayRow {
    open spec fn le_spec(&self, other: &Self) -> bool {
        self.day_number < other.day_number || (self.day_number == other.day_number && self.id
            <= other.id)
    }

    proof fn lemma_connex(a: &Self, b: &Self) {
    }

    proof fn lemma_trans(a: &Self, b: &Self, c: &Self) {
    }

    fn le(&self, other: &Self) -> (r: bool) {
        self.day_number < other.day_number || (self.day_number == other.day_number && self.id
            <= other.id)
    }
}

/// The plain day part of a returned day detail.
pub open spec fn detail_day_row(d: PlanDayDetail) -> DayRow {
    DayRow {
        id: d.id,
        plan_id: d.plan_id,
        day_number: d.day_number,
        title: d.title,
        prompt: d.prompt,
        scheduled_date: d.scheduled_date,
    }
}

/// The completed entries of a returned day list.
pub open spec fn detail_completed() -> spec_fn(PlanDayDetail) -> bool {
    |d: PlanDayDetail| d.is_completed
}

/// The augmentation a day detail carries is correct against the store: the
/// completion flag says whether any writing references the day, and the
/// writing fields come from the first such writing.
pub open spec fn detail_augmented(st: Store, d: PlanDayDetail) -> bool {
    let ws = st.writings_of_day(d.id);
    &&& d.is_completed == (ws.len() > 0)
    &&& if ws.len() > 0 {
        &&& d.word_count == ws[0].word_count
        &&& opt_str_view(d.writing_title) == Some(ws[0].title@)
        &&& d.writing_id == Some(ws[0].id)
    } else {
        &&& d.word_count == 0
        &&& d.writing_title is None
        &&& d.writing_id is None
    }
}

impl Store {
    /// Index of the first writing recorded against `day_id`.
    fn first_writing_of_day(&self, day_id: i64) -> (r: Option<usize>)
        ensures
            match r {
                Some(i) => i < self.writings@.len() && self.writings@[i as int].plan_day_id
                    == Some(day_id) && forall|k: int|
                    0 <= k < i ==> (#[trigger] self.writings@[k]).plan_day_id != Some(day_id),
                None => forall|k: int|
                    0 <= k < self.writings@.len() ==> (#[trigger] self.writings@[k]).plan_day_id
                        != Some(day_id),
            },
    {
        let mut i: usize = 0;
        while i < self.writings.len()
            invariant
                0 <= i <= self.writings@.len(),
                forall|k: int|
                    0 <= k < i ==> (#[trigger] self.writings@[k]).plan_day_id != Some(day_id),
            decreases self.writings@.len() - i,
        {
            let hit = match self.writings[i].plan_day_id {
                Some(d) => d == day_id,
                None => false,
            };
            if hit {
                return Some(i);
            }
            i = i + 1;
        }
        None
    }

    /// The plan joined with all its days ordered by day number (ties by
    /// creation), each augmented with its writing-completion state, and the
    /// count of completed days.  Fails with `NotFound` when the plan does
    /// not exist.
    pub fn get_plan_with_days(&self, plan_id: i64) -> (r: Result<PlanWithDays, AppError>)
        requires
            self.wf(),
        ensures
            match r {
                Ok(v) => {
                    &&& self.has_plan(plan_id)
                    &&& exists|i: int|
                        0 <= i < self.plans@.len() && (#[trigger] self.plans@[i]).id == plan_id
                            && plan_model(v.plan) == plan_row_model(self.plans@[i])
                    &&& v.days@.len() == self.days_of(plan_id).len()
                    &&& v.days@.map_values(|d: PlanDayDetail| detail_day_row(d)).to_multiset()
                        == self.days_of(plan_id).to_multiset()
                    &&& forall|i: int, j: int|
                        0 <= i < j < v.days@.len() ==> (detail_day_row(
                            #[trigger] v.days@[i],
                        )).le_spec(&detail_day_row(#[trigger] v.days@[j]))
                    &&& forall|i: int|
                        0 <= i < v.days@.len() ==> detail_augmented(*self, #[trigger] v.days@[i])
                    &&& v.completed_days as int == v.days@.filter(detail_completed()).len()
                },
                Err(e) => !self.has_plan(plan_id) && e is NotFound,
            },
    {
        let pi = match self.find_plan(plan_id) {
            None => {
                return Err(AppError::NotFound(String::from_str("writing plan not found")));
            },
            Some(i) => i,
        };
        let plan = self.plan_at(pi);
        // collect and order the plan's day rows
        let mut rows: Vec<DayRow> = Vec::new();
        let mut k: usize = 0;
        proof {
            assert(self.days@.take(0).filter(day_in_plan(plan_id)) =~= Seq::<DayRow>::empty());
        }
        while k < self.days.len()
            invariant
                0 <= k <= self.days@.len(),
                rows@ == self.days@.take(k as int).filter(day_in_plan(plan_id)),
            decreases self.days@.len() - k,
        {
            proof {
                lemma_filter_take_step(self.days@, day_in_plan(plan_id), k as int);
                assert((day_in_plan(plan_id))(self.days@[k as int]) == (self.days@[k as int].plan_id
                    == plan_id));
            }
            if self.days[k].plan_id == plan_id {
                let d = &self.days[k];
                rows.push(
                    DayRow {
                        id: d.id,
                        plan_id: d.plan_id,
                        day_number: d.day_number,
                        title: d.title.clone(),
                        prompt: d.prompt.clone(),
                        scheduled_date: clone_opt_string(&d.scheduled_date),
                    },
                );
            }
            k = k + 1;
        }
        proof {
            assert(self.days@.take(self.days@.len() as int) =~= self.days@);
        }
        let sorted = sort_rows(rows);
        // augment each day with its writing state
        let mut details: Vec<PlanDayDetail> = Vec::new();
        let mut completed: usize = 0;
        let mut t: usize = 0;
        proof {
            assert(details@.take(0).filter(detail_completed()) =~= Seq::<PlanDayDetail>::empty());
        }
        while t < sorted.len()
            invariant
                self.wf(),
                0 <= t <= sorted@.len(),
                details@.len() == t,
                sorted@.to_multiset() == self.days_of(plan_id).to_multiset(),
                sorted@.len() == self.days_of(plan_id).len(),
                sorted_le(sorted@),
                forall|i: int|
                    0 <= i < t ==> detail_day_row(#[trigger] details@[i]) == sorted@[i],
                forall|i: int|
                    0 <= i < t ==> detail_augmented(*self, #[trigger] details@[i]),
                completed == details@.filter(detail_completed()).len(),
                completed <= t,
            decreases sorted@.len() - t,
        {
            let row = &sorted[t];
            let found = self.first_writing_of_day(row.id);
            let detail = match found {
                Some(wi) => {
                    let w = &self.writings[wi];
                    PlanDayDetail {
                        id: row.id,
                        plan_id: row.plan_id,
                        day_number: row.day_number,
                        title: row.title.clone(),
                        prompt: row.prompt.clone(),
                        scheduled_date: clone_opt_string(&row.scheduled_date),
                        is_completed: true,
                        word_count: w.word_count,
                        writing_title: Some(w.title.clone()),
                        writing_id: Some(w.id),
                    }
                },
                None => {
                    PlanDayDetail {
                        id: row.id,
                        plan_id: row.plan_id,
                        day_number: row.day_number,
                        title: row.title.clone(),
                        prompt: row.prompt.clone(),
                        scheduled_date: clone_opt_string(&row.scheduled_date),
                        is_completed: false,
                        word_count: 0,
                        writing_title: None,
                        writing_id: None,
                    }
                },
            };
            proof {
                let ws = self.writings_of_day(row.id);
                match found {
                    Some(wi) => {
                        lemma_first_match_is_filter_head(self.writings@, row.id, wi as int);
                        assert(detail_augmented(*self, detail));
                    },
                    None => {
                        assert forall|k2: int|
                            0 <= k2 < self.writings@.len() implies !(writing_of_day(row.id))(
                            #[trigger] self.writings@[k2],
                        ) by {
                            assert((writing_of_day(row.id))(self.writings@[k2])
                                == (self.writings@[k2].plan_day_id == Some(row.id)));
                        }
                        lemma_filter_all_false(self.writings@, writing_of_day(row.id));
                        assert(detail_augmented(*self, detail));
                    },
                }
                lemma_filter_take_step(details@.push(detail), detail_completed(), t as int);
                assert(details@.push(detail).take(t as int) =~= details@);
                assert(details@.push(detail).take(t + 1) =~= details@.push(detail));
                assert((detail_completed())(detail) == detail.is_completed);
            }
            let is_c = detail.is_completed;
            details.push(detail);
            if is_c {
                completed = completed + 1;
            }
            t = t + 1;
        }
        proof {
            // each day count is bounded by the plan's stored day count
            let w = choose|w: int|
                0 <= w < self.plans@.len() && (#[trigger] self.plans@[w]).id == plan_id;
            assert(self.plans@[w].total_days as int == self.days_of(plan_id).len());
            assert forall|i: int, j: int|
                0 <= i < j < details@.len() implies (detail_day_row(
                #[trigger] details@[i],
            )).le_spec(&detail_day_row(#[trigger] details@[j])) by {
                assert(detail_day_row(details@[i]) == sorted@[i]);
                assert(detail_day_row(details@[j]) == sorted@[j]);
            }
            assert(details@.map_values(|d: PlanDayDetail| detail_day_row(d)) =~= sorted@);
        }
        Ok(PlanWithDays { plan, days: details, completed_days: completed as i32 })
    }

    /// The day scheduled for today across active plans, with whether any
    /// writing was recorded for it; the earliest-created matching day wins.
    /// `None` when no active plan has a day scheduled today.
    pub fn get_today_writing_task(&self, today: &str) -> (r: Option<TodayWritingTask>)
        requires
            self.wf(),
        ensures
            match r {
                Some(v) => exists|k: int|
                    0 <= k < self.days@.len() && self.today_candidate(
                        #[trigger] self.days@[k],
                        today@,
                    ) && (forall|j: int|
                        0 <= j < k ==> !self.today_candidate(#[trigger] self.days@[j], today@))
                        && self.today_task_matches(self.days@[k], v),
                None => forall|k: int|
                    0 <= k < self.days@.len() ==> !self.today_candidate(
                        #[trigger] self.days@[k],
                        today@,
                    ),
            },
    {
        let mut k: usize = 0;
        while k < self.days.len()
            invariant
                self.wf(),
                0 <= k <= self.days@.len(),
                forall|j: int|
                    0 <= j < k ==> !self.today_candidate(#[trigger] self.days@[j], today@),
            decreases self.days@.len() - k,
        {
            let d = &self.days[k];
            let sched_is_today = match &d.scheduled_date {
                Some(s) => str_eq(s.as_str(), today),
                None => false,
            };
            if sched_is_today {
                match self.find_plan(d.plan_id) {
                    None => {
                        proof {
                            assert(self.has_plan(self.days@[k as int].plan_id));
                            assert(false);
                        }
                    },
                    Some(pi) => {
                        let p = &self.plans[pi];
                        if p.status == PlanStatus::Active {
                            let fw = self.first_writing_of_day(d.id);
                            let done = fw.is_some();
                            let v = TodayWritingTask {
                                plan_name: p.name.clone(),
                                plan_id: p.id,
                                day_number: d.day_number,
                                title: d.title.clone(),
                                prompt: d.prompt.clone(),
                                is_completed: done,
                            };
                            proof {
                                let dk = self.days@[k as int];
                                assert(self.today_candidate(dk, today@));
                                assert forall|i: int|
                                    (0 <= i < self.plans@.len() && (#[trigger] self.plans@[i]).id
                                        == dk.plan_id) implies v.plan_name@
                                    == self.plans@[i].name@ by {
                                    lemma_plan_ids_unique(self.plans@, i, pi as int);
                                }
                                match fw {
                                    Some(wi) => {
                                        lemma_first_match_is_filter_head(
                                            self.writings@,
                                            dk.id,
                                            wi as int,
                                        );
                                    },
                                    None => {
                                        assert forall|k2: int|
                                            0 <= k2 < self.writings@.len() implies !(
                                        writing_of_day(dk.id))(#[trigger] self.writings@[k2]) by {
                                            assert((writing_of_day(dk.id))(self.writings@[k2]) == (
                                            self.writings@[k2].plan_day_id == Some(dk.id)));
                                        }
                                        lemma_filter_all_false(
                                            self.writings@,
                                            writing_of_day(dk.id),
                                        );
                                    },
                                }
                                assert(self.today_task_matches(dk, v));
                            }
                            return Some(v);
                        } else {
                            proof {
                                assert forall|w: int|
                                    0 <= w < self.plans@.len() && (#[trigger] self.plans@[w]).id
                                        == self.days@[k as int].plan_id implies self.plans@[w].status
                                    != PlanStatus::Active by {
                                    lemma_plan_ids_unique(self.plans@, w, pi as int);
                                }
                            }
                        }
                    },
                }
            }
            k = k + 1;
        }
        None
    }

    /// A day row whose scheduled date is today and whose plan is active.
    pub open spec fn today_candidate(self, d: DayRow, today: Seq<char>) -> bool {
        &&& match d.scheduled_date {
            Some(s) => s@ == today,
            None => false,
        }
        &&& exists|i: int|
            0 <= i < self.plans@.len() && (#[trigger] self.plans@[i]).id == d.plan_id
                && self.plans@[i].status == PlanStatus::Active
    }

    /// The returned view repeats the day and its plan, with the completion
    /// flag saying whether any writing references the day.
    pub open spec fn today_task_matches(self, d: DayRow, v: TodayWritingTask) -> bool {
        &&& forall|i: int|
            (0 <= i < self.plans@.len() && (#[trigger] self.plans@[i]).id == d.plan_id)
                ==> v.plan_name@ == self.plans@[i].name@
        &&& v.plan_id == d.plan_id
        &&& v.day_number == d.day_number
        &&& v.title@ == d.title@
        &&& v.prompt@ == d.prompt@
        &&& v.is_completed == (self.writings_of_day(d.id).len() > 0)
    }
}

/// When the scan finds the first writing of a day, it is the head of that
/// day's writing list.
proof fn lemma_first_match_is_filter_head(s: Seq<WritingRow>, day_id: i64, i: int)
    requires
        0 <= i < s.len(),
        s[i].plan_day_id == Some(day_id),
        forall|k: int| 0 <= k < i ==> (#[trigger] s[k]).plan_day_id != Some(day_id),
    ensures
        s.filter(writing_of_day(day_id)).len() > 0,
        s.filter(writing_of_day(day_id))[0] == s[i],
{
    let pred = writing_of_day(day_id);
    assert forall|k: int| 0 <= k < i implies !pred(#[trigger] s.take(i)[k]) by {
        assert(s.take(i)[k] == s[k]);
        assert(pred(s[k]) == (s[k].plan_day_id == Some(day_id)));
    }
    lemma_filter_all_false(s.take(i), pred);
    lemma_filter_take_step(s, pred, i);
    assert(pred(s[i]));
    assert(s.take(i + 1).filter(pred) == s.take(i).filter(pred).push(s[i]));
    assert(s =~= s.take(i + 1) + s.skip(i + 1));
    Seq::filter_distributes_over_add(s.take(i + 1), s.skip(i + 1), pred);
    assert(s.filter(pred)[0] == s.take(i + 1).filter(pred)[0]);
}

} // verus!
