//! The plan-numbering laws: after creating a plan from densely numbered
//! entries, inserting a day at a position inside the range, or deleting any
//! day, the owning plan's day numbers are exactly `{1, ..., total_days}`,
//! and `total_days` always equals the live day-row count.
//!
//! Creation takes the imported numbers as given, and insertion takes the
//! position as given, so each law holds under the stated conditions on its
//! input: a plan imported with numbers `[1, 1, 2]`, or a day inserted at
//! position 7 of a three-day plan, leaves a sparse numbering, as the store
//! operations' own contracts show.

use vstd::prelude::*;
use crate::models::{AddPlanDayRequest, ImportPlanRequest};
use crate::plan_store::delete_day_post;
use crate::store::{day_in_plan, lemma_filter_all_false, lemma_filter_all_true,
    lemma_filter_take_step, DayRow, Store};

verus! {

/// Every plan's stored `total_days` equals its live day-row count, in every
/// well-formed store — so after any store operation.
pub proof fn lemma_total_days_in_sync(st: Store)
    requires
        st.wf(),
    ensures
        forall|i: int|
            0 <= i < st.plans@.len() ==> (#[trigger] st.plans@[i]).total_days as int == st.days_of(
                st.plans@[i].id,
            ).len(),
{
}

/// A filter applied to sequences that agree on the predicate pointwise
/// keeps positionally related elements.
proof fn lemma_filter_pointwise_rel<A>(
    s1: Seq<A>,
    s2: Seq<A>,
    pred: spec_fn(A) -> bool,
    rel: spec_fn(A, A) -> bool,
)
    requires
        s1.len() == s2.len(),
        forall|k: int|
            0 <= k < s1.len() ==> pred(#[trigger] s1[k]) == pred(#[trigger] s2[k]) && (pred(s1[k])
                ==> rel(s1[k], s2[k])),
    ensures
        s1.filter(pred).len() == s2.filter(pred).len(),
        forall|i: int|
            0 <= i < s1.filter(pred).len() ==> rel(
                #[trigger] s1.filter(pred)[i],
                #[trigger] s2.filter(pred)[i],
            ),
    decreases s1.len(),
{
    reveal(Seq::filter);
    if s1.len() > 0 {
        lemma_filter_pointwise_rel(s1.drop_last(), s2.drop_last(), pred, rel);
        if pred(s1.last()) {
            let f1 = s1.drop_last().filter(pred);
            let f2 = s2.drop_last().filter(pred);
            assert forall|i: int| 0 <= i < s1.filter(pred).len() implies rel(
                #[trigger] s1.filter(pred)[i],
                #[trigger] s2.filter(pred)[i],
            ) by {
                if i < f1.len() {
                    assert(s1.filter(pred)[i] == f1[i]);
                    assert(s2.filter(pred)[i] == f2[i]);
                } else {
                    assert(s1.filter(pred)[i] == s1.last());
                    assert(s2.filter(pred)[i] == s2.last());
                }
            }
        }
    }
}

/// Creating a plan from entries whose day numbers are exactly `1..=n` — each
/// in range and no two equal — leaves the new plan densely numbered.
pub proof fn lemma_create_plan_dense(prev: Store, cur: Store, req: ImportPlanRequest, id: i64)
    requires
        prev.wf(),
        id == prev.next_plan_id,
        cur.days@.len() == prev.days@.len() + req.days@.len(),
        cur.days@.take(prev.days@.len() as int) == prev.days@,
        forall|k: int|
            0 <= k < req.days@.len() ==> {
                let d = #[trigger] cur.days@[prev.days@.len() + k];
                &&& d.plan_id == id
                &&& d.day_number == req.days@[k].day
            },
        forall|k: int|
            0 <= k < req.days@.len() ==> 1 <= (#[trigger] req.days@[k]).day <= req.days@.len(),
        forall|k1: int, k2: int|
            0 <= k1 < k2 < req.days@.len() ==> (#[trigger] req.days@[k1]).day != (
            #[trigger] req.days@[k2]).day,
    ensures
        cur.days_dense(id),
{
    let pred = day_in_plan(id);
    let prefix = cur.days@.take(prev.days@.len() as int);
    let block = cur.days@.skip(prev.days@.len() as int);
    assert(cur.days@ =~= prefix + block);
    assert forall|t: int| 0 <= t < prefix.len() implies !pred(#[trigger] prefix[t]) by {
        assert(prefix[t] == prev.days@[t]);
        assert(prev.has_plan(prev.days@[t].plan_id));
        let w = choose|w: int|
            0 <= w < prev.plans@.len() && (#[trigger] prev.plans@[w]).id == prev.days@[t].plan_id;
        assert(prev.plans@[w].id < prev.next_plan_id);
        assert(pred(prefix[t]) == (prefix[t].plan_id == id));
    }
    lemma_filter_all_false(prefix, pred);
    assert forall|t: int| 0 <= t < block.len() implies pred(#[trigger] block[t]) by {
        assert(block[t] == cur.days@[prev.days@.len() + t]);
        assert(pred(block[t]) == (block[t].plan_id == id));
    }
    lemma_filter_all_true(block, pred);
    Seq::filter_distributes_over_add(prefix, block, pred);
    assert(cur.days_of(id) =~= block);
    assert forall|i: int| 0 <= i < block.len() implies 1 <= (#[trigger] block[i]).day_number
        <= block.len() by {
        assert(block[i] == cur.days@[prev.days@.len() + i]);
        assert(block[i].day_number == req.days@[i].day);
    }
    assert forall|i: int, j: int| 0 <= i < j < block.len() implies block[i].day_number
        != block[j].day_number by {
        assert(block[i] == cur.days@[prev.days@.len() + i]);
        assert(block[j] == cur.days@[prev.days@.len() + j]);
        assert(req.days@[i].day != req.days@[j].day);
    }
}

/// Inserting a day at a position between 1 and the old count plus one, into
/// a densely numbered plan, leaves it densely numbered.
pub proof fn lemma_add_plan_day_dense(prev: Store, cur: Store, req: AddPlanDayRequest)
    requires
        prev.wf(),
        prev.days_dense(req.plan_id),
        1 <= req.day_number,
        req.day_number as int <= prev.days_of(req.plan_id).len() + 1,
        prev.days_of(req.plan_id).len() < 0x7fff_ffff,
        cur.days@.len() == prev.days@.len() + 1,
        forall|k: int|
            0 <= k < prev.days@.len() ==> #[trigger] cur.days@[k] == if (prev.days@[k].plan_id
                == req.plan_id && prev.days@[k].day_number >= req.day_number) {
                DayRow { day_number: (prev.days@[k].day_number + 1) as i32, ..prev.days@[k] }
            } else {
                prev.days@[k]
            },
        cur.days@.last().plan_id == req.plan_id,
        cur.days@.last().day_number == req.day_number,
    ensures
        cur.days_dense(req.plan_id),
{
    let pid = req.plan_id;
    let pos = req.day_number as int;
    let pred = day_in_plan(pid);
    let prefix = cur.days@.take(prev.days@.len() as int);
    let dsp = prev.days_of(pid);
    let cnt = dsp.len() as int;
    // the shifted prefix keeps the plan's rows positionally
    let shifted = |a: DayRow, b: DayRow|
        {
            &&& b.plan_id == a.plan_id
            &&& b.day_number as int == if a.day_number >= pos {
                a.day_number + 1
            } else {
                a.day_number as int
            }
        };
    assert forall|k: int| 0 <= k < prev.days@.len() implies pred(#[trigger] prev.days@[k]) == pred(
        #[trigger] prefix[k],
    ) && (pred(prev.days@[k]) ==> shifted(prev.days@[k], prefix[k])) by {
        assert(prefix[k] == cur.days@[k]);
        assert(pred(prev.days@[k]) == (prev.days@[k].plan_id == pid));
        assert(pred(prefix[k]) == (prefix[k].plan_id == pid));
        if prev.days@[k].plan_id == pid && prev.days@[k].day_number >= pos {
            broadcast use vstd::seq_lib::group_filter_ensures;

            assert(prev.days@.filter(pred).contains(prev.days@[k]));
            let x = choose|x: int| 0 <= x < dsp.len() && dsp[x] == prev.days@[k];
            assert(1 <= dsp[x].day_number <= cnt);
            assert(1 <= prev.days@[k].day_number <= cnt);
        }
    }
    lemma_filter_pointwise_rel(prev.days@, prefix, pred, shifted);
    let fsp = prefix.filter(pred);
    assert(fsp.len() == cnt);
    // the whole table ends with the fresh row
    assert(cur.days@ =~= prefix + seq![cur.days@.last()]);
    Seq::filter_distributes_over_add(prefix, seq![cur.days@.last()], pred);
    crate::store::lemma_filter_singleton(cur.days@.last(), pred);
    assert(pred(cur.days@.last()) == (cur.days@.last().plan_id == pid));
    let ds = cur.days_of(pid);
    assert(ds =~= fsp + seq![cur.days@.last()]);
    assert(ds.len() == cnt + 1);
    assert forall|i: int| 0 <= i < ds.len() implies 1 <= (#[trigger] ds[i]).day_number
        <= ds.len() by {
        if i < cnt {
            assert(ds[i] == fsp[i]);
            assert(shifted(dsp[i], fsp[i]));
            assert(1 <= dsp[i].day_number <= cnt);
        } else {
            assert(ds[i] == cur.days@.last());
        }
    }
    assert forall|i: int, j: int| 0 <= i < j < ds.len() implies ds[i].day_number
        != ds[j].day_number by {
        if j < cnt {
            assert(ds[i] == fsp[i]);
            assert(ds[j] == fsp[j]);
            assert(shifted(dsp[i], fsp[i]));
            assert(shifted(dsp[j], fsp[j]));
            assert(dsp[i].day_number != dsp[j].day_number);
            assert(1 <= dsp[i].day_number <= cnt);
            assert(1 <= dsp[j].day_number <= cnt);
        } else {
            assert(ds[j] == cur.days@.last());
            assert(ds[j].day_number as int == pos);
            assert(ds[i] == fsp[i]);
            assert(shifted(dsp[i], fsp[i]));
            if dsp[i].day_number >= pos {
                assert(ds[i].day_number as int == dsp[i].day_number + 1);
            } else {
                assert(ds[i].day_number as int == dsp[i].day_number as int);
            }
        }
    }
}

/// Deleting any day renumbers its plan densely: the surviving day numbers
/// are exactly `{1, ..., count}`, unconditionally.
pub proof fn lemma_delete_plan_day_dense(prev: Store, cur: Store, day_id: i64, di: int)
    requires
        0 <= di < prev.days@.len(),
        prev.days@[di].id == day_id,
        delete_day_post(prev, cur, day_id, di),
    ensures
        cur.days_dense(prev.days@[di].plan_id),
{
}

} // verus!
