//! Writing store operations: session recording, filtered listing, the
//! aggregate statistics with streak computation, and the heatmap.

use vstd::prelude::*;
use crate::dates::{date_num, date_str, format_date, parse_date};
use crate::errors::AppError;
use crate::models::{HeatmapEntry, Writing, SaveWritingRequest, WritingFilter, WritingStats};
use crate::sort::{lemma_count_two_indices, lemma_two_indices_count, sort_rows, sorted_le, TotalLe};
use crate::store::{lemma_day_ids_unique, lemma_filter_subset, lemma_filter_take_step,
    lemma_filter_writings_increasing, writing_model, writing_row_model, Store, WritingRow};
use crate::text::{lemma_lex_le_trans, lemma_lex_lt_total, lemma_lex_lt_trans, lex_le, lex_lt,
    str_eq, str_le, str_lt};

verus! {

/// Strings order by their characters' code points, the storage engine's
/// order for `TEXT`.
impl TotalLe for String {
    open spec fn le_spec(&self, other: &Self) -> bool {
        lex_le(self@, other@)
    }

    proof fn lemma_connex(a: &Self, b: &Self) {
        lemma_lex_lt_total(a@, b@);
    }

    proof fn lemma_trans(a: &Self, b: &Self, c: &Self) {
        lemma_lex_le_trans(a@, b@, c@);
    }

    fn le(&self, other: &Self) -> (r: bool) {
        str_le(self.as_str(), other.as_str())
    }
}

/// Writing rows order by written date descending, then creation descending:
/// the listing order of sessions.
impl TotalLe for WritingRow {
    open spec fn le_spec(&self, other: &Self) -> bool {
        lex_lt(other.written_date@, self.written_date@) || (other.written_date@
            == self.written_date@ && other.id <= self.id)
    }

    proof fn lemma_connex(a: &Self, b: &Self) {
        lemma_lex_lt_total(a.written_date@, b.written_date@);
    }

    proof fn lemma_trans(a: &Self, b: &Self, c: &Self) {
        if lex_lt(b.written_date@, a.written_date@) && lex_lt(
            c.written_date@,
            b.written_date@,
        ) {
            lemma_lex_lt_trans(c.written_date@, b.written_date@, a.written_date@);
        }
    }

    fn le(&self, other: &Self) -> (r: bool) {
        proof {
            lemma_lex_lt_total(other.written_date@, self.written_date@);
        }
        str_lt(other.written_date.as_str(), self.written_date.as_str()) || (str_eq(
            other.written_date.as_str(),
            self.written_date.as_str(),
        ) && other.id <= self.id)
    }
}

impl Store {
    /// Copy the stored writing row at `i` into the caller-facing model.
    fn writing_at(&self, i: usize) -> (r: Writing)
        requires
            i < self.writings@.len(),
        ensures
            writing_model(r) == writing_row_model(self.writings@[i as int]),
    {
        let w = &self.writings[i];
        Writing {
            id: Some(w.id),
            plan_day_id: w.plan_day_id,
            title: w.title.clone(),
            content: w.content.clone(),
            word_count: w.word_count,
            duration_seconds: w.duration_seconds,
            written_date: w.written_date.clone(),
            created_at: Some(w.created_at.clone()),
        }
    }

    /// The writing session carrying `id`.  Fails with `NotFound` when none
    /// does.
    pub fn get_writing_by_id(&self, id: i64) -> (r: Result<Writing, AppError>)
        ensures
            match r {
                Ok(w) => self.has_writing(id) && exists|i: int|
                    0 <= i < self.writings@.len() && (#[trigger] self.writings@[i]).id == id
                        && writing_model(w) == writing_row_model(self.writings@[i]),
                Err(e) => !self.has_writing(id) && e is NotFound,
            },
    {
        match self.find_writing(id) {
            Some(i) => Ok(self.writing_at(i)),
            None => Err(AppError::NotFound(String::from_str("writing not found"))),
        }
    }

    /// Record a writing session dated `today`; the created record is
    /// returned.  Fails with `NotFound` when the referenced plan day does
    /// not exist.
    pub fn save_writing(&mut self, req: &SaveWritingRequest, today: &str, now: &str) -> (r: Result<
        Writing,
        AppError,
    >)
        requires
            old(self).wf(),
            old(self).next_writing_id < 0x7fff_ffff_ffff_ffff,
        ensures
            final(self).wf(),
            match r {
                Ok(w) => {
                    &&& (req.plan_day_id matches Some(d) ==> old(self).has_day(d))
                    &&& final(self).writings@.len() == old(self).writings@.len() + 1
                    &&& final(self).writings@.take(old(self).writings@.len() as int) == old(
                        self,
                    ).writings@
                    &&& {
                        let n = final(self).writings@.last();
                        &&& n.id == old(self).next_writing_id
                        &&& n.plan_day_id == req.plan_day_id
                        &&& n.title@ == req.title@
                        &&& n.content@ == req.content@
                        &&& n.word_count == req.word_count
                        &&& n.duration_seconds == req.duration_seconds
                        &&& n.written_date@ == today@
                        &&& n.created_at@ == now@
                    }
                    &&& writing_model(w) == writing_row_model(final(self).writings@.last())
                    &&& final(self).plans@ == old(self).plans@
                    &&& final(self).days@ == old(self).days@
                    &&& final(self).tasks@ == old(self).tasks@
                    &&& final(self).next_writing_id == old(self).next_writing_id + 1
                    &&& final(self).next_plan_id == old(self).next_plan_id
                    &&& final(self).next_day_id == old(self).next_day_id
                    &&& final(self).next_task_id == old(self).next_task_id
                },
                Err(e) => {
                    &&& e is NotFound
                    &&& (req.plan_day_id matches Some(d) && !old(self).has_day(d))
                    &&& *final(self) == *old(self)
                },
            },
    {
        if let Some(d) = req.plan_day_id {
            if self.find_day(d).is_none() {
                return Err(AppError::NotFound(String::from_str("plan day not found")));
            }
        }
        let id = self.next_writing_id;
        self.writings.push(
            WritingRow {
                id,
                plan_day_id: req.plan_day_id,
                title: req.title.clone(),
                content: req.content.clone(),
                word_count: req.word_count,
                duration_seconds: req.duration_seconds,
                written_date: String::from_str(today),
                created_at: String::from_str(now),
            },
        );
        self.next_writing_id = self.next_writing_id + 1;
        proof {
            assert(self.writings@.take(old(self).writings@.len() as int) =~= old(self).writings@);
            lemma_wf_after_save_writing(*old(self), *self);
        }
        let n = self.writings.len() - 1;
        Ok(self.writing_at(n))
    }
}

/// Appending a fresh writing row that references an existing day keeps the
/// store well formed.
proof fn lemma_wf_after_save_writing(prev: Store, cur: Store)
    requires
        prev.wf(),
        prev.next_writing_id < 0x7fff_ffff_ffff_ffff,
        cur.writings@.len() == prev.writings@.len() + 1,
        cur.writings@.take(prev.writings@.len() as int) == prev.writings@,
        cur.writings@.last().id == prev.next_writing_id,
        (cur.writings@.last().plan_day_id matches Some(d) ==> prev.has_day(d)),
        cur.plans@ == prev.plans@,
        cur.days@ == prev.days@,
        cur.tasks@ == prev.tasks@,
        cur.next_writing_id == prev.next_writing_id + 1,
        cur.next_plan_id == prev.next_plan_id,
        cur.next_day_id == prev.next_day_id,
        cur.next_task_id == prev.next_task_id,
    ensures
        cur.wf(),
{
    assert forall|k: int| 0 <= k < prev.writings@.len() implies #[trigger] cur.writings@[k]
        == prev.writings@[k] by {
        assert(cur.writings@.take(prev.writings@.len() as int)[k] == cur.writings@[k]);
    }
    assert forall|i: int, j: int|
        0 <= i < j < cur.writings@.len() implies (#[trigger] cur.writings@[i]).id < (
    #[trigger] cur.writings@[j]).id by {
        if j < prev.writings@.len() {
        } else {
            assert(cur.writings@[j] == cur.writings@.last());
            if i < prev.writings@.len() {
                assert(cur.writings@[i] == prev.writings@[i]);
                assert(prev.writings@[i].id < prev.next_writing_id);
            }
        }
    }
    assert forall|i: int| 0 <= i < cur.writings@.len() implies 0 < (#[trigger] cur.writings@[i]).id
        < cur.next_writing_id by {
        if i < prev.writings@.len() {
            assert(cur.writings@[i] == prev.writings@[i]);
        } else {
            assert(cur.writings@[i] == cur.writings@.last());
        }
    }
    assert forall|i: int| 0 <= i < cur.writings@.len() implies match (
    #[trigger] cur.writings@[i]).plan_day_id {
        Some(d) => cur.has_day(d),
        None => true,
    } by {
        let pd = if i < prev.writings@.len() {
            prev.writings@[i].plan_day_id
        } else {
            cur.writings@.last().plan_day_id
        };
        match cur.writings@[i].plan_day_id {
            Some(d) => {
                assert(prev.has_day(d));
                let k = choose|k: int|
                    0 <= k < prev.days@.len() && (#[trigger] prev.days@[k]).id == d;
                assert(cur.days@[k].id == d);
            },
            None => {},
        }
    }
    assert forall|i: int|
        0 <= i < cur.plans@.len() implies (#[trigger] cur.plans@[i]).total_days as int
            == cur.days_of(cur.plans@[i].id).len() by {
        assert(cur.days_of(cur.plans@[i].id) == prev.days_of(prev.plans@[i].id));
    }
}

} // verus!

verus! {

/// The writing rows a listing filter keeps.
pub open spec fn writing_filter_pred(st: Store, f: WritingFilter) -> spec_fn(WritingRow) -> bool {
    |w: WritingRow| st.writing_matches(w, f)
}

/// Sessions with identical written dates list most recently created first.
pub open spec fn writing_listed_before(a: Writing, b: Writing) -> bool {
    lex_lt(b.written_date@, a.written_date@) || (b.written_date@ == a.written_date@ && match (
    a.id, b.id) {
        (Some(x), Some(y)) => y < x,
        _ => false,
    })
}

impl Store {
    /// A session passes the filter: it belongs to the requested plan (via
    /// its day), and its written date lies in the requested closed range.
    /// An absent filter field means no constraint.
    pub open spec fn writing_matches(self, w: WritingRow, f: WritingFilter) -> bool {
        &&& match f.plan_id {
            Some(pid) => (w.plan_day_id matches Some(d) && self.day_of_plan(d, pid)),
            None => true,
        }
        &&& match f.start_date {
            Some(s) => lex_le(s@, w.written_date@),
            None => true,
        }
        &&& match f.end_date {
            Some(e) => lex_le(w.written_date@, e@),
            None => true,
        }
    }

    /// The sessions passing the filter, ordered by written date descending
    /// and then most recently created first.
    pub fn get_writings(&self, filter: &WritingFilter) -> (r: Vec<Writing>)
        requires
            self.wf(),
        ensures
            r@.len() == self.writings@.filter(writing_filter_pred(*self, *filter)).len(),
            forall|i: int|
                0 <= i < r@.len() ==> exists|k: int|
                    0 <= k < self.writings@.len() && self.writing_matches(
                        #[trigger] self.writings@[k],
                        *filter,
                    ) && writing_model(#[trigger] r@[i]) == writing_row_model(self.writings@[k]),
            forall|k: int|
                (0 <= k < self.writings@.len() && self.writing_matches(
                    #[trigger] self.writings@[k],
                    *filter,
                )) ==> exists|i: int|
                    0 <= i < r@.len() && writing_model(#[trigger] r@[i]) == writing_row_model(
                        self.writings@[k],
                    ),
            forall|i: int, j: int|
                0 <= i < j < r@.len() ==> writing_listed_before(
                    #[trigger] r@[i],
                    #[trigger] r@[j],
                ),
    {
        let ghost pred = writing_filter_pred(*self, *filter);
        // collect the matching rows
        let mut rows: Vec<WritingRow> = Vec::new();
        let mut k: usize = 0;
        proof {
            assert(self.writings@.take(0).filter(pred) =~= Seq::<WritingRow>::empty());
        }
        while k < self.writings.len()
            invariant
                self.wf(),
                0 <= k <= self.writings@.len(),
                pred == writing_filter_pred(*self, *filter),
                rows@ == self.writings@.take(k as int).filter(pred),
            decreases self.writings@.len() - k,
        {
            let w = &self.writings[k];
            let plan_ok = match &filter.plan_id {
                Some(pid) => {
                    match w.plan_day_id {
                        Some(d) => {
                            match self.find_day(d) {
                                Some(di) => {
                                    let hit = self.days[di].plan_id == *pid;
                                    proof {
                                        if !hit && self.day_of_plan(d, *pid) {
                                            let t = choose|t: int|
                                                0 <= t < self.days@.len() && (
                                                #[trigger] self.days@[t]).id == d
                                                    && self.days@[t].plan_id == *pid;
                                            lemma_day_ids_unique(self.days@, t, di as int);
                                        }
                                        if hit {
                                            assert(self.day_of_plan(d, *pid));
                                        }
                                    }
                                    hit
                                },
                                None => {
                                    proof {
                                        if self.day_of_plan(d, *pid) {
                                            assert(self.has_day(d));
                                        }
                                    }
                                    false
                                },
                            }
                        },
                        None => false,
                    }
                },
                None => true,
            };
            let start_ok = match &filter.start_date {
                Some(s) => str_le(s.as_str(), w.written_date.as_str()),
                None => true,
            };
            let end_ok = match &filter.end_date {
                Some(e) => str_le(w.written_date.as_str(), e.as_str()),
                None => true,
            };
            proof {
                lemma_filter_take_step(self.writings@, pred, k as int);
                assert(pred(self.writings@[k as int]) == self.writing_matches(
                    self.writings@[k as int],
                    *filter,
                ));
            }
            if plan_ok && start_ok && end_ok {
                rows.push(
                    WritingRow {
                        id: w.id,
                        plan_day_id: w.plan_day_id,
                        title: w.title.clone(),
                        content: w.content.clone(),
                        word_count: w.word_count,
                        duration_seconds: w.duration_seconds,
                        written_date: w.written_date.clone(),
                        created_at: w.created_at.clone(),
                    },
                );
            }
            k = k + 1;
        }
        proof {
            assert(self.writings@.take(self.writings@.len() as int) =~= self.writings@);
            lemma_filter_writings_increasing(self.writings@, pred);
        }
        let ghost collected = rows@;
        let sorted = sort_rows(rows);
        proof {
            lemma_sorted_writing_ids_distinct(collected, sorted@);
            lemma_filter_subset(self.writings@, pred);
        }
        // hand the rows out as models
        let mut out: Vec<Writing> = Vec::new();
        let mut t: usize = 0;
        while t < sorted.len()
            invariant
                0 <= t <= sorted@.len(),
                out@.len() == t,
                forall|i: int|
                    0 <= i < t ==> writing_model(#[trigger] out@[i]) == writing_row_model(
                        sorted@[i],
                    ),
            decreases sorted@.len() - t,
        {
            let w = &sorted[t];
            out.push(
                Writing {
                    id: Some(w.id),
                    plan_day_id: w.plan_day_id,
                    title: w.title.clone(),
                    content: w.content.clone(),
                    word_count: w.word_count,
                    duration_seconds: w.duration_seconds,
                    written_date: w.written_date.clone(),
                    created_at: Some(w.created_at.clone()),
                },
            );
            t = t + 1;
        }
        proof {
            broadcast use vstd::seq_lib::group_to_multiset_ensures;
            broadcast use vstd::seq_lib::group_filter_ensures;

            let fl = self.writings@.filter(pred);
            // soundness: each listed session is a matching stored row
            assert forall|i: int| 0 <= i < out@.len() implies exists|k2: int|
                0 <= k2 < self.writings@.len() && self.writing_matches(
                    #[trigger] self.writings@[k2],
                    *filter,
                ) && writing_model(#[trigger] out@[i]) == writing_row_model(
                self.writings@[k2],
            ) by {
                assert(sorted@.contains(sorted@[i]));
                assert(sorted@.to_multiset().count(sorted@[i]) > 0);
                assert(fl.to_multiset().count(sorted@[i]) > 0);
                assert(fl.contains(sorted@[i]));
                assert(self.writings@.contains(sorted@[i]));
                let k2 = choose|k2: int|
                    0 <= k2 < self.writings@.len() && self.writings@[k2] == sorted@[i];
                let fi = choose|fi: int| 0 <= fi < fl.len() && fl[fi] == sorted@[i];
                assert(pred(fl[fi]));
                assert(self.writing_matches(self.writings@[k2], *filter));
            }
            // completeness: each matching stored row is listed
            assert forall|k2: int|
                (0 <= k2 < self.writings@.len() && self.writing_matches(
                    #[trigger] self.writings@[k2],
                    *filter,
                )) implies exists|i: int|
                0 <= i < out@.len() && writing_model(#[trigger] out@[i]) == writing_row_model(
                    self.writings@[k2],
                ) by {
                assert(pred(self.writings@[k2]));
                assert(fl.contains(self.writings@[k2]));
                assert(fl.to_multiset().count(self.writings@[k2]) > 0);
                assert(sorted@.to_multiset().count(self.writings@[k2]) > 0);
                assert(sorted@.contains(self.writings@[k2]));
                let i = choose|i: int|
                    0 <= i < sorted@.len() && sorted@[i] == self.writings@[k2];
                assert(writing_model(out@[i]) == writing_row_model(self.writings@[k2]));
            }
            // strict listing order
            assert forall|i: int, j: int|
                0 <= i < j < out@.len() implies writing_listed_before(
                #[trigger] out@[i],
                #[trigger] out@[j],
            ) by {
                assert(sorted@[i].le_spec(&sorted@[j]));
                assert(sorted@[i].id != sorted@[j].id);
            }
        }
        out
    }
}

/// Sorting keeps the session ids pairwise distinct.
proof fn lemma_sorted_writing_ids_distinct(src: Seq<WritingRow>, dst: Seq<WritingRow>)
    requires
        src.to_multiset() == dst.to_multiset(),
        forall|a: int, b: int|
            0 <= a < b < src.len() ==> (#[trigger] src[a]).id < (#[trigger] src[b]).id,
    ensures
        forall|a: int, b: int|
            0 <= a < b < dst.len() ==> (#[trigger] dst[a]).id != (#[trigger] dst[b]).id,
{
    broadcast use vstd::seq_lib::group_to_multiset_ensures;

    assert forall|a: int, b: int|
        0 <= a < b < dst.len() implies (#[trigger] dst[a]).id != (#[trigger] dst[b]).id by {
        if dst[a] == dst[b] {
            lemma_two_indices_count(dst, a, b);
            lemma_count_two_indices(src, dst[a]);
            let (x, y) = choose|x: int, y: int|
                0 <= x < y < src.len() && #[trigger] src[x] == dst[a] && #[trigger] src[y]
                    == dst[a];
            assert(src[x].id < src[y].id);
            assert(false);
        } else {
            if dst[a].id == dst[b].id {
                assert(dst.contains(dst[a]));
                assert(dst.to_multiset().count(dst[a]) > 0);
                assert(src.to_multiset().count(dst[a]) > 0);
                assert(src.contains(dst[a]));
                assert(dst.contains(dst[b]));
                assert(dst.to_multiset().count(dst[b]) > 0);
                assert(src.to_multiset().count(dst[b]) > 0);
                assert(src.contains(dst[b]));
                let x = choose|x: int| 0 <= x < src.len() && src[x] == dst[a];
                let y = choose|y: int| 0 <= y < src.len() && src[y] == dst[b];
                assert(x != y);
                if x < y {
                    assert(src[x].id < src[y].id);
                } else {
                    assert(src[y].id < src[x].id);
                }
                assert(false);
            }
        }
    }
}

} // verus!

verus! {

/// The views of a list of date strings.
pub open spec fn date_views(ds: Seq<String>) -> Seq<Seq<char>> {
    ds.map_values(|s: String| s@)
}

/// The written dates of a list of sessions.
pub open spec fn written_dates(ws: Seq<WritingRow>) -> Seq<Seq<char>> {
    ws.map_values(|w: WritingRow| w.written_date@)
}

/// Later dates strictly precede earlier ones.
pub open spec fn strictly_desc(s: Seq<Seq<char>>) -> bool {
    forall|i: int, j: int| 0 <= i < j < s.len() ==> lex_lt(s[j], s[i])
}

/// `dd` holds exactly the dates on which some session was written.
pub open spec fn same_date_set(dd: Seq<Seq<char>>, ws: Seq<WritingRow>) -> bool {
    forall|v: Seq<char>| #[trigger] dd.contains(v) <==> written_dates(ws).contains(v)
}

/// Number of distinct values in a sequence.
pub open spec fn distinct_count(s: Seq<Seq<char>>) -> int
    decreases s.len(),
{
    if s.len() == 0 {
        0
    } else {
        distinct_count(s.drop_last()) + if s.drop_last().contains(s.last()) {
            0int
        } else {
            1int
        }
    }
}

/// Total word count over sessions.
pub open spec fn sum_words(ws: Seq<WritingRow>) -> int
    decreases ws.len(),
{
    if ws.len() == 0 {
        0
    } else {
        sum_words(ws.drop_last()) + ws.last().word_count as int
    }
}

/// Total duration over sessions.
pub open spec fn sum_duration(ws: Seq<WritingRow>) -> int
    decreases ws.len(),
{
    if ws.len() == 0 {
        0
    } else {
        sum_duration(ws.drop_last()) + ws.last().duration_seconds as int
    }
}

/// State of the streak walk: the running run length, the largest finished
/// run, and the first run's length once a break has fixed it.
#[verifier::ext_equal]
pub ghost struct StreakAcc {
    pub streak: int,
    pub max: int,
    pub current: int,
}

/// One step of the walk, from the previous (more recent) date to the
/// current one.  A gap of exactly one day extends the run; any other
/// distance ends it.  Dates that do not parse leave the walk untouched.
pub open spec fn streak_step(acc: StreakAcc, prev: Seq<char>, cur: Seq<char>) -> StreakAcc {
    match (date_num(prev), date_num(cur)) {
        (Some(p), Some(c)) => if p - c == 1 {
            StreakAcc { streak: acc.streak + 1, max: acc.max, current: acc.current }
        } else {
            StreakAcc {
                streak: 1,
                max: if acc.max >= acc.streak {
                    acc.max
                } else {
                    acc.streak
                },
                current: if acc.current == 0 {
                    acc.streak
                } else {
                    acc.current
                },
            }
        },
        _ => acc,
    }
}

pub open spec fn streak_walk(dates: Seq<Seq<char>>, i: int, acc: StreakAcc) -> StreakAcc
    decreases dates.len() - i,
{
    if i < 1 || i >= dates.len() {
        acc
    } else {
        streak_walk(dates, i + 1, streak_step(acc, dates[i - 1], dates[i]))
    }
}

/// The streak pair over the distinct written dates, most recent first: the
/// first unbroken run's length, and the longest run's length.
pub open spec fn streaks_spec(dates: Seq<Seq<char>>) -> (int, int) {
    if dates.len() == 0 {
        (0, 0)
    } else {
        let acc = streak_walk(dates, 1, StreakAcc { streak: 1, max: 0, current: 0 });
        let cur = if acc.current == 0 {
            acc.streak
        } else {
            acc.current
        };
        let mx = if acc.max >= acc.streak {
            acc.max
        } else {
            acc.streak
        };
        (cur, mx)
    }
}

/// Walk the distinct written dates, most recent first, and report the
/// current and the longest streak of consecutive days.
pub fn calculate_streaks(dates: &Vec<String>) -> (r: (i32, i32))
    requires
        dates@.len() <= 0x7fff_ffff,
    ensures
        r.0 as int == streaks_spec(date_views(dates@)).0,
        r.1 as int == streaks_spec(date_views(dates@)).1,
{
    let n = dates.len();
    if n == 0 {
        return (0, 0);
    }
    let ghost dv = date_views(dates@);
    let ghost init = StreakAcc { streak: 1, max: 0, current: 0 };
    let mut streak: i32 = 1;
    let mut mx: i32 = 0;
    let mut cur: i32 = 0;
    let mut i: usize = 1;
    while i < n
        invariant
            1 <= i <= n,
            n == dates@.len(),
            n <= 0x7fff_ffff,
            dv == date_views(dates@),
            init == (StreakAcc { streak: 1, max: 0, current: 0 }),
            1 <= streak <= i,
            0 <= mx <= n,
            0 <= cur <= n,
            streak_walk(dv, i as int, StreakAcc { streak: streak as int, max: mx as int, current: cur as int })
                == streak_walk(dv, 1, init),
        decreases n - i,
    {
        let ghost acc_before = StreakAcc { streak: streak as int, max: mx as int, current: cur as int };
        let p = parse_date(dates[i - 1].as_str());
        let c = parse_date(dates[i].as_str());
        match (p, c) {
            (Some(pv), Some(cv)) => {
                if pv as i64 - cv as i64 == 1 {
                    streak = streak + 1;
                } else {
                    if cur == 0 {
                        cur = streak;
                    }
                    if streak > mx {
                        mx = streak;
                    }
                    streak = 1;
                }
            },
            _ => {},
        }
        proof {
            assert(dv[i - 1] == dates@[i - 1]@);
            assert(dv[i as int] == dates@[i as int]@);
            assert(StreakAcc { streak: streak as int, max: mx as int, current: cur as int }
                == streak_step(acc_before, dv[i - 1], dv[i as int]));
        }
        i = i + 1;
    }
    if cur == 0 {
        cur = streak;
    }
    if streak > mx {
        mx = streak;
    }
    (cur, mx)
}

/// Two strictly descending date lists with the same members are the same
/// list.
pub proof fn lemma_strict_desc_unique(a: Seq<Seq<char>>, b: Seq<Seq<char>>)
    requires
        strictly_desc(a),
        strictly_desc(b),
        forall|v: Seq<char>| #[trigger] a.contains(v) <==> b.contains(v),
    ensures
        a == b,
    decreases a.len(),
{
    if a.len() == 0 {
        if b.len() > 0 {
            assert(b.contains(b[0]));
            assert(a.contains(b[0]));
            assert(false);
        }
        assert(a =~= b);
    } else {
        assert(a.contains(a[0]));
        assert(b.contains(a[0]));
        if b.len() == 0 {
            assert(false);
        }
        let i = choose|i: int| 0 <= i < b.len() && b[i] == a[0];
        if i > 0 {
            assert(lex_lt(b[i], b[0]));
            assert(b.contains(b[0]));
            assert(a.contains(b[0]));
            let j = choose|j: int| 0 <= j < a.len() && a[j] == b[0];
            if j > 0 {
                assert(lex_lt(a[j], a[0]));
                lemma_lex_lt_trans(a[0], b[0], a[0]);
                lemma_lex_lt_total(a[0], a[0]);
                assert(false);
            } else {
                lemma_lex_lt_total(b[i], b[0]);
                assert(false);
            }
        }
        assert(b[0] == a[0]);
        let at = a.drop_first();
        let bt = b.drop_first();
        assert forall|x: int, y: int| 0 <= x < y < at.len() implies lex_lt(at[y], at[x]) by {
            assert(at[x] == a[x + 1]);
            assert(at[y] == a[y + 1]);
        }
        assert forall|x: int, y: int| 0 <= x < y < bt.len() implies lex_lt(bt[y], bt[x]) by {
            assert(bt[x] == b[x + 1]);
            assert(bt[y] == b[y + 1]);
        }
        assert forall|v: Seq<char>| #[trigger] at.contains(v) <==> bt.contains(v) by {
            if at.contains(v) {
                let x = choose|x: int| 0 <= x < at.len() && at[x] == v;
                assert(a[x + 1] == v);
                assert(lex_lt(v, a[0]));
                lemma_lex_lt_total(v, a[0]);
                assert(a.contains(v));
                assert(b.contains(v));
                let y = choose|y: int| 0 <= y < b.len() && b[y] == v;
                assert(y != 0);
                assert(bt[y - 1] == v);
                assert(bt.contains(bt[y - 1]));
            }
            if bt.contains(v) {
                let x = choose|x: int| 0 <= x < bt.len() && bt[x] == v;
                assert(b[x + 1] == v);
                assert(lex_lt(v, b[0]));
                lemma_lex_lt_total(v, b[0]);
                assert(b.contains(v));
                assert(a.contains(v));
                let y = choose|y: int| 0 <= y < a.len() && a[y] == v;
                assert(y != 0);
                assert(at[y - 1] == v);
                assert(at.contains(at[y - 1]));
            }
        }
        lemma_strict_desc_unique(at, bt);
        assert forall|x: int| 0 <= x < a.len() implies a[x] == b[x] by {
            if x > 0 {
                assert(a[x] == at[x - 1]);
                assert(b[x] == bt[x - 1]);
            }
        }
        assert(a =~= b);
    }
}

} // verus!

verus! {

/// Reverse a list of strings.
fn reverse_strings(v: &Vec<String>) -> (r: Vec<String>)
    ensures
        r@.len() == v@.len(),
        forall|i: int| 0 <= i < r@.len() ==> (#[trigger] r@[i]) == v@[v@.len() - 1 - i],
{
    let mut out: Vec<String> = Vec::new();
    let mut i: usize = v.len();
    while i > 0
        invariant
            0 <= i <= v@.len(),
            out@.len() == v@.len() - i,
            forall|k: int| 0 <= k < out@.len() ==> (#[trigger] out@[k]) == v@[v@.len() - 1 - k],
        decreases i,
    {
        i = i - 1;
        out.push(v[i].clone());
    }
    out
}

/// Whether some entry of `v` reads `s`.
fn contains_str(v: &Vec<String>, s: &str) -> (r: bool)
    ensures
        r == exists|j: int| 0 <= j < v@.len() && (#[trigger] v@[j])@ == s@,
{
    let mut j: usize = 0;
    while j < v.len()
        invariant
            0 <= j <= v@.len(),
            forall|k: int| 0 <= k < j ==> (#[trigger] v@[k])@ != s@,
        decreases v@.len() - j,
    {
        if str_eq(v[j].as_str(), s) {
            return true;
        }
        j = j + 1;
    }
    false
}

/// Sorting keeps string views pairwise distinct.
proof fn lemma_sorted_string_views_distinct(src: Seq<String>, dst: Seq<String>)
    requires
        src.to_multiset() == dst.to_multiset(),
        forall|a: int, b: int|
            0 <= a < b < src.len() ==> (#[trigger] src[a])@ != (#[trigger] src[b])@,
    ensures
        forall|a: int, b: int|
            0 <= a < b < dst.len() ==> (#[trigger] dst[a])@ != (#[trigger] dst[b])@,
{
    broadcast use vstd::seq_lib::group_to_multiset_ensures;

    assert forall|a: int, b: int|
        0 <= a < b < dst.len() implies (#[trigger] dst[a])@ != (#[trigger] dst[b])@ by {
        if dst[a] == dst[b] {
            lemma_two_indices_count(dst, a, b);
            lemma_count_two_indices(src, dst[a]);
            let (x, y) = choose|x: int, y: int|
                0 <= x < y < src.len() && #[trigger] src[x] == dst[a] && #[trigger] src[y]
                    == dst[a];
            assert(src[x]@ != src[y]@);
            assert(false);
        } else {
            if dst[a]@ == dst[b]@ {
                assert(dst.contains(dst[a]));
                assert(dst.to_multiset().count(dst[a]) > 0);
                assert(src.to_multiset().count(dst[a]) > 0);
                assert(src.contains(dst[a]));
                assert(dst.contains(dst[b]));
                assert(dst.to_multiset().count(dst[b]) > 0);
                assert(src.to_multiset().count(dst[b]) > 0);
                assert(src.contains(dst[b]));
                let x = choose|x: int| 0 <= x < src.len() && src[x] == dst[a];
                let y = choose|y: int| 0 <= y < src.len() && src[y] == dst[b];
                assert(x != y);
                if x < y {
                    assert(src[x]@ != src[y]@);
                } else {
                    assert(src[y]@ != src[x]@);
                }
                assert(false);
            }
        }
    }
}

impl Store {
    /// Aggregate statistics over all sessions: the session count, the word
    /// and duration totals, the count of distinct written dates, and the
    /// streak pair computed over those dates in descending order.  Averages
    /// are the totals divided by the session count, zero when there are no
    /// sessions; the division is left to the caller.
    pub fn get_writing_stats(&self) -> (r: WritingStats)
        requires
            self.wf(),
            self.writings@.len() <= 0x7fff_ffff,
        ensures
            r.total_sessions as int == self.writings@.len(),
            r.total_words as int == sum_words(self.writings@),
            r.total_duration as int == sum_duration(self.writings@),
            r.total_days as int == distinct_count(written_dates(self.writings@)),
            forall|dd: Seq<Seq<char>>|
                (strictly_desc(dd) && same_date_set(dd, self.writings@)) ==> {
                    let p = #[trigger] streaks_spec(dd);
                    r.current_streak as int == p.0 && r.max_streak as int == p.1
                },
    {
        let n = self.writings.len();
        let ghost wd = written_dates(self.writings@);
        // the distinct written dates, in first-seen order
        let mut dvec: Vec<String> = Vec::new();
        let mut k: usize = 0;
        proof {
            assert(wd.take(0) =~= Seq::<Seq<char>>::empty());
        }
        while k < n
            invariant
                0 <= k <= n,
                n == self.writings@.len(),
                wd == written_dates(self.writings@),
                wd.len() == n,
                dvec@.len() <= k,
                forall|a: int, b: int|
                    0 <= a < b < dvec@.len() ==> (#[trigger] dvec@[a])@ != (#[trigger] dvec@[b])@,
                forall|j: int| 0 <= j < dvec@.len() ==> wd.take(k as int).contains((#[trigger] dvec@[j])@),
                forall|t: int|
                    0 <= t < k ==> exists|j: int|
                        0 <= j < dvec@.len() && (#[trigger] dvec@[j])@ == #[trigger] wd[t],
                dvec@.len() as int == distinct_count(wd.take(k as int)),
            decreases n - k,
        {
            let date = &self.writings[k].written_date;
            let seen = contains_str(&dvec, date.as_str());
            proof {
                assert(wd[k as int] == self.writings@[k as int].written_date@);
                assert(wd.take(k + 1).drop_last() =~= wd.take(k as int));
                assert(wd.take(k + 1).last() == wd[k as int]);
                if seen {
                    let j = choose|j: int| 0 <= j < dvec@.len() && (#[trigger] dvec@[j])@ == date@;
                    assert(wd.take(k as int).contains(dvec@[j]@));
                } else {
                    if wd.take(k as int).contains(wd[k as int]) {
                        let t = choose|t: int|
                            0 <= t < k && #[trigger] wd.take(k as int)[t] == wd[k as int];
                        assert(wd[t] == wd[k as int]);
                        assert(exists|j: int|
                            0 <= j < dvec@.len() && (#[trigger] dvec@[j])@ == wd[t]);
                        assert(false);
                    }
                }
            }
            if !seen {
                let ghost pre = dvec@;
                dvec.push(date.clone());
                proof {
                    assert(dvec@ == pre.push(dvec@.last()));
                    assert forall|t: int| 0 <= t < k + 1 implies exists|j: int|
                        0 <= j < dvec@.len() && (#[trigger] dvec@[j])@ == #[trigger] wd[t] by {
                        if t < k {
                            let j = choose|j: int|
                                0 <= j < pre.len() && (#[trigger] pre[j])@ == wd[t];
                            assert(dvec@[j] == pre[j]);
                            assert(dvec@[j]@ == wd[t]);
                        } else {
                            assert(dvec@[dvec@.len() - 1]@ == wd[t]);
                        }
                    }
                    assert forall|j: int|
                        0 <= j < dvec@.len() implies wd.take(k + 1).contains(
                        (#[trigger] dvec@[j])@,
                    ) by {
                        if j < dvec@.len() - 1 {
                            assert(dvec@[j] == pre[j]);
                            assert(wd.take(k as int).contains(pre[j]@));
                            let t = choose|t: int|
                                0 <= t < k && #[trigger] wd.take(k as int)[t] == pre[j]@;
                            assert(wd.take(k + 1)[t] == dvec@[j]@);
                        } else {
                            assert(wd.take(k + 1)[k as int] == dvec@[j]@);
                        }
                    }
                }
            } else {
                proof {
                    assert forall|j: int|
                        0 <= j < dvec@.len() implies wd.take(k + 1).contains(
                        (#[trigger] dvec@[j])@,
                    ) by {
                        assert(wd.take(k as int).contains(dvec@[j]@));
                        let t = choose|t: int|
                            0 <= t < k && #[trigger] wd.take(k as int)[t] == dvec@[j]@;
                        assert(wd.take(k + 1)[t] == dvec@[j]@);
                    }
                }
            }
            k = k + 1;
        }
        proof {
            assert(wd.take(n as int) =~= wd);
        }
        // order them most recent first
        let ghost collected = dvec@;
        let sorted = sort_rows(dvec);
        let desc = reverse_strings(&sorted);
        proof {
            lemma_sorted_string_views_distinct(collected, sorted@);
            broadcast use vstd::seq_lib::group_to_multiset_ensures;

            // strictly descending
            assert forall|x: int, y: int|
                0 <= x < y < date_views(desc@).len() implies lex_lt(
                date_views(desc@)[y],
                date_views(desc@)[x],
            ) by {
                let lx = sorted@.len() - 1 - x;
                let ly = sorted@.len() - 1 - y;
                assert(desc@[x] == sorted@[lx]);
                assert(desc@[y] == sorted@[ly]);
                assert(sorted@[ly].le_spec(&sorted@[lx]));
                assert(sorted@[ly]@ != sorted@[lx]@);
                assert(date_views(desc@)[x] == desc@[x]@);
                assert(date_views(desc@)[y] == desc@[y]@);
            }
            // same membership as the written dates
            assert forall|v: Seq<char>| #[trigger] date_views(desc@).contains(v) implies
                wd.contains(v) by {
                let x = choose|x: int|
                    0 <= x < desc@.len() && #[trigger] date_views(desc@)[x] == v;
                assert(desc@[x]@ == v);
                let lx = sorted@.len() - 1 - x;
                assert(desc@[x] == sorted@[lx]);
                assert(sorted@.contains(sorted@[lx]));
                assert(sorted@.to_multiset().count(sorted@[lx]) > 0);
                assert(collected.to_multiset().count(sorted@[lx]) > 0);
                assert(collected.contains(sorted@[lx]));
                let j = choose|j: int| 0 <= j < collected.len() && collected[j] == sorted@[lx];
                assert(wd.contains(collected[j]@));
            }
            assert forall|v: Seq<char>| wd.contains(v) implies #[trigger] date_views(
                desc@,
            ).contains(v) by {
                let t = choose|t: int| 0 <= t < wd.len() && wd[t] == v;
                let j = choose|j: int| 0 <= j < collected.len() && (#[trigger] collected[j])@ == wd[t];
                assert(collected.contains(collected[j]));
                assert(collected.to_multiset().count(collected[j]) > 0);
                assert(sorted@.to_multiset().count(collected[j]) > 0);
                assert(sorted@.contains(collected[j]));
                let lx = choose|lx: int| 0 <= lx < sorted@.len() && sorted@[lx] == collected[j];
                let x = sorted@.len() - 1 - lx;
                assert(desc@[x] == sorted@[lx]);
                assert(date_views(desc@)[x] == v);
            }
        }
        let (cur, mx) = calculate_streaks(&desc);
        // totals
        let mut words: i64 = 0;
        let mut dur: i64 = 0;
        let mut t: usize = 0;
        while t < n
            invariant
                0 <= t <= n,
                n == self.writings@.len(),
                n <= 0x7fff_ffff,
                words as int == sum_words(self.writings@.take(t as int)),
                dur as int == sum_duration(self.writings@.take(t as int)),
                -0x8000_0000i64 * (t as i64) <= words <= 0x8000_0000i64 * (t as i64),
                -0x8000_0000i64 * (t as i64) <= dur <= 0x8000_0000i64 * (t as i64),
            decreases n - t,
        {
            proof {
                assert(self.writings@.take(t + 1).drop_last() =~= self.writings@.take(t as int));
                assert(self.writings@.take(t + 1).last() == self.writings@[t as int]);
            }
            words = words + (self.writings[t].word_count as i64);
            dur = dur + (self.writings[t].duration_seconds as i64);
            t = t + 1;
        }
        proof {
            assert(self.writings@.take(n as int) =~= self.writings@);
        }
        let total_days = desc.len() as i32;
        let stats = WritingStats {
            total_days,
            total_words: words,
            total_duration: dur,
            current_streak: cur,
            max_streak: mx,
            total_sessions: n as i64,
        };
        proof {
            assert(desc@.len() == collected.len());
            assert forall|dd: Seq<Seq<char>>|
                (strictly_desc(dd) && same_date_set(dd, self.writings@)) implies {
                let p = #[trigger] streaks_spec(dd);
                stats.current_streak as int == p.0 && stats.max_streak as int == p.1
            } by {
                assert forall|v: Seq<char>| #[trigger] dd.contains(v) <==> date_views(
                    desc@,
                ).contains(v) by {
                    assert(dd.contains(v) <==> written_dates(self.writings@).contains(v));
                }
                lemma_strict_desc_unique(dd, date_views(desc@));
            }
        }
        stats
    }
}

} // verus!

verus! {

/// The first date of the trailing 365-day heatmap window ending today;
/// `None` when today does not parse or the cutoff is unrepresentable.
pub open spec fn heatmap_cutoff(today: Seq<char>) -> Option<Seq<char>> {
    match date_num(today) {
        None => None,
        Some(n) => if i32::MIN <= n - 365 <= i32::MAX {
            date_str(n - 365)
        } else {
            None
        },
    }
}

/// The sessions written on `d`, no earlier than `cut`.
pub open spec fn heat_pred(cut: Seq<char>, d: Seq<char>) -> spec_fn(WritingRow) -> bool {
    |w: WritingRow| w.written_date@ == d && lex_le(cut, w.written_date@)
}

/// The sessions written no earlier than `cut`.
pub open spec fn in_window(cut: Seq<char>) -> spec_fn(WritingRow) -> bool {
    |w: WritingRow| lex_le(cut, w.written_date@)
}

/// The window start, or the empty string when there is none.
pub open spec fn cutoff_or_empty(today: Seq<char>) -> Seq<char> {
    match heatmap_cutoff(today) {
        Some(c) => c,
        None => Seq::empty(),
    }
}

/// The dates of a heatmap listing.
pub open spec fn entry_dates(v: Seq<HeatmapEntry>) -> Seq<Seq<char>> {
    v.map_values(|e: HeatmapEntry| e.date@)
}

impl Store {
    /// The distinct written dates no earlier than `cut`, in first-seen
    /// order.
    fn window_dates(&self, cut: &str) -> (r: Vec<String>)
        ensures
            forall|a: int, b: int|
                0 <= a < b < r@.len() ==> (#[trigger] r@[a])@ != (#[trigger] r@[b])@,
            forall|j: int| 0 <= j < r@.len() ==> lex_le(cut@, (#[trigger] r@[j])@),
            forall|j: int|
                0 <= j < r@.len() ==> written_dates(self.writings@).contains((#[trigger] r@[j])@),
            forall|t: int|
                (0 <= t < self.writings@.len() && lex_le(
                    cut@,
                    (#[trigger] self.writings@[t]).written_date@,
                )) ==> date_views(r@).contains(self.writings@[t].written_date@),
    {
        let n = self.writings.len();
        let mut dvec: Vec<String> = Vec::new();
        let mut k: usize = 0;
        while k < n
            invariant
                0 <= k <= n,
                n == self.writings@.len(),
                forall|a: int, b: int|
                    0 <= a < b < dvec@.len() ==> (#[trigger] dvec@[a])@ != (#[trigger] dvec@[b])@,
                forall|j: int| 0 <= j < dvec@.len() ==> lex_le(cut@, (#[trigger] dvec@[j])@),
                forall|j: int|
                    0 <= j < dvec@.len() ==> written_dates(self.writings@).contains(
                        (#[trigger] dvec@[j])@,
                    ),
                forall|t: int|
                    (0 <= t < k && lex_le(cut@, (#[trigger] self.writings@[t]).written_date@))
                        ==> date_views(dvec@).contains(self.writings@[t].written_date@),
            decreases n - k,
        {
            let date = &self.writings[k].written_date;
            if str_le(cut, date.as_str()) {
                let seen = contains_str(&dvec, date.as_str());
                if !seen {
                    let ghost pre = dvec@;
                    dvec.push(date.clone());
                    proof {
                        let dvs = date_views(dvec@);
                        assert(dvs[dvs.len() - 1] == self.writings@[k as int].written_date@);
                        assert(written_dates(self.writings@)[k as int]
                            == self.writings@[k as int].written_date@);
                        assert forall|j: int| 0 <= j < dvec@.len() implies lex_le(
                            cut@,
                            (#[trigger] dvec@[j])@,
                        ) && written_dates(self.writings@).contains((#[trigger] dvec@[j])@) by {
                            if j < pre.len() {
                                assert(dvec@[j] == pre[j]);
                            }
                        }
                        assert forall|t: int|
                            (0 <= t < k + 1 && lex_le(
                                cut@,
                                (#[trigger] self.writings@[t]).written_date@,
                            )) implies date_views(dvec@).contains(
                            self.writings@[t].written_date@,
                        ) by {
                            if t < k {
                                let x = choose|x: int|
                                    0 <= x < pre.len() && #[trigger] date_views(pre)[x]
                                        == self.writings@[t].written_date@;
                                assert(date_views(dvec@)[x] == self.writings@[t].written_date@);
                            } else {
                                assert(date_views(dvec@)[dvs.len() - 1]
                                    == self.writings@[t].written_date@);
                            }
                        }
                    }
                } else {
                    proof {
                        let x = choose|x: int|
                            0 <= x < dvec@.len() && (#[trigger] dvec@[x])@ == self.writings@[
                                k as int
                            ].written_date@;
                        assert(date_views(dvec@)[x] == self.writings@[k as int].written_date@);
                        assert(date_views(dvec@).contains(
                            self.writings@[k as int].written_date@,
                        ));
                    }
                }
            }
            k = k + 1;
        }
        dvec
    }

    /// The word total and session count of one date inside the window.
    fn day_totals(&self, cut: &str, date: &str) -> (r: (i64, usize))
        requires
            self.writings@.len() <= 0x7fff_ffff,
        ensures
            r.0 as int == sum_words(self.writings@.filter(heat_pred(cut@, date@))),
            r.1 == self.writings@.filter(heat_pred(cut@, date@)).len(),
            r.1 <= self.writings@.len(),
    {
        let ghost hp = heat_pred(cut@, date@);
        let n = self.writings.len();
        let mut wsum: i64 = 0;
        let mut wcount: usize = 0;
        let mut k2: usize = 0;
        proof {
            assert(self.writings@.take(0).filter(hp) =~= Seq::<WritingRow>::empty());
        }
        while k2 < n
            invariant
                0 <= k2 <= n,
                n == self.writings@.len(),
                n <= 0x7fff_ffff,
                hp == heat_pred(cut@, date@),
                wsum as int == sum_words(self.writings@.take(k2 as int).filter(hp)),
                wcount == self.writings@.take(k2 as int).filter(hp).len(),
                wcount <= k2,
                -0x8000_0000i64 * (k2 as i64) <= wsum <= 0x8000_0000i64 * (k2 as i64),
            decreases n - k2,
        {
            let w = &self.writings[k2];
            let hit = str_eq(w.written_date.as_str(), date) && str_le(
                cut,
                w.written_date.as_str(),
            );
            proof {
                lemma_filter_take_step(self.writings@, hp, k2 as int);
                assert(hp(self.writings@[k2 as int]) == (self.writings@[k2 as int].written_date@
                    == date@ && lex_le(cut@, self.writings@[k2 as int].written_date@)));
                if hit {
                    let fl = self.writings@.take(k2 as int).filter(hp);
                    assert(self.writings@.take(k2 + 1).filter(hp) == fl.push(
                        self.writings@[k2 as int],
                    ));
                    assert(fl.push(self.writings@[k2 as int]).drop_last() =~= fl);
                }
            }
            if hit {
                wsum = wsum + (w.word_count as i64);
                wcount = wcount + 1;
            }
            k2 = k2 + 1;
        }
        proof {
            assert(self.writings@.take(n as int) =~= self.writings@);
        }
        (wsum, wcount)
    }

    /// Per-date word and session totals over the trailing 365 days,
    /// ascending by date.  Fails when `today` is not a valid date, the
    /// window start cannot be represented, or a day's word total cannot.
    pub fn get_heatmap_data(&self, today: &str) -> (r: Result<Vec<HeatmapEntry>, AppError>)
        requires
            self.wf(),
            self.writings@.len() <= 0x7fff_ffff,
        ensures
            match r {
                Ok(v) => heatmap_cutoff(today@) matches Some(cut) && {
                    &&& forall|i: int, j: int|
                        0 <= i < j < v@.len() ==> lex_lt(
                            (#[trigger] v@[i]).date@,
                            (#[trigger] v@[j]).date@,
                        )
                    &&& forall|i: int| 0 <= i < v@.len() ==> lex_le(cut, (#[trigger] v@[i]).date@)
                    &&& forall|i: int|
                        0 <= i < v@.len() ==> written_dates(self.writings@).contains(
                            (#[trigger] v@[i]).date@,
                        )
                    &&& forall|i: int|
                        0 <= i < v@.len() ==> (#[trigger] v@[i]).word_count as int == sum_words(
                            self.writings@.filter(heat_pred(cut, v@[i].date@)),
                        )
                    &&& forall|i: int|
                        0 <= i < v@.len() ==> (#[trigger] v@[i]).count as int
                            == self.writings@.filter(heat_pred(cut, v@[i].date@)).len()
                    &&& forall|k: int|
                        (0 <= k < self.writings@.len() && lex_le(
                            cut,
                            (#[trigger] self.writings@[k]).written_date@,
                        )) ==> entry_dates(v@).contains(self.writings@[k].written_date@)
                },
                Err(e) => e is Business && (heatmap_cutoff(today@) is None || exists|d: Seq<char>|
                    {
                        let s = #[trigger] sum_words(
                            self.writings@.filter(heat_pred(cutoff_or_empty(today@), d)),
                        );
                        s > 0x7fff_ffff || s < -0x8000_0000
                    }),
            },
    {
        let tn = match parse_date(today) {
            None => {
                return Err(AppError::Business(String::from_str("invalid date format")));
            },
            Some(v) => v,
        };
        let c64: i64 = tn as i64 - 365;
        if c64 < i32::MIN as i64 || c64 > i32::MAX as i64 {
            return Err(AppError::Business(String::from_str("window start out of range")));
        }
        let cut = match format_date(c64 as i32) {
            None => {
                return Err(AppError::Business(String::from_str("window start out of range")));
            },
            Some(s) => s,
        };
        let ghost cutv = cut@;
        let dvec = self.window_dates(cut.as_str());
        let ghost collected = dvec@;
        let sorted = sort_rows(dvec);
        proof {
            lemma_sorted_string_views_distinct(collected, sorted@);
            broadcast use vstd::seq_lib::group_to_multiset_ensures;

            // membership carries over the sort, both ways
            assert forall|j: int| 0 <= j < sorted@.len() implies lex_le(
                cutv,
                (#[trigger] sorted@[j])@,
            ) && written_dates(self.writings@).contains((#[trigger] sorted@[j])@) by {
                assert(sorted@.contains(sorted@[j]));
                assert(sorted@.to_multiset().count(sorted@[j]) > 0);
                assert(collected.to_multiset().count(sorted@[j]) > 0);
                assert(collected.contains(sorted@[j]));
                let x = choose|x: int| 0 <= x < collected.len() && collected[x] == sorted@[j];
                assert(lex_le(cutv, collected[x]@));
            }
            assert forall|v0: Seq<char>| #[trigger] date_views(collected).contains(v0) implies
                date_views(sorted@).contains(v0) by {
                let x = choose|x: int|
                    0 <= x < collected.len() && #[trigger] date_views(collected)[x] == v0;
                assert(collected.contains(collected[x]));
                assert(collected.to_multiset().count(collected[x]) > 0);
                assert(sorted@.to_multiset().count(collected[x]) > 0);
                assert(sorted@.contains(collected[x]));
                let y = choose|y: int| 0 <= y < sorted@.len() && sorted@[y] == collected[x];
                assert(date_views(sorted@)[y] == v0);
            }
        }
        let m = sorted.len();
        let mut out: Vec<HeatmapEntry> = Vec::new();
        let mut t: usize = 0;
        while t < m
            invariant
                self.wf(),
                self.writings@.len() <= 0x7fff_ffff,
                0 <= t <= m,
                m == sorted@.len(),
                cutv == cut@,
                heatmap_cutoff(today@) == Some(cutv),
                out@.len() == t,
                sorted_le(sorted@),
                forall|a: int, b: int|
                    0 <= a < b < sorted@.len() ==> (#[trigger] sorted@[a])@ != (
                    #[trigger] sorted@[b])@,
                forall|j: int| 0 <= j < sorted@.len() ==> lex_le(cutv, (#[trigger] sorted@[j])@),
                forall|j: int|
                    0 <= j < sorted@.len() ==> written_dates(self.writings@).contains(
                        (#[trigger] sorted@[j])@,
                    ),
                forall|i: int| 0 <= i < t ==> (#[trigger] out@[i]).date == sorted@[i],
                forall|i: int|
                    0 <= i < t ==> (#[trigger] out@[i]).word_count as int == sum_words(
                        self.writings@.filter(heat_pred(cutv, out@[i].date@)),
                    ),
                forall|i: int|
                    0 <= i < t ==> (#[trigger] out@[i]).count as int == self.writings@.filter(
                        heat_pred(cutv, out@[i].date@),
                    ).len(),
            decreases m - t,
        {
            let date = &sorted[t];
            let (wsum, wcount) = self.day_totals(cut.as_str(), date.as_str());
            if wsum > i32::MAX as i64 || wsum < i32::MIN as i64 {
                proof {
                    assert(heatmap_cutoff(today@) == Some(cutv));
                    assert(cutoff_or_empty(today@) == cutv);
                    let s0 = sum_words(
                        self.writings@.filter(heat_pred(cutoff_or_empty(today@), sorted@[t as int]@)),
                    );
                    assert(s0 > 0x7fff_ffff || s0 < -0x8000_0000);
                }
                return Err(AppError::Business(String::from_str("word total out of range")));
            }
            let entry = HeatmapEntry {
                date: date.clone(),
                word_count: wsum as i32,
                count: wcount as i32,
            };
            out.push(entry);
            t = t + 1;
        }
        proof {
            assert forall|i: int, j: int|
                0 <= i < j < out@.len() implies lex_lt(
                (#[trigger] out@[i]).date@,
                (#[trigger] out@[j]).date@,
            ) by {
                assert(sorted@[i].le_spec(&sorted@[j]));
                assert(sorted@[i]@ != sorted@[j]@);
                assert(out@[i].date == sorted@[i]);
                assert(out@[j].date == sorted@[j]);
            }
            assert forall|k3: int|
                (0 <= k3 < self.writings@.len() && lex_le(
                    cutv,
                    (#[trigger] self.writings@[k3]).written_date@,
                )) implies entry_dates(out@).contains(self.writings@[k3].written_date@) by {
                assert(date_views(collected).contains(self.writings@[k3].written_date@));
                assert(date_views(sorted@).contains(self.writings@[k3].written_date@));
                let y = choose|y: int|
                    0 <= y < sorted@.len() && #[trigger] date_views(sorted@)[y]
                        == self.writings@[k3].written_date@;
                assert(entry_dates(out@)[y] == sorted@[y]@);
            }
        }
        Ok(out)
    }
}

} // verus!
