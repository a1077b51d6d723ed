use writedo::errors::AppError;
use writedo::models::{ImportPlanDayItem, ImportPlanRequest, SaveWritingRequest, WritingFilter};
use writedo::store::Store;

fn save(st: &mut Store, day: Option<i64>, title: &str, words: i32, date: &str) -> i64 {
    let w = st.save_writing(
        &SaveWritingRequest {
            plan_day_id: day,
            title: title.to_string(),
            content: format!("content of {}", title),
            word_count: words,
            duration_seconds: 60,
        },
        date,
        date,
    ).unwrap();
    w.id.unwrap()
}

#[test]
fn save_and_fetch_writing() {
    let mut st = Store::new();
    let id = save(&mut st, None, "free", 42, "2024-01-01");
    let w = st.get_writing_by_id(id).unwrap();
    assert_eq!(w.title, "free");
    assert_eq!(w.word_count, 42);
    assert_eq!(w.duration_seconds, 60);
    assert_eq!(w.written_date, "2024-01-01");
    assert_eq!(w.plan_day_id, None);
    assert!(matches!(st.get_writing_by_id(999), Err(AppError::NotFound(_))));
}

#[test]
fn save_rejects_unknown_day() {
    let mut st = Store::new();
    let r = st.save_writing(
        &SaveWritingRequest {
            plan_day_id: Some(5),
            title: "t".to_string(),
            content: "c".to_string(),
            word_count: 1,
            duration_seconds: 1,
        },
        "2024-01-01",
        "t0",
    );
    assert!(matches!(r, Err(AppError::NotFound(_))));
}

#[test]
fn listing_orders_by_date_then_recency() {
    let mut st = Store::new();
    let a = save(&mut st, None, "oldest", 1, "2024-01-01");
    let b = save(&mut st, None, "mid", 1, "2024-01-02");
    let c = save(&mut st, None, "same-day-later", 1, "2024-01-02");
    let list = st.get_writings(
        &WritingFilter { start_date: None, end_date: None, plan_id: None },
    );
    assert_eq!(list.len(), 3);
    assert_eq!(list[0].id, Some(c));
    assert_eq!(list[1].id, Some(b));
    assert_eq!(list[2].id, Some(a));
}

#[test]
fn listing_filters_by_date_range() {
    let mut st = Store::new();
    save(&mut st, None, "w1", 1, "2024-01-01");
    let b = save(&mut st, None, "w2", 1, "2024-01-05");
    save(&mut st, None, "w3", 1, "2024-01-09");
    let list = st.get_writings(
        &WritingFilter {
            start_date: Some("2024-01-02".to_string()),
            end_date: Some("2024-01-08".to_string()),
            plan_id: None,
        },
    );
    assert_eq!(list.len(), 1);
    assert_eq!(list[0].id, Some(b));
}

#[test]
fn listing_filters_by_plan() {
    let mut st = Store::new();
    let plan = ImportPlanRequest {
        name: "P".to_string(),
        theme: None,
        start_date: "2024-01-01".to_string(),
        days: vec![ImportPlanDayItem {
            day: 1,
            title: "A".to_string(),
            prompt: "p".to_string(),
        }],
    };
    let pid = st.create_plan(&plan, "t0").unwrap();
    let day_id = st.get_plan_with_days(pid).unwrap().days[0].id;
    let tied = save(&mut st, Some(day_id), "tied", 1, "2024-01-01");
    save(&mut st, None, "free", 1, "2024-01-01");
    let list = st.get_writings(
        &WritingFilter { start_date: None, end_date: None, plan_id: Some(pid) },
    );
    assert_eq!(list.len(), 1);
    assert_eq!(list[0].id, Some(tied));
    let none = st.get_writings(
        &WritingFilter { start_date: None, end_date: None, plan_id: Some(pid + 1) },
    );
    assert!(none.is_empty());
}

#[test]
fn stats_on_empty_store_are_all_zero() {
    let st = Store::new();
    let s = st.get_writing_stats();
    assert_eq!(s.total_days, 0);
    assert_eq!(s.total_words, 0);
    assert_eq!(s.total_duration, 0);
    assert_eq!(s.total_sessions, 0);
    assert_eq!(s.current_streak, 0);
    assert_eq!(s.max_streak, 0);
}

#[test]
fn streaks_three_consecutive_days() {
    let mut st = Store::new();
    save(&mut st, None, "a", 10, "2024-01-01");
    save(&mut st, None, "b", 20, "2024-01-02");
    save(&mut st, None, "c", 30, "2024-01-03");
    let s = st.get_writing_stats();
    assert_eq!(s.current_streak, 3);
    assert_eq!(s.max_streak, 3);
    assert_eq!(s.total_days, 3);
    assert_eq!(s.total_words, 60);
    assert_eq!(s.total_duration, 180);
    assert_eq!(s.total_sessions, 3);
}

#[test]
fn streaks_with_gap() {
    let mut st = Store::new();
    save(&mut st, None, "a", 1, "2024-01-01");
    save(&mut st, None, "b", 1, "2024-01-05");
    let s = st.get_writing_stats();
    assert_eq!(s.current_streak, 1);
    assert_eq!(s.max_streak, 1);
    assert_eq!(s.total_days, 2);
}

#[test]
fn streaks_run_after_gap() {
    let mut st = Store::new();
    save(&mut st, None, "a", 1, "2024-01-01");
    save(&mut st, None, "b", 1, "2024-01-02");
    save(&mut st, None, "c", 1, "2024-01-03");
    save(&mut st, None, "d", 1, "2024-01-07");
    let s = st.get_writing_stats();
    // the first run from the most recent date has one day; the older run of
    // three is the longest
    assert_eq!(s.current_streak, 1);
    assert_eq!(s.max_streak, 3);
}

#[test]
fn stats_count_distinct_days_once() {
    let mut st = Store::new();
    save(&mut st, None, "a", 5, "2024-01-01");
    save(&mut st, None, "b", 7, "2024-01-01");
    let s = st.get_writing_stats();
    assert_eq!(s.total_days, 1);
    assert_eq!(s.total_sessions, 2);
    assert_eq!(s.total_words, 12);
    assert_eq!(s.current_streak, 1);
    assert_eq!(s.max_streak, 1);
}

#[test]
fn heatmap_groups_by_date_ascending() {
    let mut st = Store::new();
    save(&mut st, None, "a", 10, "2024-01-02");
    save(&mut st, None, "b", 5, "2024-01-01");
    save(&mut st, None, "c", 20, "2024-01-02");
    let entries = st.get_heatmap_data("2024-01-03").unwrap();
    assert_eq!(entries.len(), 2);
    assert_eq!(entries[0].date, "2024-01-01");
    assert_eq!(entries[0].word_count, 5);
    assert_eq!(entries[0].count, 1);
    assert_eq!(entries[1].date, "2024-01-02");
    assert_eq!(entries[1].word_count, 30);
    assert_eq!(entries[1].count, 2);
}

#[test]
fn heatmap_drops_entries_before_window() {
    let mut st = Store::new();
    save(&mut st, None, "old", 10, "2020-01-01");
    save(&mut st, None, "new", 10, "2024-01-01");
    let entries = st.get_heatmap_data("2024-01-02").unwrap();
    assert_eq!(entries.len(), 1);
    assert_eq!(entries[0].date, "2024-01-01");
}

#[test]
fn heatmap_rejects_bad_today() {
    let st = Store::new();
    assert!(matches!(st.get_heatmap_data("garbage"), Err(AppError::Business(_))));
}
