use writedo::errors::AppError;
use writedo::models::{CreateTaskRequest, Priority, RepeatType, UpdateTaskRequest, PlanStatus};
use writedo::models::{default_difficulty, default_priority, default_status};
use writedo::store::Store;

fn task(title: &str, priority: Priority, due: Option<&str>) -> CreateTaskRequest {
    CreateTaskRequest {
        title: title.to_string(),
        description: None,
        priority,
        due_date: due.map(|s| s.to_string()),
        repeat: None,
    }
}

#[test]
fn enum_text_round_trips() {
    assert_eq!(PlanStatus::Active.as_str(), "active");
    assert_eq!(PlanStatus::Paused.as_str(), "paused");
    assert_eq!(PlanStatus::Completed.as_str(), "completed");
    assert_eq!(PlanStatus::from_str("PAUSED"), PlanStatus::Paused);
    assert_eq!(PlanStatus::from_str("completed"), PlanStatus::Completed);
    assert_eq!(PlanStatus::from_str("unknown"), PlanStatus::Active);
    assert_eq!(Priority::from_str("HIGH"), Priority::High);
    assert_eq!(Priority::from_str("medium"), Priority::Medium);
    assert_eq!(Priority::from_str("whatever"), Priority::Low);
    assert_eq!(Priority::High.as_str(), "high");
    assert_eq!(RepeatType::from_str("Daily"), Some(RepeatType::Daily));
    assert_eq!(RepeatType::from_str("weekly"), Some(RepeatType::Weekly));
    assert_eq!(RepeatType::from_str("monthly"), Some(RepeatType::Monthly));
    assert_eq!(RepeatType::from_str("never"), None);
    assert_eq!(RepeatType::Monthly.as_str(), "monthly");
}

#[test]
fn defaults() {
    assert_eq!(default_status(), PlanStatus::Active);
    assert_eq!(default_priority(), Priority::Medium);
    assert_eq!(default_difficulty(), "beginner");
}

#[test]
fn create_and_fetch_task() {
    let mut st = Store::new();
    let t = st.create_task(&task("write", Priority::High, Some("2024-01-01")), "t0");
    let id = t.id.unwrap();
    assert_eq!(t.title, "write");
    assert!(!t.completed);
    assert_eq!(t.due_date.as_deref(), Some("2024-01-01"));
    let got = st.get_task_by_id(id).unwrap();
    assert_eq!(got.title, "write");
    assert!(matches!(st.get_task_by_id(id + 1), Err(AppError::NotFound(_))));
}

#[test]
fn due_date_text_is_kept_as_stored() {
    let mut st = Store::new();
    let t = st.create_task(&task("x", Priority::Low, Some("soon")), "t0");
    assert_eq!(t.due_date.as_deref(), Some("soon"));
}

#[test]
fn all_tasks_order_open_due_priority() {
    let mut st = Store::new();
    let done = st.create_task(&task("done", Priority::High, None), "t0").id.unwrap();
    let late = st.create_task(&task("late", Priority::Low, Some("2024-02-01")), "t1").id.unwrap();
    let soon_low = st.create_task(&task("soon-low", Priority::Low, Some("2024-01-01")), "t2")
        .id.unwrap();
    let soon_med = st.create_task(&task("soon-med", Priority::Medium, Some("2024-01-01")), "t3")
        .id.unwrap();
    let undated = st.create_task(&task("undated", Priority::High, None), "t4").id.unwrap();
    st.toggle_task(done, "t5").unwrap();
    let all = st.get_all_tasks();
    let ids: Vec<i64> = all.iter().map(|t| t.id.unwrap()).collect();
    // open first; among open: no due date first, then earlier dates; on the
    // same date the priority text orders descending (medium before low);
    // completed tasks come last
    assert_eq!(ids, vec![undated, soon_med, soon_low, late, done]);
}

#[test]
fn today_tasks_filter_and_order() {
    let mut st = Store::new();
    let today_low = st.create_task(&task("today-low", Priority::Low, Some("2024-01-05")), "t0")
        .id.unwrap();
    let other_day = st.create_task(&task("tomorrow", Priority::High, Some("2024-01-06")), "t1")
        .id.unwrap();
    let undated = st.create_task(&task("undated", Priority::Medium, None), "t2").id.unwrap();
    let list = st.get_today_tasks("2024-01-05");
    let ids: Vec<i64> = list.iter().map(|t| t.id.unwrap()).collect();
    // due today or unset; medium's text sorts before low's
    assert_eq!(ids, vec![undated, today_low]);
    assert!(!ids.contains(&other_day));
}

#[test]
fn update_task_partial_and_timestamps() {
    let mut st = Store::new();
    let id = st.create_task(&task("t", Priority::Low, None), "t0").id.unwrap();
    let updated = st.update_task(
        &UpdateTaskRequest {
            id,
            title: Some("t2".to_string()),
            description: Some("d".to_string()),
            priority: Some(Priority::High),
            due_date: Some("2024-03-01".to_string()),
            repeat: Some(RepeatType::Weekly),
            completed: Some(true),
        },
        "t9",
    ).unwrap();
    assert_eq!(updated.title, "t2");
    assert_eq!(updated.description.as_deref(), Some("d"));
    assert_eq!(updated.priority, Priority::High);
    assert_eq!(updated.due_date.as_deref(), Some("2024-03-01"));
    assert_eq!(updated.repeat, Some(RepeatType::Weekly));
    assert!(updated.completed);
    assert_eq!(updated.updated_at.as_deref(), Some("t9"));
    // a no-field update leaves the row untouched
    let same = st.update_task(
        &UpdateTaskRequest {
            id,
            title: None,
            description: None,
            priority: None,
            due_date: None,
            repeat: None,
            completed: None,
        },
        "t10",
    ).unwrap();
    assert_eq!(same.updated_at.as_deref(), Some("t9"));
    let r = st.update_task(
        &UpdateTaskRequest {
            id: id + 7,
            title: Some("x".to_string()),
            description: None,
            priority: None,
            due_date: None,
            repeat: None,
            completed: None,
        },
        "t11",
    );
    assert!(matches!(r, Err(AppError::NotFound(_))));
}

#[test]
fn toggle_flips_completion() {
    let mut st = Store::new();
    let id = st.create_task(&task("t", Priority::Low, None), "t0").id.unwrap();
    let t1 = st.toggle_task(id, "t1").unwrap();
    assert!(t1.completed);
    let t2 = st.toggle_task(id, "t2").unwrap();
    assert!(!t2.completed);
    assert!(matches!(st.toggle_task(id + 1, "t3"), Err(AppError::NotFound(_))));
}

#[test]
fn delete_task_removes_row() {
    let mut st = Store::new();
    let a = st.create_task(&task("a", Priority::Low, None), "t0").id.unwrap();
    let b = st.create_task(&task("b", Priority::Low, None), "t1").id.unwrap();
    st.delete_task(a).unwrap();
    assert!(matches!(st.get_task_by_id(a), Err(AppError::NotFound(_))));
    assert!(st.get_task_by_id(b).is_ok());
    assert!(matches!(st.delete_task(a), Err(AppError::NotFound(_))));
}

#[test]
fn batch_create_preserves_order() {
    let mut st = Store::new();
    let reqs = vec![
        task("one", Priority::Low, None),
        task("two", Priority::High, Some("2024-01-01")),
    ];
    let created = st.batch_create_tasks(&reqs, "t0");
    assert_eq!(created.len(), 2);
    assert_eq!(created[0].title, "one");
    assert_eq!(created[1].title, "two");
    assert!(created[0].id.unwrap() < created[1].id.unwrap());
    assert_eq!(st.get_all_tasks().len(), 2);
}

#[test]
fn kelvin_sign_folds_to_ascii_k() {
    // full Unicode lowercasing maps the Kelvin sign to a plain k
    assert_eq!(RepeatType::from_str("wee\u{212a}ly"), Some(RepeatType::Weekly));
}
