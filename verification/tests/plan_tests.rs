use writedo::dates::scheduled_date_for;
use writedo::errors::AppError;
use writedo::models::{AddPlanDayRequest, ImportPlanDayItem, ImportPlanRequest, PlanStatus,
    SaveWritingRequest, UpdatePlanDayRequest, UpdatePlanRequest};
use writedo::store::Store;

fn plan_request(name: &str, start: &str, titles: &[&str]) -> ImportPlanRequest {
    let mut days = Vec::new();
    let mut n = 1;
    for t in titles {
        days.push(ImportPlanDayItem {
            day: n,
            title: t.to_string(),
            prompt: format!("prompt {}", n),
        });
        n += 1;
    }
    ImportPlanRequest {
        name: name.to_string(),
        theme: None,
        start_date: start.to_string(),
        days,
    }
}

#[test]
fn scheduled_date_steps_one_day_per_number() {
    assert_eq!(scheduled_date_for("2024-01-01", 1).unwrap(), "2024-01-01");
    assert_eq!(scheduled_date_for("2024-01-01", 2).unwrap(), "2024-01-02");
    assert_eq!(scheduled_date_for("2024-01-01", 31).unwrap(), "2024-01-31");
    assert_eq!(scheduled_date_for("2024-01-01", 32).unwrap(), "2024-02-01");
    // leap day
    assert_eq!(scheduled_date_for("2024-02-28", 2).unwrap(), "2024-02-29");
    assert_eq!(scheduled_date_for("2023-02-28", 2).unwrap(), "2023-03-01");
}

#[test]
fn scheduled_date_rejects_bad_start() {
    assert!(matches!(scheduled_date_for("not-a-date", 1), Err(AppError::Business(_))));
    assert!(matches!(scheduled_date_for("2024-02-30", 1), Err(AppError::Business(_))));
}

#[test]
fn create_plan_schedules_days() {
    let mut st = Store::new();
    let id = st.create_plan(&plan_request("P", "2024-01-01", &["A", "B"]), "t0").unwrap();
    assert_eq!(id, 1);
    let v = st.get_plan_with_days(id).unwrap();
    assert_eq!(v.plan.name, "P");
    assert_eq!(v.plan.total_days, 2);
    assert_eq!(v.plan.status, PlanStatus::Active);
    assert_eq!(v.days.len(), 2);
    assert_eq!(v.days[0].day_number, 1);
    assert_eq!(v.days[0].scheduled_date.as_deref(), Some("2024-01-01"));
    assert_eq!(v.days[1].day_number, 2);
    assert_eq!(v.days[1].scheduled_date.as_deref(), Some("2024-01-02"));
    assert_eq!(v.completed_days, 0);
    assert!(!v.days[0].is_completed);
}

#[test]
fn create_plan_rejects_bad_date() {
    let mut st = Store::new();
    let r = st.create_plan(&plan_request("P", "nope", &["A"]), "t0");
    assert!(matches!(r, Err(AppError::Business(_))));
    assert!(st.get_all_plans().is_empty());
}

#[test]
fn get_all_plans_lists_most_recent_first() {
    let mut st = Store::new();
    let a = st.create_plan(&plan_request("A", "2024-01-01", &[]), "t0").unwrap();
    let b = st.create_plan(&plan_request("B", "2024-01-01", &[]), "t1").unwrap();
    let all = st.get_all_plans();
    assert_eq!(all.len(), 2);
    assert_eq!(all[0].id, Some(b));
    assert_eq!(all[1].id, Some(a));
}

#[test]
fn delete_middle_day_renumbers_densely() {
    let mut st = Store::new();
    let id = st.create_plan(&plan_request("P", "2024-01-01", &["A", "B", "C"]), "t0").unwrap();
    let v = st.get_plan_with_days(id).unwrap();
    let middle = v.days[1].id;
    st.delete_plan_day(middle).unwrap();
    let v2 = st.get_plan_with_days(id).unwrap();
    assert_eq!(v2.plan.total_days, 2);
    assert_eq!(v2.days.len(), 2);
    assert_eq!(v2.days[0].day_number, 1);
    assert_eq!(v2.days[0].title, "A");
    assert_eq!(v2.days[1].day_number, 2);
    assert_eq!(v2.days[1].title, "C");
    // the scheduled date of the shifted day is left as it was
    assert_eq!(v2.days[1].scheduled_date.as_deref(), Some("2024-01-03"));
}

#[test]
fn delete_day_unknown_id_fails() {
    let mut st = Store::new();
    assert!(matches!(st.delete_plan_day(77), Err(AppError::NotFound(_))));
}

#[test]
fn add_day_shifts_later_numbers() {
    let mut st = Store::new();
    let id = st.create_plan(&plan_request("P", "2024-01-01", &["A", "B"]), "t0").unwrap();
    st.add_plan_day(
        &AddPlanDayRequest {
            plan_id: id,
            day_number: 2,
            title: "Mid".to_string(),
            prompt: "m".to_string(),
            scheduled_date: None,
        },
    ).unwrap();
    let v = st.get_plan_with_days(id).unwrap();
    assert_eq!(v.plan.total_days, 3);
    assert_eq!(v.days.len(), 3);
    assert_eq!(v.days[0].title, "A");
    assert_eq!(v.days[0].day_number, 1);
    assert_eq!(v.days[1].title, "Mid");
    assert_eq!(v.days[1].day_number, 2);
    // the inserted day is scheduled from the plan start and its position
    assert_eq!(v.days[1].scheduled_date.as_deref(), Some("2024-01-02"));
    assert_eq!(v.days[2].title, "B");
    assert_eq!(v.days[2].day_number, 3);
    // the shifted day keeps its old scheduled date
    assert_eq!(v.days[2].scheduled_date.as_deref(), Some("2024-01-02"));
}

#[test]
fn add_day_explicit_date_wins() {
    let mut st = Store::new();
    let id = st.create_plan(&plan_request("P", "2024-01-01", &["A"]), "t0").unwrap();
    st.add_plan_day(
        &AddPlanDayRequest {
            plan_id: id,
            day_number: 2,
            title: "B".to_string(),
            prompt: "p".to_string(),
            scheduled_date: Some("2030-12-31".to_string()),
        },
    ).unwrap();
    let v = st.get_plan_with_days(id).unwrap();
    assert_eq!(v.days[1].scheduled_date.as_deref(), Some("2030-12-31"));
}

#[test]
fn add_day_unknown_plan_fails() {
    let mut st = Store::new();
    let r = st.add_plan_day(
        &AddPlanDayRequest {
            plan_id: 9,
            day_number: 1,
            title: "X".to_string(),
            prompt: "p".to_string(),
            scheduled_date: None,
        },
    );
    assert!(matches!(r, Err(AppError::NotFound(_))));
}

#[test]
fn update_plan_partial_fields() {
    let mut st = Store::new();
    let id = st.create_plan(&plan_request("Old", "2024-01-01", &[]), "t0").unwrap();
    let w = st.update_plan(
        &UpdatePlanRequest {
            id,
            name: Some("New".to_string()),
            theme: None,
            start_date: None,
        },
    ).unwrap();
    assert_eq!(w.name, "New");
    assert_eq!(w.start_date, "2024-01-01");
    assert!(w.theme.is_none());
    // no fields: returns the current row unchanged
    let w2 = st.update_plan(
        &UpdatePlanRequest { id, name: None, theme: None, start_date: None },
    ).unwrap();
    assert_eq!(w2.name, "New");
    let r = st.update_plan(
        &UpdatePlanRequest { id: 99, name: None, theme: None, start_date: None },
    );
    assert!(matches!(r, Err(AppError::NotFound(_))));
}

#[test]
fn update_plan_status_transitions() {
    let mut st = Store::new();
    let id = st.create_plan(&plan_request("P", "2024-01-01", &[]), "t0").unwrap();
    st.update_plan_status(id, PlanStatus::Paused).unwrap();
    let all = st.get_all_plans();
    assert_eq!(all[0].status, PlanStatus::Paused);
    assert!(matches!(
        st.update_plan_status(42, PlanStatus::Active),
        Err(AppError::NotFound(_))
    ));
}

#[test]
fn update_plan_day_noop_and_partial() {
    let mut st = Store::new();
    let id = st.create_plan(&plan_request("P", "2024-01-01", &["A"]), "t0").unwrap();
    let day_id = st.get_plan_with_days(id).unwrap().days[0].id;
    // both fields absent: succeeds without even checking the id
    st.update_plan_day(&UpdatePlanDayRequest { id: 424242, title: None, prompt: None }).unwrap();
    st.update_plan_day(
        &UpdatePlanDayRequest { id: day_id, title: Some("A2".to_string()), prompt: None },
    ).unwrap();
    let v = st.get_plan_with_days(id).unwrap();
    assert_eq!(v.days[0].title, "A2");
    assert_eq!(v.days[0].prompt, "prompt 1");
    let r = st.update_plan_day(
        &UpdatePlanDayRequest { id: 424242, title: Some("X".to_string()), prompt: None },
    );
    assert!(matches!(r, Err(AppError::NotFound(_))));
}

#[test]
fn delete_plan_cascades_and_clears_references() {
    let mut st = Store::new();
    let id = st.create_plan(&plan_request("P", "2024-01-01", &["A"]), "t0").unwrap();
    let day_id = st.get_plan_with_days(id).unwrap().days[0].id;
    let w = st.save_writing(
        &SaveWritingRequest {
            plan_day_id: Some(day_id),
            title: "entry".to_string(),
            content: "words".to_string(),
            word_count: 5,
            duration_seconds: 60,
        },
        "2024-01-01",
        "t1",
    ).unwrap();
    st.delete_plan(id).unwrap();
    assert!(matches!(st.get_plan_with_days(id), Err(AppError::NotFound(_))));
    let survivor = st.get_writing_by_id(w.id.unwrap()).unwrap();
    assert_eq!(survivor.plan_day_id, None);
    assert_eq!(survivor.title, "entry");
    assert_eq!(survivor.content, "words");
    assert_eq!(survivor.word_count, 5);
    assert!(matches!(st.delete_plan(id), Err(AppError::NotFound(_))));
}

#[test]
fn markdown_import_creates_scheduled_plan() {
    let md = "# Name\n\n## Day 1 - Title1\nPrompt1\n\n## Day 2 - Title2\nPrompt2";
    let req = writedo::markdown::parse_markdown_plan(md, "2024-01-01").unwrap();
    let mut st = Store::new();
    let id = st.create_plan(&req, "t0").unwrap();
    let v = st.get_plan_with_days(id).unwrap();
    assert_eq!(v.plan.name, "Name");
    assert_eq!(v.days[0].scheduled_date.as_deref(), Some("2024-01-01"));
    assert_eq!(v.days[1].scheduled_date.as_deref(), Some("2024-01-02"));
}

#[test]
fn today_task_picks_active_plan_day() {
    let mut st = Store::new();
    let a = st.create_plan(&plan_request("A", "2024-01-01", &["D1", "D2"]), "t0").unwrap();
    assert!(st.get_today_writing_task("2023-12-31").is_none());
    let t = st.get_today_writing_task("2024-01-02").unwrap();
    assert_eq!(t.plan_id, a);
    assert_eq!(t.plan_name, "A");
    assert_eq!(t.day_number, 2);
    assert_eq!(t.title, "D2");
    assert!(!t.is_completed);
    // a paused plan no longer serves its day
    st.update_plan_status(a, PlanStatus::Paused).unwrap();
    assert!(st.get_today_writing_task("2024-01-02").is_none());
}

#[test]
fn today_task_reports_completion() {
    let mut st = Store::new();
    let id = st.create_plan(&plan_request("A", "2024-01-01", &["D1"]), "t0").unwrap();
    let day_id = st.get_plan_with_days(id).unwrap().days[0].id;
    st.save_writing(
        &SaveWritingRequest {
            plan_day_id: Some(day_id),
            title: "w".to_string(),
            content: "c".to_string(),
            word_count: 1,
            duration_seconds: 1,
        },
        "2024-01-01",
        "t1",
    ).unwrap();
    let t = st.get_today_writing_task("2024-01-01").unwrap();
    assert!(t.is_completed);
}

#[test]
fn plan_detail_reports_completion_and_word_count() {
    let mut st = Store::new();
    let id = st.create_plan(&plan_request("P", "2024-01-01", &["A", "B"]), "t0").unwrap();
    let day_a = st.get_plan_with_days(id).unwrap().days[0].id;
    st.save_writing(
        &SaveWritingRequest {
            plan_day_id: Some(day_a),
            title: "first".to_string(),
            content: "c".to_string(),
            word_count: 123,
            duration_seconds: 10,
        },
        "2024-01-01",
        "t1",
    ).unwrap();
    let v = st.get_plan_with_days(id).unwrap();
    assert_eq!(v.completed_days, 1);
    assert!(v.days[0].is_completed);
    assert_eq!(v.days[0].word_count, 123);
    assert_eq!(v.days[0].writing_title.as_deref(), Some("first"));
    assert!(!v.days[1].is_completed);
    assert_eq!(v.days[1].word_count, 0);
    assert!(v.days[1].writing_id.is_none());
}

#[test]
fn add_day_needs_computable_date_or_override() {
    let mut st = Store::new();
    let id = st.create_plan(&plan_request("P", "2024-01-01", &["A"]), "t0").unwrap();
    // the start date can later be set to text that is no date
    st.update_plan(
        &UpdatePlanRequest {
            id,
            name: None,
            theme: None,
            start_date: Some("someday".to_string()),
        },
    ).unwrap();
    // without an override the scheduled date cannot be computed
    let r = st.add_plan_day(
        &AddPlanDayRequest {
            plan_id: id,
            day_number: 2,
            title: "B".to_string(),
            prompt: "p".to_string(),
            scheduled_date: None,
        },
    );
    assert!(matches!(r, Err(AppError::Business(_))));
    assert_eq!(st.get_plan_with_days(id).unwrap().plan.total_days, 1);
    // an explicit override still works
    st.add_plan_day(
        &AddPlanDayRequest {
            plan_id: id,
            day_number: 2,
            title: "B".to_string(),
            prompt: "p".to_string(),
            scheduled_date: Some("2024-02-02".to_string()),
        },
    ).unwrap();
    let v = st.get_plan_with_days(id).unwrap();
    assert_eq!(v.plan.total_days, 2);
    assert_eq!(v.days[1].scheduled_date.as_deref(), Some("2024-02-02"));
}
