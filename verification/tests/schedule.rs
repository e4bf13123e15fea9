use homework_planner::models::homework::{DailyHomework, DueDate, UserHomework};
use homework_planner::schedule::{create_schedule, create_schedule_on, weekday_weights};

// Day numbers counted from January 1 of year 1 (day 1).
const MAR_10_2024: i32 = 738955;
const MAR_11_2024: i32 = 738956; // a Monday
const MAR_12_2024: i32 = 738957;
const MAR_13_2024: i32 = 738958;
const MAR_14_2024: i32 = 738959;
const MAR_16_2024: i32 = 738961;

fn hw(due_date: DueDate, amount: i16, progress: i16, detail: &str, db_id: i32, delta: i16) -> UserHomework {
    UserHomework {
        due_date,
        amount,
        progress,
        detail: detail.to_string(),
        db_id,
        delta,
        weight: 1,
    }
}

fn summary(plan: &[(i32, Vec<DailyHomework>)]) -> Vec<(i32, Vec<(String, i16, i16, i32)>)> {
    plan.iter()
        .map(|(day, list)| {
            (
                *day,
                list.iter()
                    .map(|d| (d.hw.detail.clone(), d.hw.progress, d.hw.delta, d.amount))
                    .collect(),
            )
        })
        .collect()
}

fn week() -> Vec<UserHomework> {
    vec![
        hw(DueDate::Date(MAR_14_2024), 6, 0, "math", 1, 0),
        hw(DueDate::Date(MAR_13_2024), 4, 1, "physics", 2, 2),
        hw(DueDate::Repeat(4), 3, 0, "essay", 3, 0),
    ]
}

fn s(x: &str) -> String {
    x.to_string()
}

#[test]
fn schedule_levels_a_week_with_even_weights() {
    let plan = create_schedule_on(&week(), &[1, 1, 1, 1, 1, 1, 1], MAR_11_2024).unwrap();
    assert_eq!(
        summary(&plan),
        vec![
            (0, vec![(s("physics"), 1, 2, 3)]),
            (1, vec![(s("math"), 0, 0, 3)]),
            (2, vec![(s("math"), 3, 0, 3)]),
            (3, vec![(s("essay (2024-03-15)"), 0, 0, 3)]),
        ]
    );
}

#[test]
fn schedule_follows_the_weekday_weights() {
    let plan = create_schedule_on(&week(), &[1, 2, 1, 1, 3, 1, 1], MAR_11_2024).unwrap();
    assert_eq!(
        summary(&plan),
        vec![
            (0, vec![(s("physics"), 1, 2, 3)]),
            (1, vec![(s("math"), 0, 0, 5)]),
            (2, vec![(s("math"), 5, 0, 1), (s("essay (2024-03-15)"), 0, 0, 1)]),
            (3, vec![(s("essay (2024-03-15)"), 1, 0, 2)]),
        ]
    );
}

#[test]
fn schedule_without_homework_has_one_empty_day() {
    let plan = create_schedule_on(&vec![], &[1, 1, 1, 1, 1, 1, 1], MAR_11_2024).unwrap();
    assert_eq!(summary(&plan), vec![(0, vec![])]);
}

#[test]
fn schedule_with_zero_weights_plans_nothing() {
    let all = vec![hw(DueDate::Date(MAR_14_2024), 6, 0, "math", 1, 0)];
    let plan = create_schedule_on(&all, &[0, 0, 0, 0, 0, 0, 0], MAR_11_2024).unwrap();
    assert_eq!(summary(&plan), vec![(0, vec![]), (1, vec![]), (2, vec![])]);
}

#[test]
fn progress_covers_whole_repeating_occurrences() {
    let all = vec![hw(DueDate::Repeat(2), 2, 3, "read", 7, 1)];
    let plan = create_schedule_on(&all, &[1, 1, 1, 1, 1, 1, 1], MAR_11_2024).unwrap();
    assert_eq!(summary(&plan), vec![(0, vec![]), (1, vec![])]);
}

#[test]
fn heavy_first_day_is_done_at_once_and_the_rest_spread() {
    let all = vec![
        hw(DueDate::Date(MAR_12_2024), 10, 0, "a", 1, 0),
        hw(DueDate::Date(MAR_16_2024), 2, 0, "b", 2, 0),
    ];
    let plan = create_schedule_on(&all, &[2, 1, 1, 1, 1, 1, 1], MAR_11_2024).unwrap();
    assert_eq!(
        summary(&plan),
        vec![
            (0, vec![(s("a"), 0, 0, 10)]),
            (1, vec![(s("b"), 0, 0, 1)]),
            (2, vec![(s("b"), 1, 0, 1)]),
            (3, vec![]),
            (4, vec![]),
        ]
    );
}

#[test]
fn homework_due_today_or_earlier_has_no_plan() {
    let late = vec![hw(DueDate::Date(MAR_10_2024), 3, 0, "late", 1, 0)];
    assert!(create_schedule_on(&late, &[1, 1, 1, 1, 1, 1, 1], MAR_11_2024).is_none());
    let today = vec![hw(DueDate::Date(MAR_11_2024), 3, 0, "now", 1, 0)];
    assert!(create_schedule_on(&today, &[1, 1, 1, 1, 1, 1, 1], MAR_11_2024).is_none());
}

#[test]
fn too_few_weights_has_no_plan() {
    assert!(create_schedule_on(&week(), &[1, 1, 1], MAR_11_2024).is_none());
}

#[test]
fn a_bad_weekday_has_no_plan() {
    let all = vec![hw(DueDate::Repeat(9), 3, 0, "odd", 1, 0)];
    assert!(create_schedule_on(&all, &[1, 1, 1, 1, 1, 1, 1], MAR_11_2024).is_none());
}

#[test]
fn planned_work_is_never_late_and_none_is_lost() {
    // Load due by the end of each day (slot k: homework due on day k + 1).
    let due_by_day = [0, 3, 6, 3];
    let plan = create_schedule_on(&week(), &[1, 2, 1, 1, 3, 1, 1], MAR_11_2024).unwrap();
    let done: Vec<i32> = plan.iter().map(|(_, l)| l.iter().map(|d| d.amount).sum()).collect();
    let mut planned = 0;
    let mut due = 0;
    for k in 0..done.len() {
        planned += done[k];
        due += due_by_day[k];
        assert!(planned >= due);
    }
    assert_eq!(planned, due);
}

#[test]
fn schedule_on_the_clock_date_starts_at_day_zero() {
    let (today, plan) = create_schedule(&vec![], &[1, 1, 1, 1, 1, 1, 1]);
    assert!(today > 738886);
    let plan = plan.unwrap();
    assert_eq!(plan.len(), 1);
    assert_eq!(plan[0].0, 0);
    assert!(plan[0].1.is_empty());
}

#[test]
fn weekday_weights_take_the_first_seven_cut_to_i16() {
    assert_eq!(weekday_weights(&vec![1, 2, 3, 4, 5, 6, 7, 8]), Some(vec![1, 2, 3, 4, 5, 6, 7]));
    assert_eq!(weekday_weights(&vec![70000, -1, 0, 0, 0, 0, 0]), Some(vec![4464, -1, 0, 0, 0, 0, 0]));
    assert_eq!(weekday_weights(&vec![1, 2, 3]), None);
}

#[test]
fn days_without_time_get_nothing_and_no_work_is_lost() {
    const MAR_15_2024: i32 = 738960;
    let all = vec![hw(DueDate::Date(MAR_15_2024), 7, 0, "essay", 1, 0)];
    let plan = create_schedule_on(&all, &[1, 0, 0, 3, 1, 1, 1], MAR_11_2024).unwrap();
    assert_eq!(
        summary(&plan),
        vec![
            (0, vec![(s("essay"), 0, 0, 2)]),
            (1, vec![]),
            (2, vec![]),
            (3, vec![(s("essay"), 2, 0, 5)]),
        ]
    );
}
