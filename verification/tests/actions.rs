use homework_planner::actions::class::{get_or_make_class, set_blackboard, ClassLookup};
use homework_planner::actions::homework::{
    add_homework, build_progress_table, change_progress, get_homework_for_user, new_progress_rows, roll_delta,
    stale_progress, HomeworkApiError, DEFAULT_WEIGHT,
};
use homework_planner::actions::user::{add_user, login, UserApiError};
use homework_planner::auth::AuthUser;
use homework_planner::models::class::DbClassModel;
use homework_planner::models::homework::{AddHomeworkModel, DbHomeworkModel, DueDate, ProgressHomeworkModel, UserHomework};
use homework_planner::models::hw_progress::{ChangeProgressModel, HWProgressModel};
use homework_planner::models::user::{DbUserModel, LoginFormModel, RegisterFormModel, User};

const TODAY: i32 = 738956;
const PY_HASH: &str = "$2b$04$EGdrhbKUv8Oc9vGiXX0HQOxSg445d458Muh7DAHskb6QbtCvdxcie";
const PY_PASSWORD: &str = "correctbatteryhorsestapler";

fn auth_user() -> AuthUser {
    AuthUser { name: "ayse".to_string(), id: 5, class_name: Some("11-B".to_string()), class_id: Some(3) }
}

fn progress_row(progress: i16, delta: i16, delta_date: i32) -> HWProgressModel {
    HWProgressModel {
        homework_id: 9,
        user_id: 5,
        progress,
        delta,
        delta_date,
        weight: 2,
        last_repeat_reset: None,
    }
}

fn form(due_date: Option<i32>, weekday: Option<i32>, for_self: bool) -> AddHomeworkModel {
    AddHomeworkModel { due_date, detail: "page 12".to_string(), amount: 7, weekday, for_self }
}

#[test]
fn add_homework_needs_a_date_or_a_weekday() {
    let r = add_homework(&form(None, None, true), &auth_user());
    assert!(matches!(r, Err(HomeworkApiError::UnspecifiedTime)));
}

#[test]
fn add_homework_prefers_the_date_and_files_it_for_the_user() {
    let h = add_homework(&form(Some(TODAY + 3), Some(2), true), &auth_user()).unwrap();
    assert_eq!(h.due_date, Some(TODAY + 3));
    assert_eq!(h.day_of_week, None);
    assert_eq!(h.user_id, Some(5));
    assert_eq!(h.class_id, None);
    assert_eq!(h.detail, "page 12");
    assert_eq!(h.amount, 7);
}

#[test]
fn add_homework_for_the_class_repeats_on_the_weekday() {
    let h = add_homework(&form(None, Some(2), false), &auth_user()).unwrap();
    assert_eq!(h.due_date, None);
    assert_eq!(h.day_of_week, Some(2));
    assert_eq!(h.user_id, None);
    assert_eq!(h.class_id, Some(3));
}

#[test]
fn progress_without_delta_goes_straight_in() {
    let change = ChangeProgressModel { id: 9, amount: 4, use_delta: false };
    let r = change_progress(progress_row(3, 2, TODAY - 1), &change, TODAY);
    assert_eq!((r.progress, r.delta, r.delta_date), (7, 2, TODAY - 1));
}

#[test]
fn delta_of_today_grows() {
    let change = ChangeProgressModel { id: 9, amount: 4, use_delta: true };
    let r = change_progress(progress_row(3, 2, TODAY), &change, TODAY);
    assert_eq!((r.progress, r.delta, r.delta_date), (3, 6, TODAY));
}

#[test]
fn delta_of_an_earlier_day_is_counted_first() {
    let change = ChangeProgressModel { id: 9, amount: 4, use_delta: true };
    let r = change_progress(progress_row(3, 2, TODAY - 2), &change, TODAY);
    assert_eq!((r.progress, r.delta, r.delta_date), (5, 4, TODAY));
    assert_eq!((r.homework_id, r.user_id, r.weight), (9, 5, 2));
}

#[test]
fn rolling_the_delta_counts_it_in() {
    let r = roll_delta(progress_row(10, -3, TODAY - 1), TODAY);
    assert_eq!((r.progress, r.delta, r.delta_date), (7, 0, TODAY));
}

#[test]
fn new_rows_start_empty_today() {
    let rows = new_progress_rows(4, &vec![1, 2, 3], TODAY);
    assert_eq!(rows.len(), 3);
    for (i, r) in rows.iter().enumerate() {
        assert_eq!(r.homework_id, 4);
        assert_eq!(r.user_id, i as i32 + 1);
        assert_eq!((r.progress, r.delta, r.delta_date), (0, 0, TODAY));
        assert_eq!(r.weight, DEFAULT_WEIGHT);
        assert_eq!(r.last_repeat_reset, None);
    }
}

fn db_hw(id: i32) -> DbHomeworkModel {
    DbHomeworkModel {
        id,
        due_date: Some(TODAY + 1),
        detail: "x".to_string(),
        amount: 1,
        day_of_week: None,
        class_id: None,
        user_id: Some(5),
    }
}

#[test]
fn progress_table_fills_only_the_gaps() {
    let user = User { name: "ayse".to_string(), id: 5, class_name: None, class_id: None };
    let hws = vec![db_hw(1), db_hw(2), db_hw(3)];
    let mut have = progress_row(0, 0, TODAY);
    have.homework_id = 2;
    let mut other_user = progress_row(0, 0, TODAY);
    other_user.homework_id = 3;
    other_user.user_id = 6;
    let rows = build_progress_table(&user, &hws, &vec![have, other_user], TODAY);
    let ids: Vec<(i32, i32)> = rows.iter().map(|r| (r.homework_id, r.user_id)).collect();
    assert_eq!(ids, vec![(1, 5), (3, 5)]);
    assert!(rows.iter().all(|r| r.progress == 0 && r.delta == 0 && r.delta_date == TODAY));
}

fn joined(id: i32, due_date: Option<i32>, day_of_week: Option<i32>, delta_date: i32) -> ProgressHomeworkModel {
    ProgressHomeworkModel {
        id,
        due_date,
        detail: format!("hw{}", id),
        amount: 5,
        day_of_week,
        progress: 2,
        delta_progress: 1,
        delta_date,
        weight: 3,
        last_repeat_reset: None,
    }
}

#[test]
fn stale_rows_are_those_of_other_days() {
    let rows = vec![
        joined(1, Some(TODAY + 2), None, TODAY),
        joined(2, None, Some(3), TODAY - 1),
        joined(3, None, Some(1), TODAY + 1),
    ];
    assert_eq!(stale_progress(&rows, TODAY), vec![2, 3]);
}

#[test]
fn joined_rows_become_user_homework() {
    let rows = vec![joined(1, Some(TODAY + 2), Some(4), TODAY), joined(2, None, Some(3), TODAY)];
    let hws = get_homework_for_user(rows);
    assert_eq!(hws.len(), 2);
    assert_eq!(hws[0].due_date, DueDate::Date(TODAY + 2));
    assert_eq!(hws[1].due_date, DueDate::Repeat(3));
    assert_eq!((hws[1].db_id, hws[1].amount, hws[1].progress, hws[1].delta, hws[1].weight), (2, 5, 2, 1, 3));
    assert_eq!(hws[1].detail, "hw2");
}

#[test]
fn user_homework_from_a_row() {
    let h = UserHomework::from(joined(8, None, Some(6), TODAY));
    assert_eq!(h.due_date, DueDate::Repeat(6));
    assert_eq!(h.db_id, 8);
}

fn register(name: &str, password: &str, confirm: &str) -> RegisterFormModel {
    RegisterFormModel {
        name: name.to_string(),
        password: password.to_string(),
        confirm_password: confirm.to_string(),
        class: 11,
        class_name: "B".to_string(),
    }
}

#[test]
fn registration_errors_come_in_order() {
    assert!(matches!(add_user(&register("ali", "x", "y"), false), Err(UserApiError::UsernameTooShort)));
    assert!(matches!(add_user(&register("alice", "secret1", "secret2"), false), Err(UserApiError::MismatchedPasswords)));
    assert!(matches!(add_user(&register("alice", "short", "short"), false), Err(UserApiError::PasswordTooShort)));
    assert!(matches!(add_user(&register("alice", "secret1", "secret1"), true), Err(UserApiError::UserExists)));
}

#[test]
fn name_and_password_lengths_count_bytes() {
    // "çağ" is three characters but five bytes.
    assert!(matches!(add_user(&register("çağ", "şşş", "şşş"), true), Err(UserApiError::UserExists)));
}

#[test]
fn a_password_with_a_nul_cannot_be_hashed() {
    assert!(matches!(
        add_user(&register("alice", "secret\0", "secret\0"), false),
        Err(UserApiError::PasswordHashFailed)
    ));
}

#[test]
fn registration_hashes_the_password_and_sign_in_accepts_it() {
    let new_user = add_user(&register("alice", "secret1", "secret1"), false).unwrap();
    assert_eq!(new_user.name, "alice");
    assert_eq!(new_user.class_id, None);
    assert_ne!(new_user.pwhs, "secret1");
    let row = DbUserModel { id: 1, name: "alice".to_string(), pwhs: new_user.pwhs, class_id: None, day_weights: vec![] };
    let form = LoginFormModel { name: "alice".to_string(), password: "secret1".to_string() };
    assert_eq!(login(&form, Some(row)).unwrap().id, 1);
}

fn stored() -> DbUserModel {
    DbUserModel { id: 4, name: "bob".to_string(), pwhs: PY_HASH.to_string(), class_id: Some(2), day_weights: vec![1; 7] }
}

#[test]
fn login_checks_the_password() {
    let good = LoginFormModel { name: "bob".to_string(), password: PY_PASSWORD.to_string() };
    let bad = LoginFormModel { name: "bob".to_string(), password: "wrong".to_string() };
    assert_eq!(login(&good, Some(stored())).unwrap().id, 4);
    assert!(matches!(login(&bad, Some(stored())), Err(UserApiError::WrongPassword)));
    assert!(matches!(login(&good, None), Err(UserApiError::UserNotFound)));
}

#[test]
fn login_refuses_a_malformed_hash() {
    let good = LoginFormModel { name: "bob".to_string(), password: PY_PASSWORD.to_string() };
    let mut broken = stored();
    broken.pwhs = "$2a$04$n4Uy0eSnMfvnESYL.bLwuuj0U/ETSsoTpRT9GVk$5bektyVVa5xnIi".to_string();
    assert!(matches!(login(&good, Some(broken)), Err(UserApiError::PasswordCheckFailed)));
}

#[test]
fn a_known_class_is_used_and_a_new_one_inserted() {
    let found = DbClassModel { id: 3, name: "11-B".to_string(), blackboard: String::new() };
    assert!(matches!(get_or_make_class("11-B", Some(found)), ClassLookup::Found(c) if c.id == 3));
    assert!(matches!(get_or_make_class("9-A", None), ClassLookup::Insert(n) if n.name == "9-A"));
}

#[test]
fn blackboard_is_replaced() {
    let class = DbClassModel { id: 3, name: "11-B".to_string(), blackboard: "old".to_string() };
    let c = set_blackboard(class, "new text".to_string());
    assert_eq!((c.id, c.name.as_str(), c.blackboard.as_str()), (3, "11-B", "new text"));
}

#[test]
fn progress_change_that_overflows_is_refused() {
    let change = ChangeProgressModel { id: 9, amount: 2, use_delta: false };
    assert!(homework_planner::actions::homework::checked_change_progress(progress_row(32767, 0, TODAY), &change, TODAY).is_none());
    let change = ChangeProgressModel { id: 9, amount: 2, use_delta: true };
    assert!(homework_planner::actions::homework::checked_change_progress(progress_row(32767, 1, TODAY - 1), &change, TODAY).is_none());
    let r = homework_planner::actions::homework::checked_change_progress(progress_row(10, 1, TODAY - 1), &change, TODAY).unwrap();
    assert_eq!((r.progress, r.delta, r.delta_date), (11, 2, TODAY));
}

#[test]
fn database_errors_convert_to_each_error_type() {
    assert!(matches!(HomeworkApiError::from(diesel::result::Error::NotFound), HomeworkApiError::DieselError(_)));
    assert!(matches!(UserApiError::from(diesel::result::Error::NotFound), UserApiError::DieselError(_)));
    assert!(matches!(
        homework_planner::actions::class::ClassApiError::from(diesel::result::Error::NotFound),
        homework_planner::actions::class::ClassApiError::DieselError(_)
    ));
}

#[test]
fn login_refuses_a_hash_that_is_not_ascii() {
    let good = LoginFormModel { name: "bob".to_string(), password: PY_PASSWORD.to_string() };
    let mut odd = stored();
    // 53 bytes after the cost, with a two-byte character across byte 22.
    odd.pwhs = format!("$2b$04${}ç{}", "a".repeat(21), "b".repeat(30));
    assert!(matches!(login(&good, Some(odd)), Err(UserApiError::PasswordCheckFailed)));
}

#[test]
fn homework_for_oneself_gets_one_row_of_the_user() {
    let rows = homework_planner::actions::homework::homework_progress_rows(
        &form(Some(TODAY + 3), None, true),
        &auth_user(),
        12,
        &vec![(7, Some(3)), (8, Some(3))],
        TODAY,
    );
    let got: Vec<(i32, i32, i16, i16, i32)> =
        rows.iter().map(|r| (r.homework_id, r.user_id, r.progress, r.delta, r.delta_date)).collect();
    assert_eq!(got, vec![(12, 5, 0, 0, TODAY)]);
}

#[test]
fn class_homework_gets_a_row_for_each_classmate() {
    let rows = homework_planner::actions::homework::homework_progress_rows(
        &form(Some(TODAY + 3), None, false),
        &auth_user(),
        12,
        &vec![(5, Some(3)), (7, Some(4)), (8, Some(3)), (9, None)],
        TODAY,
    );
    let got: Vec<(i32, i32)> = rows.iter().map(|r| (r.homework_id, r.user_id)).collect();
    assert_eq!(got, vec![(12, 5), (12, 8)]);
    let mut classless = auth_user();
    classless.class_id = None;
    let none = homework_planner::actions::homework::homework_progress_rows(
        &form(Some(TODAY + 3), None, false),
        &classless,
        12,
        &vec![(9, None)],
        TODAY,
    );
    assert!(none.is_empty());
}
