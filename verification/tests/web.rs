use homework_planner::actions::homework::HomeworkApiError;
use homework_planner::actions::user::UserApiError;
use homework_planner::auth::{decode_auth_cookie, encode_auth_cookie, session_user, AuthUser, AUTH_COOKIE};
use homework_planner::dates::{local_date, now};
use homework_planner::endpoints::api::homework::{add_reply, progress_reply};
use homework_planner::endpoints::api::user::{change_reply, login_reply, logout, register_reply};
use homework_planner::endpoints::{routes, Reply};
use homework_planner::handlebars_helpers::{date_label, due_date_text};
use homework_planner::models::homework::DueDate;
use homework_planner::models::user::{DbUserModel, User};
use homework_planner::wrapper_types::{FormDate, Method};

fn user_row() -> DbUserModel {
    DbUserModel { id: 4, name: "bob".to_string(), pwhs: "h".to_string(), class_id: Some(2), day_weights: vec![1; 7] }
}

fn is_redirect(r: &Reply, to: &str) -> bool {
    matches!(r, Reply::Redirect(t) if t == to)
}

fn is_flash(r: &Reply, to: &str, message: &str) -> bool {
    matches!(r, Reply::FlashError(t, m) if t == to && m == message)
}

#[test]
fn route_table_lists_every_handler_in_order() {
    let table: Vec<(Method, String, String, String, Option<isize>)> =
        routes().into_iter().map(|r| (r.method, r.base, r.uri, r.handler, r.rank)).collect();
    let expected = vec![
        (Method::Post, "/api/user/", "/register", "register", None),
        (Method::Post, "/api/user/", "/login", "login", None),
        (Method::Get, "/api/user/", "/logout", "logout", None),
        (Method::Post, "/api/user/", "/update", "change", None),
        (Method::Post, "/api/homework/", "/add?<old>", "add", None),
        (Method::Post, "/api/homework/", "/progress", "progress", None),
        (Method::Post, "/api/homework/", "/set-weight", "set_weight", None),
        (Method::Get, "/api/homework/", "/delete-old?<old>", "delete_old_hw", None),
        (Method::Post, "/api/class/", "/save-blackboard", "save_blackboard", None),
        (Method::Get, "/api/class/", "/get-blackboard", "get_blackboard", None),
        (Method::Get, "/", "/", "index", None),
        (Method::Get, "/", "/", "login", Some(2)),
        (Method::Get, "/", "/add?<amount>&<weight>&<detail>", "add_homework", None),
        (Method::Get, "/", "/settings", "settings", None),
        (Method::Get, "/", "/past-due", "past_due", None),
    ];
    let expected: Vec<(Method, String, String, String, Option<isize>)> = expected
        .into_iter()
        .map(|(m, b, u, h, r)| (m, b.to_string(), u.to_string(), h.to_string(), r))
        .collect();
    assert_eq!(table, expected);
}

#[test]
fn registration_replies() {
    assert!(is_redirect(&register_reply(&Ok(user_row())), "/"));
    assert!(is_flash(&register_reply::<DbUserModel>(&Err(UserApiError::UserExists)), "/", "User exists"));
    assert!(is_flash(&register_reply::<DbUserModel>(&Err(UserApiError::PasswordTooShort)), "/", "Password is too short (min 6)"));
    assert!(is_flash(&register_reply::<DbUserModel>(&Err(UserApiError::MismatchedPasswords)), "/", "Passwords do not match"));
    assert!(is_flash(&register_reply::<DbUserModel>(&Err(UserApiError::UsernameTooShort)), "/", "Username too short"));
    assert!(is_flash(&register_reply::<DbUserModel>(&Err(UserApiError::PasswordHashFailed)), "/", "Server error"));
}

#[test]
fn settings_replies() {
    assert!(is_redirect(&change_reply(&Ok(user_row())), "/"));
    assert!(is_flash(&change_reply::<DbUserModel>(&Err(UserApiError::UserExists)), "/settings", "Username exists"));
    assert!(is_flash(&change_reply::<DbUserModel>(&Err(UserApiError::UsernameTooShort)), "/settings", "Username too short"));
    assert!(is_flash(&change_reply::<DbUserModel>(&Err(UserApiError::WrongPassword)), "/settings", "Server error"));
}

#[test]
fn sign_in_replies() {
    assert!(is_redirect(&login_reply(&Ok(user_row())), "/"));
    assert!(is_flash(&login_reply::<DbUserModel>(&Err(UserApiError::UserNotFound)), "/", "User not found"));
    assert!(is_flash(&login_reply::<DbUserModel>(&Err(UserApiError::WrongPassword)), "/", "Wrong password"));
    assert!(is_flash(&login_reply::<DbUserModel>(&Err(UserApiError::UserExists)), "/", "Server error"));
}

#[test]
fn homework_replies() {
    assert!(is_redirect(&add_reply(&Ok(())), "/"));
    assert!(is_flash(&add_reply(&Err(HomeworkApiError::UnspecifiedTime)), "/add", "Specify due date or set as repeating"));
    assert!(is_redirect(&progress_reply(&Ok(())), "/"));
    assert!(is_flash(&progress_reply(&Err(HomeworkApiError::UnspecifiedTime)), "/", "Server error"));
}

fn auth_user() -> AuthUser {
    AuthUser { name: "bob".to_string(), id: 4, class_name: Some("11-B".to_string()), class_id: Some(2) }
}

#[test]
fn logout_removes_the_session_cookie_and_goes_home() {
    assert_eq!(auth_user().logout(), "auth");
    let (cookie, reply) = logout(auth_user());
    assert_eq!(cookie, AUTH_COOKIE);
    assert!(is_redirect(&reply, "/"));
}

#[test]
fn session_user_takes_the_class_name_only_with_a_class() {
    let u = session_user(&user_row(), Some("11-B".to_string()));
    assert_eq!((u.id, u.name.as_str(), u.class_id), (4, "bob", Some(2)));
    assert_eq!(u.class_name.as_deref(), Some("11-B"));
    let mut classless = user_row();
    classless.class_id = None;
    let u = session_user(&classless, Some("ignored".to_string()));
    assert_eq!(u.class_name, None);
}

#[test]
fn user_from_session_user_keeps_the_fields() {
    let u = User::from(auth_user());
    assert_eq!((u.name.as_str(), u.id, u.class_name.as_deref(), u.class_id), ("bob", 4, Some("11-B"), Some(2)));
}

#[test]
fn cookie_value_is_base64_of_the_json() {
    let json = r#"{"name":"bob","id":4,"class_name":"11-B","class_id":2}"#;
    let value = encode_auth_cookie(json);
    assert_eq!(value, "eyJuYW1lIjoiYm9iIiwiaWQiOjQsImNsYXNzX25hbWUiOiIxMS1CIiwiY2xhc3NfaWQiOjJ9");
    assert_eq!(decode_auth_cookie(&value).as_deref(), Some(json));
}

#[test]
fn cookie_round_trip_keeps_non_ascii_text() {
    let json = r#"{"name":"çağrı"}"#;
    assert_eq!(decode_auth_cookie(&encode_auth_cookie(json)).as_deref(), Some(json));
    assert_eq!(decode_auth_cookie(&encode_auth_cookie("")).as_deref(), Some(""));
}

#[test]
fn cookie_that_is_not_base64_of_utf8_is_refused() {
    assert_eq!(decode_auth_cookie("not base64!"), None);
    // "/w==" is the single byte 0xFF, which is not UTF-8.
    assert_eq!(decode_auth_cookie("/w=="), None);
}

#[test]
fn due_dates_in_words() {
    assert_eq!(due_date_text(DueDate::Repeat(0)), "Her pazartesiye");
    assert_eq!(due_date_text(DueDate::Repeat(1)), "Her salıya");
    assert_eq!(due_date_text(DueDate::Repeat(2)), "Her çarşambaya");
    assert_eq!(due_date_text(DueDate::Repeat(3)), "Her perşembeye");
    assert_eq!(due_date_text(DueDate::Repeat(4)), "Her cumaya");
    assert_eq!(due_date_text(DueDate::Repeat(5)), "Her cumartesiye");
    assert_eq!(due_date_text(DueDate::Repeat(6)), "Her pazara");
    assert_eq!(due_date_text(DueDate::Date(738956)), "2024-03-11 tarihi için");
}

#[test]
fn date_label_counts_days_from_today() {
    assert_eq!(date_label(738956, 0), "2024-03-11");
    assert_eq!(date_label(738956, 21), "2024-04-01");
    assert_eq!(date_label(1, 0), "0001-01-01");
}

#[test]
fn form_dates_are_read_as_year_month_day() {
    assert_eq!(FormDate::from_form_value("2024-03-11").map(|d| d.0), Some(738956));
    assert_eq!(FormDate::from_form_value("2024-02-30").map(|d| d.0), None);
    assert_eq!(FormDate::from_form_value("11.03.2024").map(|d| d.0), None);
}

#[test]
fn due_dates_order_repeating_first() {
    assert!(DueDate::Repeat(6) < DueDate::Date(1));
    assert!(DueDate::Date(738956) < DueDate::Date(738957));
    assert!(DueDate::Repeat(1) < DueDate::Repeat(2));
    assert_eq!(DueDate::Repeat(3).partial_cmp(&DueDate::Repeat(3)), Some(std::cmp::Ordering::Equal));
    assert_eq!(DueDate::Date(5).partial_cmp(&DueDate::Repeat(0)), Some(std::cmp::Ordering::Greater));
}

#[test]
fn the_clock_date_is_in_the_calendar() {
    let today = now();
    // After 2024-01-01 and before 3000-01-01.
    assert!(today > 738886 && today < 1095000);
}

#[test]
fn local_date_runs_five_and_a_half_hours_behind_utc() {
    assert_eq!(local_date(0), Some(719162));
    assert_eq!(local_date(19800), Some(719163));
    assert_eq!(local_date(1710115200), Some(738955));
    assert_eq!(local_date(1710115200 + 19800), Some(738956));
    assert_eq!(local_date(i64::MIN), None);
    assert_eq!(local_date(i64::MAX), None);
}
