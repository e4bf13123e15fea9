use homework_planner::models::user::{ChangeFormModel, RegisterFormModel};
use homework_planner::text::decimal_text;

#[test]
fn decimal_text_writes_numbers() {
    assert_eq!(decimal_text(0), "0");
    assert_eq!(decimal_text(7), "7");
    assert_eq!(decimal_text(1234), "1234");
    assert_eq!(decimal_text(-56), "-56");
    assert_eq!(decimal_text(i32::MIN), "-2147483648");
    assert_eq!(decimal_text(i32::MAX), "2147483647");
}

#[test]
fn cname_joins_number_and_name() {
    let m = RegisterFormModel {
        name: "ali".to_string(),
        password: "x".to_string(),
        confirm_password: "x".to_string(),
        class: 11,
        class_name: "B".to_string(),
    };
    assert_eq!(m.cname(), "11-B");
}

#[test]
fn weights_are_monday_first() {
    let m = ChangeFormModel {
        name: "ali".to_string(),
        password: "x".to_string(),
        confirm_password: "x".to_string(),
        class: 9,
        class_name: "A".to_string(),
        mo: 1,
        tu: 2,
        we: 3,
        th: 4,
        fr: 5,
        sa: 6,
        su: 7,
    };
    assert_eq!(m.weights(), vec![1, 2, 3, 4, 5, 6, 7]);
    assert_eq!(m.cname(), "9-A");
}
