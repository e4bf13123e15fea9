//! Routes of the account actions.
use crate::actions::user::UserApiError;
use crate::auth::AuthUser;
use crate::endpoints::{flash_error, redirect, Reply, ReplyView};
use crate::wrapper_types::{at_root, rooted, route, route_views, Method, Route, RouteVec, RouteView};
use vstd::prelude::*;

verus! {

/// The account routes, under `/user`.
pub open spec fn user_routes() -> Seq<RouteView> {
    rooted(
        seq![
            at_root(Method::Post, "/register"@, "register"@, None),
            at_root(Method::Post, "/login"@, "login"@, None),
            at_root(Method::Get, "/logout"@, "logout"@, None),
            at_root(Method::Post, "/update"@, "change"@, None),
        ],
        "/user"@,
    )
}

/// The account routes.
pub fn routes() -> (r: Vec<Route>)
    ensures
        route_views(r@) == user_routes(),
{
    let mut v: Vec<Route> = Vec::new();
    v.push(route(Method::Post, "/register", "register", None));
    v.push(route(Method::Post, "/login", "login", None));
    v.push(route(Method::Get, "/logout", "logout", None));
    v.push(route(Method::Post, "/update", "change", None));
    assert(route_views(v@) =~= seq![
        at_root(Method::Post, "/register"@, "register"@, None),
        at_root(Method::Post, "/login"@, "login"@, None),
        at_root(Method::Get, "/logout"@, "logout"@, None),
        at_root(Method::Post, "/update"@, "change"@, None),
    ]);
    v.set_root("/user")
}

/// The error message shown for a refused registration or settings change,
/// where the error is one the form can be told about.
pub open spec fn form_message(e: UserApiError, user_exists: Seq<char>) -> Seq<char> {
    match e {
        UserApiError::UserExists => user_exists,
        UserApiError::PasswordTooShort => "Password is too short (min 6)"@,
        UserApiError::MismatchedPasswords => "Passwords do not match"@,
        UserApiError::UsernameTooShort => "Username too short"@,
        _ => "Server error"@,
    }
}

fn form_reply<T>(outcome: &Result<T, UserApiError>, to: &str, user_exists: &str) -> (r: Reply)
    ensures
        outcome is Ok ==> r@ == ReplyView::Redirect("/"@),
        outcome matches Err(e) ==> r@ == ReplyView::FlashError(to@, form_message(*e, user_exists@)),
{
    match outcome {
        Ok(_) => redirect("/"),
        Err(UserApiError::UserExists) => flash_error(to, user_exists),
        Err(UserApiError::PasswordTooShort) => flash_error(to, "Password is too short (min 6)"),
        Err(UserApiError::MismatchedPasswords) => flash_error(to, "Passwords do not match"),
        Err(UserApiError::UsernameTooShort) => flash_error(to, "Username too short"),
        Err(_) => flash_error(to, "Server error"),
    }
}

/// The answer to a registration: home once the user is registered (and
/// signed in), else back home with what was wrong.
pub fn register_reply<T>(outcome: &Result<T, UserApiError>) -> (r: Reply)
    ensures
        outcome is Ok ==> r@ == ReplyView::Redirect("/"@),
        outcome matches Err(e) ==> r@ == ReplyView::FlashError("/"@, form_message(*e, "User exists"@)),
{
    form_reply(outcome, "/", "User exists")
}

/// The answer to a settings change: home once the settings are saved (and
/// the user signed in again), else back to the settings with what was
/// wrong.
pub fn change_reply<T>(outcome: &Result<T, UserApiError>) -> (r: Reply)
    ensures
        outcome is Ok ==> r@ == ReplyView::Redirect("/"@),
        outcome matches Err(e) ==> r@ == ReplyView::FlashError("/settings"@, form_message(*e, "Username exists"@)),
{
    form_reply(outcome, "/settings", "Username exists")
}

/// The error message shown for a refused sign-in.
pub open spec fn login_message(e: UserApiError) -> Seq<char> {
    match e {
        UserApiError::UserNotFound => "User not found"@,
        UserApiError::WrongPassword => "Wrong password"@,
        _ => "Server error"@,
    }
}

/// The answer to a sign-in: home, with the error message when it was
/// refused.
pub fn login_reply<T>(outcome: &Result<T, UserApiError>) -> (r: Reply)
    ensures
        outcome is Ok ==> r@ == ReplyView::Redirect("/"@),
        outcome matches Err(e) ==> r@ == ReplyView::FlashError("/"@, login_message(*e)),
{
    match outcome {
        Ok(_) => redirect("/"),
        Err(UserApiError::UserNotFound) => flash_error("/", "User not found"),
        Err(UserApiError::WrongPassword) => flash_error("/", "Wrong password"),
        Err(_) => flash_error("/", "Server error"),
    }
}

/// Signs the user out: gives the name of the session cookie to remove and
/// the answer, a redirect home.
pub fn logout(user: AuthUser) -> (r: (String, Reply))
    ensures
        r.0@ == crate::auth::AUTH_COOKIE@,
        r.1@ == ReplyView::Redirect("/"@),
{
    let cookie = user.logout();
    (cookie, redirect("/"))
}

} // verus!
