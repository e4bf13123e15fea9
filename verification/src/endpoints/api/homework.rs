//! Routes of the homework actions.
use crate::actions::homework::HomeworkApiError;
use crate::endpoints::{flash_error, redirect, Reply, ReplyView};
use crate::wrapper_types::{at_root, rooted, route, route_views, Method, Route, RouteVec, RouteView};
use vstd::prelude::*;

verus! {

/// The homework routes, under `/homework`.
pub open spec fn homework_routes() -> Seq<RouteView> {
    rooted(
        seq![
            at_root(Method::Post, "/add?<old>"@, "add"@, None),
            at_root(Method::Post, "/progress"@, "progress"@, None),
            at_root(Method::Post, "/set-weight"@, "set_weight"@, None),
            at_root(Method::Get, "/delete-old?<old>"@, "delete_old_hw"@, None),
        ],
        "/homework"@,
    )
}

/// The homework routes.
pub fn routes() -> (r: Vec<Route>)
    ensures
        route_views(r@) == homework_routes(),
{
    let mut v: Vec<Route> = Vec::new();
    v.push(route(Method::Post, "/add?<old>", "add", None));
    v.push(route(Method::Post, "/progress", "progress", None));
    v.push(route(Method::Post, "/set-weight", "set_weight", None));
    v.push(route(Method::Get, "/delete-old?<old>", "delete_old_hw", None));
    assert(route_views(v@) =~= seq![
        at_root(Method::Post, "/add?<old>"@, "add"@, None),
        at_root(Method::Post, "/progress"@, "progress"@, None),
        at_root(Method::Post, "/set-weight"@, "set_weight"@, None),
        at_root(Method::Get, "/delete-old?<old>"@, "delete_old_hw"@, None),
    ]);
    v.set_root("/homework")
}

/// The answer to adding homework: home once it is added; back to the form
/// with what was wrong when it has no time, or with a server error.
pub fn add_reply(outcome: &Result<(), HomeworkApiError>) -> (r: Reply)
    ensures
        outcome is Ok ==> r@ == ReplyView::Redirect("/"@),
        outcome matches Err(HomeworkApiError::UnspecifiedTime) ==> r@ == ReplyView::FlashError(
            "/add"@,
            "Specify due date or set as repeating"@,
        ),
        outcome matches Err(HomeworkApiError::DieselError(_)) ==> r@ == ReplyView::FlashError(
            "/add"@,
            "Server error"@,
        ),
{
    match outcome {
        Ok(_) => redirect("/"),
        Err(HomeworkApiError::UnspecifiedTime) => flash_error("/add", "Specify due date or set as repeating"),
        Err(_) => flash_error("/add", "Server error"),
    }
}

/// The answer to recording progress: home, with a server error when it
/// could not be recorded.
pub fn progress_reply(outcome: &Result<(), HomeworkApiError>) -> (r: Reply)
    ensures
        outcome is Ok ==> r@ == ReplyView::Redirect("/"@),
        outcome is Err ==> r@ == ReplyView::FlashError("/"@, "Server error"@),
{
    match outcome {
        Ok(_) => redirect("/"),
        Err(_) => flash_error("/", "Server error"),
    }
}

} // verus!
