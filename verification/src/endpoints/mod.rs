//! The route table of the application.
use crate::wrapper_types::{at_root, route, route_views, Method, Route, RouteVec, RouteView};
use vstd::prelude::*;

pub mod api;

verus! {

/// How a request is answered.
pub enum Reply {
    /// A redirect to the path.
    Redirect(String),
    /// A redirect to the path (first) with an error message (second) to
    /// show there.
    FlashError(String, String),
}

/// A [`Reply`] with its texts as sequences of characters.
pub enum ReplyView {
    Redirect(Seq<char>),
    FlashError(Seq<char>, Seq<char>),
}

impl View for Reply {
    type V = ReplyView;

    open spec fn view(&self) -> ReplyView {
        match self {
            Reply::Redirect(to) => ReplyView::Redirect(to@),
            Reply::FlashError(to, message) => ReplyView::FlashError(to@, message@),
        }
    }
}

/// A redirect to `to`.
pub fn redirect(to: &str) -> (r: Reply)
    ensures
        r@ == ReplyView::Redirect(to@),
{
    Reply::Redirect(String::from_str(to))
}

/// A redirect to `to` showing the error `message`.
pub fn flash_error(to: &str, message: &str) -> (r: Reply)
    ensures
        r@ == ReplyView::FlashError(to@, message@),
{
    Reply::FlashError(String::from_str(to), String::from_str(message))
}

/// The pages.
pub open spec fn page_routes() -> Seq<RouteView> {
    seq![
        at_root(Method::Get, "/"@, "index"@, None),
        at_root(Method::Get, "/"@, "login"@, Some(2)),
        at_root(Method::Get, "/add?<amount>&<weight>&<detail>"@, "add_homework"@, None),
        at_root(Method::Get, "/settings"@, "settings"@, None),
        at_root(Method::Get, "/past-due"@, "past_due"@, None),
    ]
}

/// Every route: the API routes, then the pages.
pub fn routes() -> (r: Vec<Route>)
    ensures
        route_views(r@) == api::api_routes() + page_routes(),
{
    let mut pages: Vec<Route> = Vec::new();
    pages.push(route(Method::Get, "/", "index", None));
    pages.push(route(Method::Get, "/", "login", Some(2)));
    pages.push(route(Method::Get, "/add?<amount>&<weight>&<detail>", "add_homework", None));
    pages.push(route(Method::Get, "/settings", "settings", None));
    pages.push(route(Method::Get, "/past-due", "past_due", None));
    assert(route_views(pages@) =~= page_routes());
    let all = api::routes().add(pages);
    assert(route_views(all@) =~= api::api_routes() + page_routes());
    all
}

} // verus!
