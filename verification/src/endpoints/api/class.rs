//! Routes of the class blackboard.
use crate::wrapper_types::{at_root, rooted, route, route_views, Method, Route, RouteVec, RouteView};
use vstd::prelude::*;

verus! {

/// The class routes, under `/class`.
pub open spec fn class_routes() -> Seq<RouteView> {
    rooted(
        seq![
            at_root(Method::Post, "/save-blackboard"@, "save_blackboard"@, None),
            at_root(Method::Get, "/get-blackboard"@, "get_blackboard"@, None),
        ],
        "/class"@,
    )
}

/// The class routes.
pub fn routes() -> (r: Vec<Route>)
    ensures
        route_views(r@) == class_routes(),
{
    let mut v: Vec<Route> = Vec::new();
    v.push(route(Method::Post, "/save-blackboard", "save_blackboard", None));
    v.push(route(Method::Get, "/get-blackboard", "get_blackboard", None));
    assert(route_views(v@) =~= seq![
        at_root(Method::Post, "/save-blackboard"@, "save_blackboard"@, None),
        at_root(Method::Get, "/get-blackboard"@, "get_blackboard"@, None),
    ]);
    v.set_root("/class")
}

} // verus!
