//! The API routes, under `/api`.
use crate::wrapper_types::{rooted, route_views, Route, RouteVec, RouteView};
use vstd::prelude::*;

pub mod class;
pub mod homework;
pub mod user;

verus! {

/// The API routes: account, homework and class routes, under `/api`.
pub open spec fn api_routes() -> Seq<RouteView> {
    rooted(user::user_routes() + homework::homework_routes() + class::class_routes(), "/api"@)
}

/// The API routes.
pub fn routes() -> (r: Vec<Route>)
    ensures
        route_views(r@) == api_routes(),
{
    let v: Vec<Route> = Vec::new();
    let v = v.add(user::routes());
    let v = v.add(homework::routes());
    let v = v.add(class::routes());
    assert(route_views(v@) =~= user::user_routes() + homework::homework_routes() + class::class_routes());
    v.set_root("/api")
}

} // verus!
