//! The route table and the form date.
use crate::dates::{parse_date, parsed_date, valid_day};
use vstd::prelude::*;

verus! {

/// The HTTP method a route answers.
#[derive(Clone, Copy, Debug, PartialEq, Eq, Structural)]
pub enum Method {
    Get,
    Post,
}

/// A route: the handler answering `method` requests at `base` followed by
/// `uri`, with its rank when it has one.
#[derive(Debug)]
pub struct Route {
    pub method: Method,
    pub base: String,
    pub uri: String,
    pub handler: String,
    pub rank: Option<isize>,
}

/// A [`Route`] with its texts as sequences of characters.
pub struct RouteView {
    pub method: Method,
    pub base: Seq<char>,
    pub uri: Seq<char>,
    pub handler: Seq<char>,
    pub rank: Option<isize>,
}

impl View for Route {
    type V = RouteView;

    open spec fn view(&self) -> RouteView {
        RouteView {
            method: self.method,
            base: self.base@,
            uri: self.uri@,
            handler: self.handler@,
            rank: self.rank,
        }
    }
}

/// The views of a list of routes.
pub open spec fn route_views(s: Seq<Route>) -> Seq<RouteView> {
    s.map_values(|r: Route| r@)
}

/// A route mounted at `/`.
pub open spec fn at_root(method: Method, uri: Seq<char>, handler: Seq<char>, rank: Option<isize>) -> RouteView {
    RouteView { method, base: "/"@, uri, handler, rank }
}

/// The routes with `root` put before each base.
pub open spec fn rooted(s: Seq<RouteView>, root: Seq<char>) -> Seq<RouteView> {
    Seq::new(
        s.len(),
        |i: int|
            RouteView {
                method: s[i].method,
                base: root + s[i].base,
                uri: s[i].uri,
                handler: s[i].handler,
                rank: s[i].rank,
            },
    )
}

/// A route mounted at `/`.
pub fn route(method: Method, uri: &str, handler: &str, rank: Option<isize>) -> (r: Route)
    ensures
        r@ == at_root(method, uri@, handler@, rank),
{
    proof {
        reveal_strlit("/");
    }
    Route {
        method,
        base: String::from_str("/"),
        uri: String::from_str(uri),
        handler: String::from_str(handler),
        rank,
    }
}

/// Building route tables.
pub trait RouteVec: Sized {
    /// The routes with `root` put before each base.
    fn set_root(self, root: &str) -> Self;

    /// These routes followed by `other`.
    fn add(self, other: Self) -> Self;
}

impl RouteVec for Vec<Route> {
    fn set_root(self, root: &str) -> (r: Self)
        ensures
            route_views(r@) == rooted(route_views(self@), root@),
    {
        let mut out: Vec<Route> = Vec::new();
        let mut i: usize = 0;
        while i < self.len()
            invariant
                i <= self.len(),
                out@.len() == i,
                route_views(out@) == rooted(route_views(self@).take(i as int), root@),
            decreases self.len() - i,
        {
            let mut base = String::from_str(root);
            base.append(self[i].base.as_str());
            let ghost before = route_views(out@);
            let ghost ri = self@[i as int]@;
            out.push(
                Route {
                    method: self[i].method,
                    base,
                    uri: self[i].uri.clone(),
                    handler: self[i].handler.clone(),
                    rank: self[i].rank,
                },
            );
            assert(out@[i as int]@ == RouteView {
                method: ri.method,
                base: root@ + ri.base,
                uri: ri.uri,
                handler: ri.handler,
                rank: ri.rank,
            });
            assert forall|j: int| 0 <= j < i implies route_views(out@)[j] == rooted(route_views(self@).take(i + 1), root@)[j] by {
                assert(route_views(out@)[j] == before[j]);
                assert(before[j] == rooted(route_views(self@).take(i as int), root@)[j]);
                assert(route_views(self@).take(i as int)[j] == route_views(self@).take(i + 1)[j]);
            }
            assert(route_views(out@) =~= rooted(route_views(self@).take(i + 1), root@));
            i = i + 1;
        }
        assert(route_views(self@).take(self@.len() as int) =~= route_views(self@));
        out
    }

    fn add(self, other: Self) -> (r: Self)
        ensures
            r@ == self@ + other@,
    {
        let mut a = self;
        let mut b = other;
        a.append(&mut b);
        a
    }
}

/// A date read from a form field.
#[derive(Copy, Clone)]
pub struct FormDate(pub i32);

impl FormDate {
    /// The date of a form value written `YYYY-MM-DD`, as `chrono` reads it
    /// with the format `%Y-%m-%d`; `None` when it reads none.
    pub fn from_form_value(form_value: &str) -> (r: Option<FormDate>)
        ensures
            r is None <==> parsed_date(form_value@) is None,
            r matches Some(d) ==> parsed_date(form_value@) == Some(d.0 as int) && valid_day(d.0 as int),
    {
        match parse_date(form_value) {
            Some(d) => Some(FormDate(d)),
            None => None,
        }
    }
}

} // verus!
