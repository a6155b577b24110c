//! Which handler answers a request.

use vstd::prelude::*;
use crate::httprequest::{HttpRequest, Method, Resource};
use crate::text::{
    in_class, lemma_split_concat, lemma_split_none, lemma_split_nonempty, split_class, split_spec,
    str_eq, views, CharClass,
};

verus! {

/// The router of the HTTP server.
pub struct Router;

/// The handlers that a request can be routed to.
#[derive(Debug, PartialEq, Eq, Clone, Copy, Structural)]
pub enum Route {
    /// The service interface, for `GET /api...`.
    WebService,
    /// Static pages, for the other `GET` requests.
    StaticPage,
    /// Every other method.
    PageNotFound,
}

/// The segments of a path between `/`.
pub open spec fn path_segments(path: Seq<char>) -> Seq<Seq<char>> {
    split_spec(path, CharClass::Exactly('/'))
}

/// Whether a request can be routed: a `GET` request's path holds a `/`.
pub open spec fn routable(method: Method, path: Seq<char>) -> bool {
    method == Method::Get ==> path_segments(path).len() >= 2
}

/// The handler for a request with `method` and `path`: `GET` requests whose
/// first path segment (after the leading `/`) is `api` go to the service,
/// other `GET` requests to the static pages, other methods to "not found".
pub open spec fn route_of(method: Method, path: Seq<char>) -> Route {
    if method == Method::Get {
        if path_segments(path)[1] == "api"@ {
            Route::WebService
        } else {
            Route::StaticPage
        }
    } else {
        Route::PageNotFound
    }
}

/// A request can be routed exactly where it is not a `GET` or its path holds
/// a `/`.
pub proof fn lemma_routable_iff_slash(method: Method, path: Seq<char>)
    ensures
        routable(method, path) <==> (method == Method::Get ==> exists|k: int|
            0 <= k < path.len() && path[k] == '/'),
{
    let slash = CharClass::Exactly('/');
    if exists|k: int| 0 <= k < path.len() && path[k] == '/' {
        let k = choose|k: int| 0 <= k < path.len() && path[k] == '/';
        let a = path.take(k);
        let b = path.skip(k + 1);
        assert(path =~= a + seq!['/'] + b);
        lemma_split_concat(a, '/', b, slash);
        lemma_split_nonempty(a, slash);
        lemma_split_nonempty(b, slash);
    } else {
        assert forall|i: int| 0 <= i < path.len() implies !in_class(slash, #[trigger] path[i]) by {
        }
        lemma_split_none(path, slash);
    }
}

/// The path of a request.
pub fn path_of(req: &HttpRequest) -> (res: &str)
    ensures
        res@ == req@.path,
{
    match &req.resource {
        Resource::Path(s) => s.as_str(),
    }
}

impl Router {
    /// Whether `req` can be routed (see [`routable`]).
    pub fn can_route(req: &HttpRequest) -> (res: bool)
        ensures
            res == routable(req@.method, req@.path),
    {
        match req.method {
            Method::Get => split_class(path_of(req), CharClass::Exactly('/')).len() >= 2,
            _ => true,
        }
    }

    /// The handler that answers `req`.
    pub fn route(req: &HttpRequest) -> (res: Route)
        requires
            routable(req@.method, req@.path),
        ensures
            res == route_of(req@.method, req@.path),
    {
        match req.method {
            Method::Get => {
                let route = split_class(path_of(req), CharClass::Exactly('/'));
                proof {
                    assert(views(route@)[1] == route@[1]@);
                    reveal_strlit("api");
                }
                if str_eq(route[1], "api") {
                    Route::WebService
                } else {
                    Route::StaticPage
                }
            },
            _ => Route::PageNotFound,
        }
    }
}

} // verus!
