use super::laws::lemma_empty_wf;
use super::paths::route_request;
use super::{Args, Paths, PathsView, RouteHandler};
use crate::http::Method;
use vstd::prelude::*;

verus! {

impl<F> RouteHandler<F> {
    /// The routing tree for requests with method `m`.
    pub closed spec fn tree(self, m: Method) -> PathsView<F> {
        match m {
            Method::GET => self.get@,
            Method::HEAD => self.head@,
            Method::POST => self.post@,
            Method::PUT => self.put@,
            Method::DELETE => self.delete@,
            Method::TRACE => self.trace@,
            Method::OPTIONS => self.options@,
            Method::CONNECT => self.connect@,
            Method::PATCH => self.patch@,
        }
    }

    /// Route functions for no method and no route.
    pub fn new() -> (r: RouteHandler<F>)
        ensures
            forall|m: Method| r.tree(m) == PathsView::<F>::empty(),
            forall|m: Method| #[trigger] r.tree(m).wf(),
    {
        proof {
            lemma_empty_wf::<F>();
        }
        RouteHandler {
            get: Paths::new_root(),
            head: Paths::new_root(),
            post: Paths::new_root(),
            put: Paths::new_root(),
            delete: Paths::new_root(),
            trace: Paths::new_root(),
            options: Paths::new_root(),
            connect: Paths::new_root(),
            patch: Paths::new_root(),
        }
    }

    /// Stores `func` for requests with method `method` on `route`.
    pub fn add_route(&mut self, method: Method, route: &str, func: F)
        ensures
            final(self).tree(method) == old(self).tree(method).added(
                super::paths::route_segments(route@),
                func,
            ),
            forall|m: Method| m != method ==> final(self).tree(m) == old(self).tree(m),
            old(self).tree(method).wf() ==> final(self).tree(method).wf(),
    {
        match method {
            Method::GET => self.get.new_route(route, func),
            Method::HEAD => self.head.new_route(route, func),
            Method::POST => self.post.new_route(route, func),
            Method::PUT => self.put.new_route(route, func),
            Method::DELETE => self.delete.new_route(route, func),
            Method::TRACE => self.trace.new_route(route, func),
            Method::OPTIONS => self.options.new_route(route, func),
            Method::CONNECT => self.connect.new_route(route, func),
            Method::PATCH => self.patch.new_route(route, func),
        }
    }
}

impl<F: Copy> RouteHandler<F> {
    /// The function stored for `route` under `method`, if any, and the arguments
    /// found on the way.
    pub fn get_route(&self, method: Method, route: &str) -> (r: (Option<F>, Args))
        ensures
            (r.0, r.1.view()) == route_request(self.tree(method), route@, Map::empty()),
    {
        match method {
            Method::GET => self.get.router(route),
            Method::HEAD => self.head.router(route),
            Method::POST => self.post.router(route),
            Method::PUT => self.put.router(route),
            Method::DELETE => self.delete.router(route),
            Method::TRACE => self.trace.router(route),
            Method::OPTIONS => self.options.router(route),
            Method::CONNECT => self.connect.router(route),
            Method::PATCH => self.patch.router(route),
        }
    }
}

} // verus!
