//! Middleware: a chain of steps that a request passes before it reaches its route function.
use crate::http::{Request, Response};
use crate::router::Args;
use vstd::prelude::*;

verus! {

/// A step in the chain. It gets the request, the route arguments and the handle of
/// the chain, and passes the request on with `handle.next`, or answers it itself.
pub trait Middleware: Sized {
    fn call<R: Fn(Request, Args) -> Response>(
        &self,
        req: Request,
        args: Args,
        handle: &mut MiddlewareHandle<Self, R>,
    ) -> Response;
}

/// The middleware of a server, in the order in which requests pass it.
pub struct MiddlewareStore<M> {
    middleware: Vec<M>,
}

impl<M> MiddlewareStore<M> {
    /// The middleware, in order.
    pub closed spec fn items(self) -> Seq<M> {
        self.middleware@
    }

    /// A store without middleware.
    pub fn new() -> (r: MiddlewareStore<M>)
        ensures
            r.items() == Seq::<M>::empty(),
    {
        MiddlewareStore { middleware: Vec::new() }
    }

    /// Appends a middleware to the chain.
    pub fn add(&mut self, mw: M)
        ensures
            final(self).items() == old(self).items().push(mw),
    {
        self.middleware.push(mw);
    }

    /// A handle that starts a request at the first middleware and ends it at `router`.
    pub fn get_handle<'a, 'b, R>(&'a self, router: &'b R) -> (h: MiddlewareHandle<'a, 'b, M, R>)
        ensures
            h.position() == 0,
            h.store() == *self,
            h.route_fn() == *router,
    {
        MiddlewareHandle::new(self, router)
    }
}

/// Where a request stands in the chain: the middleware it passes next, and the route
/// function that answers it after the last one.
pub struct MiddlewareHandle<'a, 'b, M, R> {
    store: &'a MiddlewareStore<M>,
    pointer: usize,
    router: &'b R,
}

impl<'a, 'b, M, R> MiddlewareHandle<'a, 'b, M, R> {
    /// The position of the middleware that the request passes next.
    pub closed spec fn position(self) -> int {
        self.pointer as int
    }

    /// The chain.
    pub closed spec fn store(self) -> MiddlewareStore<M> {
        *self.store
    }

    /// The route function at the end of the chain.
    pub closed spec fn route_fn(self) -> R {
        *self.router
    }

    /// A handle at the start of the chain `store`, ending at `router`.
    pub fn new(store: &'a MiddlewareStore<M>, router: &'b R) -> (h: MiddlewareHandle<'a, 'b, M, R>)
        ensures
            h.position() == 0,
            h.store() == *store,
            h.route_fn() == *router,
    {
        MiddlewareHandle { store, pointer: 0, router }
    }
}

/// `next` is the handle that the middleware at `h`'s position is called with: one
/// position further on, over the same chain and route function.
pub open spec fn passed_on<'a, 'b, M, R>(
    h: MiddlewareHandle<'a, 'b, M, R>,
    next: MiddlewareHandle<'a, 'b, M, R>,
) -> bool {
    &&& next.position() == h.position() + 1
    &&& next.store() == h.store()
    &&& next.route_fn() == h.route_fn()
}

/// `r` is an answer that the chain `store` gives, from its start and ending at `route`,
/// to `req` with `args`: what `next` returns on a handle at position 0.
pub open spec fn chain_answers<'a, 'b, M: Middleware, R: Fn(Request, Args) -> Response>(
    store: MiddlewareStore<M>,
    route: R,
    req: Request,
    args: Args,
    r: Response,
) -> bool {
    exists|h: &mut MiddlewareHandle<'a, 'b, M, R>|
        {
            &&& h.position() == 0
            &&& h.store() == store
            &&& h.route_fn() == route
            &&& call_ensures(MiddlewareHandle::<'a, 'b, M, R>::next, (h, req, args), r)
        }
}

impl<'a, 'b, M: Middleware, R: Fn(Request, Args) -> Response> MiddlewareHandle<'a, 'b, M, R> {
    /// Passes the request to the next middleware, or, after the last one, to the route
    /// function. While middleware remains, the answer is what the middleware at the
    /// handle's position answers when called with the handle moved on by one (what
    /// it does with the handle is its own affair); past the end of the chain the
    /// answer is the route function's and the handle stays as it was.
    pub fn next(&mut self, req: Request, args: Args) -> (r: Response)
        requires
            forall|q: Request, a: Args| call_requires(old(self).route_fn(), (q, a)),
        ensures
            old(self).position() >= old(self).store().items().len() ==> call_ensures(
                old(self).route_fn(),
                (req, args),
                r,
            ) && *final(self) == *old(self),
            old(self).position() < old(self).store().items().len() ==> exists|
                h: &mut MiddlewareHandle<'a, 'b, M, R>,
            |
                {
                    &&& passed_on(*old(self), *h)
                    &&& *final(h) == *final(self)
                    &&& call_ensures(
                        M::call::<R>,
                        (&old(self).store().items()[old(self).position()], req, args, h),
                        r,
                    )
                },
    {
        if self.pointer < self.store.middleware.len() {
            let store = self.store;
            let next = &store.middleware[self.pointer];
            self.pointer = self.pointer + 1;
            let call = M::call::<R>;
            let ghost passed = *self;
            let r = call(next, req, args, self);
            assert(passed_on(*old(self), passed));
            assert(exists|h: &mut MiddlewareHandle<'a, 'b, M, R>|
                call_ensures(call, (next, req, args, h), r) && *h == passed && *final(h)
                    == *final(self));
            r
        } else {
            assert(self.route_fn() == *self.router);
            assert(call_requires(*self.router, (req, args)));
            (*self.router)(req, args)
        }
    }
}

/// A chain whose middleware each answer by passing the request on through `next`
/// answers, from any position, what the route function answers for the request,
/// and leaves the handle at the end of the chain: each middleware after the position
/// passes once, in the order they were added, and then the route function answers.
pub proof fn lemma_pass_through_chain<'a, 'b, M: Middleware, R: Fn(Request, Args) -> Response>(
    k: nat,
)
    requires
        forall|m: &M, q: Request, a: Args, g: &mut MiddlewareHandle<'a, 'b, M, R>, x: Response|
            #[trigger] call_ensures(M::call::<R>, (m, q, a, g), x) ==> call_ensures(
                MiddlewareHandle::<'a, 'b, M, R>::next,
                (g, q, a),
                x,
            ),
    ensures
        forall|h: &mut MiddlewareHandle<'a, 'b, M, R>, q: Request, a: Args, x: Response|
            h.position() <= h.store().items().len() && h.store().items().len() - h.position() <= k
                && #[trigger] call_ensures(MiddlewareHandle::<'a, 'b, M, R>::next, (h, q, a), x)
                ==> call_ensures(h.route_fn(), (q, a), x) && final(h).position()
                == h.store().items().len(),
    decreases k,
{
    assert forall|h: &mut MiddlewareHandle<'a, 'b, M, R>, q: Request, a: Args, x: Response|
        h.position() <= h.store().items().len() && h.store().items().len() - h.position() <= k
            && #[trigger] call_ensures(MiddlewareHandle::<'a, 'b, M, R>::next, (h, q, a), x)
        implies call_ensures(h.route_fn(), (q, a), x) && final(h).position()
        == h.store().items().len() by {
        if h.position() < h.store().items().len() {
            let g = choose|g: &mut MiddlewareHandle<'a, 'b, M, R>|
                {
                    &&& passed_on(*h, *g)
                    &&& *final(g) == *final(h)
                    &&& call_ensures(
                        M::call::<R>,
                        (&h.store().items()[h.position()], q, a, g),
                        x,
                    )
                };
            assert(call_ensures(MiddlewareHandle::<'a, 'b, M, R>::next, (g, q, a), x));
            lemma_pass_through_chain::<M, R>((k - 1) as nat);
        }
    }
}

/// A chain without middleware answers what the route function answers for the request
/// and the arguments.
pub proof fn lemma_empty_chain_answers<'a, 'b, M: Middleware, R: Fn(Request, Args) -> Response>(
    store: MiddlewareStore<M>,
    route: R,
    req: Request,
    args: Args,
    r: Response,
)
    requires
        store.items().len() == 0,
        chain_answers(store, route, req, args, r),
    ensures
        call_ensures(route, (req, args), r),
{
    let h = choose|h: &mut MiddlewareHandle<'a, 'b, M, R>|
        {
            &&& h.position() == 0
            &&& h.store() == store
            &&& h.route_fn() == route
            &&& call_ensures(MiddlewareHandle::<'a, 'b, M, R>::next, (h, req, args), r)
        };
    assert(h.position() >= h.store().items().len());
}

} // verus!
