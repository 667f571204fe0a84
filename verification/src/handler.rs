//! Answering requests: from the bytes read off a connection to the bytes written back.
use crate::http::request::{parse_request, Values};
use crate::http::response::{status_line, wire_bytes};
use crate::http::{ContentType, Request, Response};
use crate::middleware::{chain_answers, Middleware, MiddlewareHandle, MiddlewareStore};
use crate::router::paths::route_request;
use crate::router::{Args, RouteHandler};
use vstd::prelude::*;
use vstd::utf8::encode_utf8;

verus! {

/// The number of bytes asked for by each read from a connection.
pub const CHUNK_SIZE: usize = 2048;

/// The most reads that one request is read with.
pub const MAX_CHUNKS: usize = 32;

/// What to do after a read of a request from a connection.
#[derive(Clone, Copy, Debug, PartialEq, Eq, Structural)]
pub enum ReadStep {
    /// Nothing was read: the connection is done.
    Closed,
    /// The chunk was not filled: the request is complete.
    Complete,
    /// The chunk was filled: read on.
    More,
}

/// Decides, from the number of bytes that a read of a `CHUNK_SIZE` chunk gave,
/// whether the connection is done, the request is complete, or more is to be read.
pub fn read_step(len: usize) -> (r: ReadStep)
    ensures
        len == 0 ==> r == ReadStep::Closed,
        len != 0 && len != CHUNK_SIZE ==> r == ReadStep::Complete,
        len == CHUNK_SIZE ==> r == ReadStep::More,
{
    if len == 0 {
        ReadStep::Closed
    } else if len != CHUNK_SIZE {
        ReadStep::Complete
    } else {
        ReadStep::More
    }
}

/// A request being read off a connection: the chunks read so far, each kept whole,
/// and how many reads were made.
pub struct RequestReader {
    buffer: Vec<u8>,
    reads: usize,
}

impl RequestReader {
    /// The bytes of the chunks taken so far, in order.
    pub closed spec fn bytes(self) -> Seq<u8> {
        self.buffer@
    }

    /// The number of reads taken so far.
    pub closed spec fn reads(self) -> nat {
        self.reads as nat
    }

    /// A reader before the first read.
    pub fn new() -> (r: RequestReader)
        ensures
            r.bytes() == Seq::<u8>::empty(),
            r.reads() == 0,
    {
        RequestReader { buffer: Vec::new(), reads: 0 }
    }

    /// Takes the chunk of a read that filled `len` of its bytes, and says what to do
    /// next. A read of nothing closes the request and adds nothing. Any other chunk
    /// is added whole; the request is complete when the chunk was not filled or when
    /// this was read number `MAX_CHUNKS`, and more is to be read otherwise.
    pub fn take(&mut self, chunk: Vec<u8>, len: usize) -> (r: ReadStep)
        requires
            old(self).reads() < MAX_CHUNKS,
        ensures
            final(self).reads() == old(self).reads() + 1,
            len == 0 ==> r == ReadStep::Closed && final(self).bytes() == old(self).bytes(),
            len != 0 ==> final(self).bytes() == old(self).bytes() + chunk@,
            len != 0 ==> r == if len != CHUNK_SIZE || final(self).reads() == MAX_CHUNKS {
                ReadStep::Complete
            } else {
                ReadStep::More
            },
    {
        self.reads = self.reads + 1;
        let step = read_step(len);
        match step {
            ReadStep::Closed => ReadStep::Closed,
            _ => {
                let mut chunk = chunk;
                self.buffer.append(&mut chunk);
                if self.reads == MAX_CHUNKS {
                    ReadStep::Complete
                } else {
                    step
                }
            },
        }
    }

    /// The bytes read.
    pub fn into_bytes(self) -> (r: Vec<u8>)
        ensures
            r@ == self.bytes(),
    {
        self.buffer
    }
}

/// The page that the root route serves.
pub const ROOT_PAGE: &'static str = " <!DOCTYPE html>
<html>
<head>
<title>Page Title</title>
</head>
<body>

<h1>This is a Heading</h1>
<p>This is a paragraph.</p>

</body>
</html> ";

/// Serves the root page.
pub fn root(_req: Request, _args: Args) -> (r: Response)
    ensures
        r.status == 200,
        r.fields@.len() == 0,
        r.content_type == ContentType::HTML,
        r.body@ == encode_utf8(ROOT_PAGE@),
{
    let mut res = Response::new();
    res.send_message(ROOT_PAGE);
    res
}

/// Answers a request for which no route exists: status 404, no header lines, no body.
pub fn route404(_req: Request, _args: Args) -> (r: Response)
    ensures
        r.status == 404,
        r.fields@.len() == 0,
        r.content_type == ContentType::HTML,
        r.body@.len() == 0,
{
    let mut res = Response::new();
    res.set_status(404);
    res
}

/// Routes a request and passes it through the middleware to the route function found,
/// or to `route404` when there is none. Without middleware, the answer is what that
/// function returns for the request and the arguments that routing found.
pub fn middleware_route_call<F, M>(
    req: Request,
    router: &RouteHandler<F>,
    middleware: &MiddlewareStore<M>,
) -> (r: Response) where F: Fn(Request, Args) -> Response + Copy, M: Middleware
    requires
        forall|f: F, q: Request, a: Args| call_requires(f, (q, a)),
    ensures
        match route_request(router.tree(req.method), req.target@, Map::empty()).0 {
            Some(f) => exists|a: Args|
                a.view() == route_request(router.tree(req.method), req.target@, Map::empty()).1
                    && chain_answers(*middleware, f, req, a, r),
            None => exists|a: Args|
                a.view() == route_request(router.tree(req.method), req.target@, Map::empty()).1
                    && chain_answers(*middleware, route404, req, a, r),
        },
        middleware.items().len() == 0 ==> match route_request(
            router.tree(req.method),
            req.target@,
            Map::empty(),
        ).0 {
            Some(f) => exists|a: Args|
                a.view() == route_request(router.tree(req.method), req.target@, Map::empty()).1
                    && call_ensures(f, (req, a), r),
            None => r.status == 404 && r.fields@.len() == 0 && r.body@.len() == 0,
        },
{
    let (handle, args) = router.get_route(req.method, req.target.as_str());
    let ghost a = args;
    match handle {
        Some(f) => {
            let mut mw = middleware.get_handle(&f);
            let next = MiddlewareHandle::<M, F>::next;
            let ghost start = mw;
            let r = next(&mut mw, req, args);
            assert(exists|h: &mut MiddlewareHandle<M, F>|
                call_ensures(next, (h, req, a), r) && *h == start);
            r
        },
        None => {
            let func = route404;
            let mut mw = middleware.get_handle(&func);
            let next = MiddlewareHandle::next;
            let ghost start = mw;
            let r = next(&mut mw, req, args);
            assert(exists|h: &mut MiddlewareHandle<M, _>|
                call_ensures(next, (h, req, a), r) && *h == start);
            r
        },
    }
}

/// The bytes that answer the request in `buffer`: a 404 response when the request
/// cannot be parsed, else the response that the middleware and the route give.
pub fn respond<F, M>(buffer: &[u8], router: &RouteHandler<F>, middleware: &MiddlewareStore<M>) -> (r:
    Vec<u8>) where F: Fn(Request, Args) -> Response + Copy, M: Middleware
    requires
        buffer@.len() > 0,
        forall|f: F, q: Request, a: Args| call_requires(f, (q, a)),
    ensures
        parse_request(buffer@) is None ==> r@ == encode_utf8(status_line(404)),
        parse_request(buffer@) matches Some(v) ==> exists|q: Request, resp: Response|
            {
                &&& q.method == v.method
                &&& q.target@ == v.target
                &&& q.options.view() == v.options
                &&& q.body@ == v.body
                &&& call_ensures(middleware_route_call::<F, M>, (q, router, middleware), resp)
                &&& r@ == wire_bytes(resp)
            },
        parse_request(buffer@) matches Some(v) ==> middleware.items().len() == 0 ==> match route_request(
            router.tree(v.method),
            v.target,
            Map::empty(),
        ).0 {
            Some(f) => exists|q: Request, a: Args, resp: Response|
                {
                    &&& q.method == v.method
                    &&& q.target@ == v.target
                    &&& q.options.view() == v.options
                    &&& q.body@ == v.body
                    &&& a.view() == route_request(router.tree(v.method), v.target, Map::empty()).1
                    &&& call_ensures(f, (q, a), resp)
                    &&& r@ == wire_bytes(resp)
                },
            None => r@ == encode_utf8(status_line(404)),
        },
{
    match Values::new(buffer) {
        Some(values) => {
            let req = values.into_request();
            let ghost q = req;
            let call = middleware_route_call::<F, M>;
            let res = call(req, router, middleware);
            let bytes = res.to_bytes();
            proof {
                assert(call_ensures(call, (q, router, middleware), res) && bytes@ == wire_bytes(
                    res,
                ));
                if middleware.items().len() == 0 {
                    match route_request(router.tree(q.method), q.target@, Map::empty()).0 {
                        Some(f) => {
                            let a = choose|a: Args|
                                a.view() == route_request(
                                    router.tree(q.method),
                                    q.target@,
                                    Map::empty(),
                                ).1 && call_ensures(f, (q, a), res);
                            assert(call_ensures(f, (q, a), res) && bytes@ == wire_bytes(res));
                        },
                        None => {
                            assert(res.field_views() =~= Seq::<Seq<char>>::empty());
                            assert(crate::http::response::head_of(res) =~= status_line(404));
                            assert(wire_bytes(res) =~= encode_utf8(status_line(404)));
                        },
                    }
                }
            }
            bytes
        },
        None => {
            let mut res = Response::new();
            res.set_status(404);
            let bytes = res.to_bytes();
            proof {
                assert(res.field_views() =~= Seq::<Seq<char>>::empty());
                assert(crate::http::response::head_of(res) =~= status_line(404));
                assert(wire_bytes(res) =~= encode_utf8(status_line(404)));
            }
            bytes
        },
    }
}

} // verus!
