use lucifer::handler::{
    middleware_route_call, read_step, respond, root, route404, ReadStep, RequestReader, CHUNK_SIZE,
    MAX_CHUNKS, ROOT_PAGE,
};
use lucifer::http::{Method, Request, Response};
use lucifer::middleware::{Middleware, MiddlewareHandle, MiddlewareStore};
use lucifer::router::{Args, RouteHandler};
use lucifer::str_map::StrMap;

type Handler = fn(Request, Args) -> Response;

/// Adds a header line to what the rest of the chain answers.
struct Tag(&'static str);

impl Middleware for Tag {
    fn call<R: Fn(Request, Args) -> Response>(
        &self,
        req: Request,
        args: Args,
        handle: &mut MiddlewareHandle<Self, R>,
    ) -> Response {
        let mut res = handle.next(req, args);
        res.add_header(String::from(self.0));
        res
    }
}

/// Answers every request itself with status 403.
struct Deny;

impl Middleware for Deny {
    fn call<R: Fn(Request, Args) -> Response>(
        &self,
        _req: Request,
        _args: Args,
        _handle: &mut MiddlewareHandle<Self, R>,
    ) -> Response {
        let mut res = Response::new();
        res.set_status(403);
        res
    }
}

fn echo_id(_req: Request, args: Args) -> Response {
    let mut res = Response::new();
    res.send_message(args.get(":id").map(|s| s.as_str()).unwrap_or("none"));
    res
}

fn request(target: &str) -> Request {
    Request { method: Method::GET, target: String::from(target), options: StrMap::new(), body: Vec::new() }
}

fn sample_routes() -> RouteHandler<Handler> {
    let mut routes: RouteHandler<Handler> = RouteHandler::new();
    routes.add_route(Method::GET, "/", root);
    routes.add_route(Method::GET, "/item/:id", echo_id);
    routes
}

#[test]
fn route404_answers_not_found() {
    let r = route404(request("/"), StrMap::new());
    assert_eq!(r.status, 404);
    assert!(r.fields.is_empty());
    assert!(r.body.is_empty());
}

#[test]
fn root_serves_the_page() {
    let r = root(request("/"), StrMap::new());
    assert_eq!(r.status, 200);
    assert_eq!(r.body, ROOT_PAGE.as_bytes().to_vec());
    assert!(ROOT_PAGE.contains("<h1>This is a Heading</h1>"));
}

#[test]
fn call_without_middleware_reaches_route() {
    let store: MiddlewareStore<Tag> = MiddlewareStore::new();
    let r = middleware_route_call(request("/item/7"), &sample_routes(), &store);
    assert_eq!(r.status, 200);
    assert_eq!(r.body, b"7".to_vec());
}

#[test]
fn call_of_unknown_route_gives_404() {
    let store: MiddlewareStore<Tag> = MiddlewareStore::new();
    let r = middleware_route_call(request("/nowhere"), &sample_routes(), &store);
    assert_eq!(r.status, 404);
}

#[test]
fn middleware_runs_in_order() {
    let mut store = MiddlewareStore::new();
    store.add(Tag("A: 1"));
    store.add(Tag("B: 2"));
    let r = middleware_route_call(request("/item/x"), &sample_routes(), &store);
    assert_eq!(r.body, b"x".to_vec());
    assert_eq!(r.fields, vec![String::from("B: 2"), String::from("A: 1")]);
}

#[test]
fn middleware_can_answer_itself() {
    let mut store = MiddlewareStore::new();
    store.add(Deny);
    let r = middleware_route_call(request("/"), &sample_routes(), &store);
    assert_eq!(r.status, 403);
}

#[test]
fn handle_past_the_end_calls_router() {
    let store: MiddlewareStore<Tag> = MiddlewareStore::new();
    let f = |_req: Request, _args: Args| {
        let mut r = Response::new();
        r.set_status(202);
        r
    };
    let mut handle = store.get_handle(&f);
    let r = handle.next(request("/"), StrMap::new());
    assert_eq!(r.status, 202);
    let mut handle = MiddlewareHandle::new(&store, &f);
    assert_eq!(handle.next(request("/"), StrMap::new()).status, 202);
}

#[test]
fn respond_to_bytes() {
    let store: MiddlewareStore<Tag> = MiddlewareStore::new();
    let out = respond(b"GET /item/abc HTTP/1.1\r\nHost: h\r\n\r\n\0\0", &sample_routes(), &store);
    assert_eq!(out, b"HTTP/1.1 200 OK\r\nabc".to_vec());
    let out = respond(b"BREW / HTTP/1.1\r\n\r\n", &sample_routes(), &store);
    assert_eq!(out, b"HTTP/1.1 404 Not Found\r\n".to_vec());
    let out = respond(b"GET /missing HTTP/1.1\r\n\r\n", &sample_routes(), &store);
    assert_eq!(out, b"HTTP/1.1 404 Not Found\r\n".to_vec());
}

#[test]
fn read_steps() {
    assert_eq!(read_step(0), ReadStep::Closed);
    assert_eq!(read_step(10), ReadStep::Complete);
    assert_eq!(read_step(CHUNK_SIZE), ReadStep::More);
}

#[test]
fn request_reader_keeps_whole_chunks() {
    let mut reader = RequestReader::new();
    let mut first = vec![0u8; CHUNK_SIZE];
    first[0] = b'G';
    assert_eq!(reader.take(first, CHUNK_SIZE), ReadStep::More);
    let mut second = vec![0u8; CHUNK_SIZE];
    second[0] = b'E';
    assert_eq!(reader.take(second, 1), ReadStep::Complete);
    let bytes = reader.into_bytes();
    assert_eq!(bytes.len(), 2 * CHUNK_SIZE);
    assert_eq!(bytes[0], b'G');
    assert_eq!(bytes[CHUNK_SIZE], b'E');
}

#[test]
fn request_reader_closes_on_empty_read() {
    let mut reader = RequestReader::new();
    assert_eq!(reader.take(vec![1u8; CHUNK_SIZE], CHUNK_SIZE), ReadStep::More);
    assert_eq!(reader.take(vec![0u8; CHUNK_SIZE], 0), ReadStep::Closed);
}

#[test]
fn request_reader_stops_after_the_last_read() {
    let mut reader = RequestReader::new();
    for _ in 1..MAX_CHUNKS {
        assert_eq!(reader.take(vec![b'a'; CHUNK_SIZE], CHUNK_SIZE), ReadStep::More);
    }
    assert_eq!(reader.take(vec![b'a'; CHUNK_SIZE], CHUNK_SIZE), ReadStep::Complete);
    assert_eq!(reader.into_bytes().len(), MAX_CHUNKS * CHUNK_SIZE);
}
