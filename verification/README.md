# lucifer

A small web server library with its own HTTP handling, routing and middleware,
verified with Verus.

- `src/http/`: request parsing (`request.rs`: the request line, header fields and
  body read off the wire), responses (`response.rs`: status line, header lines,
  rendering and the bytes for the wire) and content types.
- `src/router/`: the routing tree (`paths.rs`: splitting URIs into segments, query
  pairs and fragment; storing route functions; looking them up with variable and
  wildcard segments), one tree per method (`route_handler.rs`), and what routing
  gives back of what was stored (`laws.rs`).
- `src/middleware.rs`: the chain of middleware a request passes.
- `src/handler.rs`: reading a request chunk by chunk, and from the bytes of a
  request to the bytes of its answer.
- `src/str_map.rs`: the string map used for header fields and route arguments.
- `src/text.rs`: character-level helpers.
- `app/main.rs`: the demo server: sockets, worker threads and the read loop.

Route functions are a type parameter (`Paths<F>`, `RouteHandler<F>`); a server
uses `fn(Request, Args) -> Response`.
