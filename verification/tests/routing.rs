use lucifer::http::{Method, Request, Response};
use lucifer::router::{Args, Paths, RouteHandler};
use lucifer::str_map::StrMap;

type Handler = fn(Request, Args) -> Response;
type Router = Paths<Handler>;

fn one(_req: Request, _args: Args) -> Response {
    Response::new()
}

fn two(_req: Request, _args: Args) -> Response {
    let mut r = Response::new();
    r.set_status(201);
    r
}

fn found(r: (Option<Handler>, Args)) -> Option<Handler> {
    r.0
}

#[test]
fn stored_route_is_found_with_empty_fragment() {
    let mut router = Router::new_root();
    router.new_route("/a/b", one);
    let (f, args) = router.router("/a/b");
    assert!(f == Some(one as Handler));
    assert_eq!(args.get("#").unwrap(), "");
    assert!(args.get("*").is_none());
}

#[test]
fn other_routes_are_not_disturbed() {
    let mut router = Router::new_root();
    router.new_route("/a", one);
    assert!(found(router.router("/a/b")).is_none());
    router.new_route("/a/b", two);
    assert!(found(router.router("/a")) == Some(one as Handler));
    assert!(found(router.router("/a/b")) == Some(two as Handler));
    assert!(found(router.router("/a/c")).is_none());
    assert!(found(router.router("/b")).is_none());
    assert!(found(router.router("/")).is_none());
}

#[test]
fn storing_again_replaces_the_function() {
    let mut router = Router::new_root();
    router.new_route("/a", one);
    router.new_route("/a", two);
    assert!(found(router.router("/a")) == Some(two as Handler));
}

#[test]
fn query_and_fragment_become_arguments() {
    let mut router = Router::new_root();
    router.new_route("/search", one);
    let (f, args) = router.router("/search?q=rust&page=2#top");
    assert!(f == Some(one as Handler));
    assert_eq!(args.get("?q").unwrap(), "rust");
    assert_eq!(args.get("?page").unwrap(), "2");
    assert_eq!(args.get("#").unwrap(), "top");
}

#[test]
fn router_with_args_keeps_given_arguments() {
    let mut router = Router::new_root();
    router.new_route("/x", one);
    let mut args = StrMap::new();
    args.insert(String::from("given"), String::from("yes"));
    args.insert(String::from("#"), String::from("old"));
    let (f, args) = router.router_with_args("/x#new", args);
    assert!(f == Some(one as Handler));
    assert_eq!(args.get("given").unwrap(), "yes");
    assert_eq!(args.get("#").unwrap(), "new");
}

#[test]
fn wildcard_takes_the_rest() {
    let mut router = Router::new_root();
    router.new_route("/files/*", one);
    let (f, args) = router.router("/files/x/y");
    assert!(f == Some(one as Handler));
    assert_eq!(args.get("*").unwrap(), "/x/y");
    // The wildcard node holds the function itself, so the bare prefix routes too.
    let (f, args) = router.router("/files");
    assert!(f == Some(one as Handler));
    assert!(args.get("*").is_none());
}

#[test]
fn variable_binds_the_segment() {
    let mut router = Router::new_root();
    router.new_route("/users/:id/posts", two);
    let (f, args) = router.router("/users/42/posts");
    assert!(f == Some(two as Handler));
    assert_eq!(args.get(":id").unwrap(), "42");
    assert!(found(router.router("/users/42")).is_none());
}

#[test]
fn fixed_node_shadows_variable() {
    let mut router = Router::new_root();
    router.new_route("/:v/x", one);
    router.new_route("/a/y", two);
    assert!(found(router.router("/b/x")) == Some(one as Handler));
    assert!(found(router.router("/a/x")).is_none());
}

#[test]
fn empty_segment_stores_nothing() {
    let mut router = Router::new_root();
    router.new_route("/a//b", one);
    assert!(found(router.router("/a//b")).is_none());
    assert!(found(router.router("/a")).is_none());
}

#[test]
fn find_sub_by_name() {
    let mut router = Router::new_root();
    router.new_route("/a/b", one);
    assert!(router.find_sub("a").is_some());
    assert!(router.find_sub("b").is_none());
}

#[test]
fn route_vec_edges() {
    assert_eq!(Router::route_vec("a/b"), vec!["b"]);
    assert_eq!(Router::route_vec("a"), vec!["a"]);
    assert!(Router::route_vec("").is_empty());
    assert_eq!(Router::route_vec("//"), vec![""]);
    assert_eq!(Router::route_vec("/a//b/"), vec!["a", "", "b"]);
    assert_eq!(Router::route_vec("/\u{e9}t\u{e9}/x"), vec!["\u{e9}t\u{e9}", "x"]);
}

#[test]
fn query_pairs_edges() {
    assert_eq!(Router::route_query_vec("a=b=c"), vec![("a", "b=c"), ("a=b", "c")]);
    assert!(Router::route_query_vec("").is_empty());
    assert!(Router::route_query_vec("flag").is_empty());
    assert_eq!(Router::route_query_vec("a=&=b"), vec![("a", ""), ("", "b")]);
}

#[test]
fn last_question_mark_and_hash_split() {
    assert_eq!(Router::route_query_str("/a?b?c"), ("/a?b", "c"));
    assert_eq!(Router::route_query_str("/a"), ("/a", ""));
    assert_eq!(Router::route_fragment_str("/a#b#c"), ("/a#b", "c"));
    let (route, query, fragment) = Router::split_uri("/a#x?y=1");
    assert_eq!(route, vec!["a"]);
    assert!(query.is_empty());
    assert_eq!(fragment, "x?y=1");
}

#[test]
fn route_handler_keeps_methods_apart() {
    let mut routes: RouteHandler<Handler> = RouteHandler::new();
    routes.add_route(Method::GET, "/", one);
    routes.add_route(Method::POST, "/", two);
    assert!(found(routes.get_route(Method::GET, "/")) == Some(one as Handler));
    assert!(found(routes.get_route(Method::POST, "/")) == Some(two as Handler));
    assert!(found(routes.get_route(Method::PUT, "/")).is_none());
    assert!(found(routes.get_route(Method::DELETE, "/")).is_none());
}

#[test]
fn str_map_insert_and_get() {
    let mut m = StrMap::new();
    assert!(m.get("k").is_none());
    m.insert(String::from("k"), String::from("1"));
    m.insert(String::from("j"), String::from("2"));
    m.insert(String::from("k"), String::from("3"));
    assert_eq!(m.get("k").unwrap(), "3");
    assert_eq!(m.get("j").unwrap(), "2");
    assert!(m.get("x").is_none());
}

#[test]
fn stored_route_survives_variable_routes() {
    let mut router = Router::new_root();
    router.new_route("/a/x", one);
    router.new_route("/:v/y", two);
    router.new_route("/a/:w", two);
    let (f, args) = router.router("/a/x");
    assert!(f == Some(one as Handler));
    assert_eq!(args.get("#").unwrap(), "");
    assert!(args.get(":v").is_none());
    assert!(args.get(":w").is_none());
}

#[test]
fn stored_route_is_found_among_variable_nodes() {
    let mut router = Router::new_root();
    router.new_route("/:v/y", two);
    router.new_route("/a/x", one);
    assert!(found(router.router("/a/x")) == Some(one as Handler));
}

#[test]
fn failed_routing_adds_only_query_and_fragment() {
    let mut router = Router::new_root();
    router.new_route("/:v/y", one);
    router.new_route("/files/*", two);
    let (f, args) = router.router("/a/b?k=1#frag");
    assert!(f.is_none());
    assert_eq!(args.get("?k").unwrap(), "1");
    assert_eq!(args.get("#").unwrap(), "frag");
    assert!(args.get(":v").is_none());
    assert!(args.get("*").is_none());
}

#[test]
fn function_found_does_not_depend_on_given_arguments() {
    let mut router = Router::new_root();
    router.new_route("/a/:id", one);
    let mut args = StrMap::new();
    args.insert(String::from(":id"), String::from("given"));
    args.insert(String::from("other"), String::from("x"));
    let (f, out) = router.router_with_args("/a/7#top", args);
    assert!(f == Some(one as Handler));
    assert!(found(router.router("/a/7#top")) == Some(one as Handler));
    assert_eq!(out.get(":id").unwrap(), "7");
    assert_eq!(out.get("other").unwrap(), "x");
    assert_eq!(out.get("#").unwrap(), "top");
}
