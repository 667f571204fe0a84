use lucifer::http::{Request, Response};
use lucifer::router::{Args, Paths};

type Handler = fn(Request, Args) -> Response;
type Router = Paths<Handler>;

fn empty(_req: Request, _args: Args) -> Response {
    let mut res = Response::new();
    res.send_message("empty");
    res
}

fn test1(_req: Request, _args: Args) -> Response {
    let mut res = Response::new();
    res.send_message("test1");
    res
}

#[test]
fn route_vec() {
    let route = "/some/thing";
    let v = Router::route_vec(route);
    assert_eq!(v.len(), 2);
    assert_eq!(v[0], "some");
    assert_eq!(v[1], "thing");

    let route = "/";
    let v = Router::route_vec(route);
    assert_eq!(v.len(), 0);
}

#[test]
fn routes() {
    let mut router = Router::new_root();
    router.new_route("/other/object", empty);
    router.new_route("/some/thing", test1);
    router.new_route("/", empty);
    let test = router.find_sub("some");
    match test {
        Some(_route) => {}
        None => panic!("Route not found"),
    }
    let test = router.router("/some/thing");
    match test {
        (Some(func), _args) => {
            if func != test1 as Handler {
                panic!("wrong return value")
            }
        }
        (None, _) => panic!("Router fn does not return Some."),
    }
    let test = router.router("/some/thing");
    match test {
        (Some(func), _args) => {
            if func != test1 as Handler {
                panic!("wrong return value 2nd visit")
            }
        }
        (None, _) => panic!("Router fn does not return Some at 2nd visit."),
    }
    let test = router.router("/other/object");
    match test {
        (Some(func), _args) => {
            if func != empty as Handler {
                panic!("wrong return value")
            }
        }
        (None, _) => panic!("Router fn does not return Some."),
    }

    let test = router.router("/");
    match test {
        (Some(func), _args) => {
            if func != empty as Handler {
                panic!("wrong return value")
            }
        }
        (None, _) => panic!("Router fn does not return Some at /."),
    }
}

#[test]
fn variable_routes() {
    let mut router = Router::new_root();
    router.new_route("/:variables/test", empty);
    router.new_route("/test/:variables/test2", empty);
    let test = router.router("/test/random/test2");
    match test {
        (Some(_func), args) => match args.get(":variables") {
            Some(s) => assert_eq!(s, "random"),
            None => panic!("Variable not found"),
        },
        (None, _) => panic!("Router fn does not return Some with variables."),
    }
}

#[test]
fn wildcard_routes() {
    let mut router = Router::new_root();
    router.new_route("/test/*", empty);

    let test = router.router("/test/random/test2");
    match test {
        (Some(_func), args) => match args.get("*") {
            Some(s) => assert_eq!(s, "/random/test2"),
            None => panic!("Wildcard not found"),
        },
        (None, _) => panic!("Router fn does not return Some with wildcard route."),
    }
}

#[test]
fn fragment() {
    let route = "/some/thing#fragment";
    let (route, res) = Router::route_fragment_str(route);
    assert_eq!(res, "fragment");
    assert_eq!(route, "/some/thing");
}

#[test]
fn query() {
    let route = "/some?test=one";
    let (_, query) = Router::route_query_str(route);
    assert_eq!(query, "test=one");
    let res = Router::route_query_vec(query);
    assert_eq!(res, vec![("test", "one")]);

    let route = "/some?test=one&testing=two&three=something";
    let (_, query) = Router::route_query_str(route);
    assert_eq!(query, "test=one&testing=two&three=something");
    let res = Router::route_query_vec(query);
    assert_eq!(res, vec![("test", "one"), ("testing", "two"), ("three", "something")]);
}

#[test]
fn add_query_to_args() {
    let query = vec![("test", "one"), ("testing", "two"), ("three", "something")];
    let mut args = Args::new();
    Router::add_query_to_args(query, &mut args);
    match args.get("?testing") {
        Some(value) => assert_eq!(value, "two"),
        None => panic!("Query key not found."),
    }
}

#[test]
fn split_uri() {
    let uri = "/some?name=test#frag";
    let (route, query, fragment) = Router::split_uri(uri);
    assert_eq!(query, vec![("name", "test")]);
    assert_eq!(fragment, "frag");
    assert_eq!(route, vec!["some"]);
}
