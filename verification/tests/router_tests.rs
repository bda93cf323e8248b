use custom_tcp_listener::router::count_slashes_in;
use custom_tcp_listener::{get, post, ERouterMethod, RouteError, Router};

fn routed(r: Result<Router<&'static str>, RouteError>) -> Router<&'static str> {
    match r {
        Ok(r) => r,
        Err(_) => panic!("route should register"),
    }
}

#[test]
fn new_router_has_no_keys() {
    let r: Router<&str> = Router::new();
    assert!(r.keys().is_empty());
}

#[test]
fn route_adds_pattern_key() {
    let r = routed(Router::new().route("/users/:id:".to_string(), get("user")));
    assert_eq!(r.keys(), &vec!["\\/users\\/(?<id>[^\\/]*)".to_string()]);
    let route = r.route_at(0, ERouterMethod::GET).expect("GET route");
    assert_eq!(route.handler, "user");
    assert_eq!(route.path, "/users/:id:");
    assert_eq!(route.parameters, vec!["id".to_string()]);
    assert!(r.route_at(0, ERouterMethod::POST).is_none());
}

#[test]
fn same_template_shares_one_key() {
    let r = routed(Router::new().route("/a".to_string(), get("first")));
    let r = routed(r.route("/a".to_string(), post("second")));
    let r = routed(r.route("/a".to_string(), get("third")));
    assert_eq!(r.keys().len(), 1);
    assert_eq!(r.route_at(0, ERouterMethod::GET).unwrap().handler, "third");
    assert_eq!(r.route_at(0, ERouterMethod::POST).unwrap().handler, "second");
}

#[test]
fn keys_keep_registration_order() {
    let r = routed(Router::new().route("/b".to_string(), get("b")));
    let r = routed(r.route("/a".to_string(), get("a")));
    assert_eq!(r.keys(), &vec!["\\/b".to_string(), "\\/a".to_string()]);
}

#[test]
fn invalid_pattern_is_refused() {
    match Router::new().route("/(".to_string(), get("x")) {
        Err(RouteError::InvalidPattern(p)) => assert_eq!(p, "\\/("),
        Ok(_) => panic!("an unbalanced group must not compile"),
    }
}

#[test]
fn deepest_matching_route_wins() {
    let r = routed(Router::new().route("/*".to_string(), get("any")));
    let r = routed(r.route("/users/:id:".to_string(), get("user")));
    assert_eq!(r.select_route(ERouterMethod::GET, "/users/7"), Some(1));
    assert_eq!(r.select_route(ERouterMethod::GET, "/other"), Some(0));
}

#[test]
fn first_registered_wins_a_tie() {
    let r = routed(Router::new().route("/:a:".to_string(), get("first")));
    let r = routed(r.route("/:b:".to_string(), get("second")));
    assert_eq!(r.select_route(ERouterMethod::GET, "/x"), Some(0));
}

#[test]
fn method_must_have_a_route() {
    let r = routed(Router::new().route("/a".to_string(), get("a")));
    assert_eq!(r.select_route(ERouterMethod::POST, "/a"), None);
    assert_eq!(r.select_route(ERouterMethod::GET, "/b"), None);
}

#[test]
fn unanchored_pattern_matches_inside_path() {
    let r = routed(Router::new().route("/a".to_string(), get("a")));
    assert_eq!(r.select_route(ERouterMethod::GET, "/x/a"), Some(0));
}

#[test]
fn slashes_are_counted() {
    assert_eq!(count_slashes_in(&"".to_string()), 0);
    assert_eq!(count_slashes_in(&"/a/b/".to_string()), 3);
}

#[test]
fn match_keys_marks_each_key() {
    let r = routed(Router::new().route("/a".to_string(), get("a")));
    let r = routed(r.route("/b/:x:".to_string(), get("b")));
    assert_eq!(r.match_keys("/b/1"), vec![false, true]);
    assert_eq!(r.match_keys("/a/b/c"), vec![true, true]);
    assert_eq!(r.match_keys("/c"), vec![false, false]);
}

#[test]
fn select_among_uses_given_matches() {
    let r = routed(Router::new().route("/a".to_string(), get("a")));
    let r = routed(r.route("/a/b".to_string(), get("ab")));
    let r = routed(r.route("/c".to_string(), post("c")));
    assert_eq!(r.select_among(ERouterMethod::GET, &vec![true, true, true]), Some(1));
    assert_eq!(r.select_among(ERouterMethod::GET, &vec![true, false, true]), Some(0));
    assert_eq!(r.select_among(ERouterMethod::GET, &vec![false, false, true]), None);
    assert_eq!(r.select_among(ERouterMethod::POST, &vec![false, false, true]), Some(2));
}
