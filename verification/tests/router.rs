use server_utils::reply::{Body, Reply};
use server_utils::text::starts_with;
use server_utils::router::{
    forward, path_of, reject, request_segments, route_from_path, route_vec_to_string,
    trim_route_string_from_request, Dispatch, Router,
};

fn route(segments: &[&str]) -> Vec<String> {
    segments.iter().map(|s| s.to_string()).collect()
}

fn text_of(reply: &Reply) -> String {
    match &reply.body {
        Body::Text(text) => text.clone(),
        _ => panic!("expected a text body"),
    }
}

#[test]
fn most_specific_route_wins() {
    let mut router: Router<&'static str> = Router::new();
    router.with_route_fn(route_from_path("api"), "api");
    router.with_route_fn(route_from_path("api/ping"), "ping");
    match router.call("/api/ping/extra") {
        Dispatch::Forward { route, target } => {
            assert_eq!(*router.handler(route), "ping");
            assert_eq!(target, "/extra");
        }
        other => panic!("expected a forward, got {:?}", other),
    }
}

#[test]
fn most_specific_route_wins_in_either_order() {
    let mut router: Router<u8> = Router::new();
    router.with_route_fn(route(&["api", "ping"]), 2);
    router.with_route_fn(route(&["api"]), 1);
    router.with_route_fn(route(&[]), 0);
    match router.call("/api/ping/extra") {
        Dispatch::Forward { route, target } => {
            assert_eq!(*router.handler(route), 2);
            assert_eq!(target, "/extra");
        }
        other => panic!("expected a forward, got {:?}", other),
    }
    match router.call("/api/other") {
        Dispatch::Forward { route, target } => {
            assert_eq!(*router.handler(route), 1);
            assert_eq!(target, "/other");
        }
        other => panic!("expected a forward, got {:?}", other),
    }
    match router.call("/index.html") {
        Dispatch::Forward { route, target } => {
            assert_eq!(*router.handler(route), 0);
            assert_eq!(target, "/index.html");
        }
        other => panic!("expected a forward, got {:?}", other),
    }
}

#[test]
fn second_registration_is_detected() {
    let mut router: Router<u8> = Router::new();
    assert!(!router.contains_route(&route_from_path("api/ping")));
    router.with_route_fn(route_from_path("api/ping"), 1);
    assert!(router.contains_route(&route_from_path("api/ping")));
    assert!(router.contains_route(&route(&["api", "ping"])));
    assert!(!router.contains_route(&route(&["api"])));
    assert!(!router.contains_route(&route(&["api", "ping", "x"])));
    assert_eq!(router.len(), 1);
}

#[test]
fn unregistered_path_is_not_found() {
    let mut router: Router<u8> = Router::new();
    router.with_route_fn(route(&["api"]), 1);
    match router.call("/nope") {
        Dispatch::Respond(reply) => {
            assert_eq!(reply.status, 404);
            assert_eq!(reply.content_type, None);
            assert_eq!(text_of(&reply), "Resource not found for path: /nope");
        }
        other => panic!("expected a reply, got {:?}", other),
    }
}

#[test]
fn not_found_names_the_path_without_the_query() {
    let router: Router<u8> = Router::new();
    match router.call("/nope/deeper?x=1") {
        Dispatch::Respond(reply) => {
            assert_eq!(reply.status, 404);
            assert_eq!(text_of(&reply), "Resource not found for path: /nope/deeper");
        }
        other => panic!("expected a reply, got {:?}", other),
    }
}

#[test]
fn prefix_must_match_whole_segments() {
    let mut router: Router<u8> = Router::new();
    router.with_route_fn(route(&["api"]), 1);
    match router.call("/apiary") {
        Dispatch::Respond(reply) => assert_eq!(reply.status, 404),
        other => panic!("expected a reply, got {:?}", other),
    }
}

#[test]
fn query_is_preserved() {
    let mut router: Router<u8> = Router::new();
    router.with_route_fn(route(&["api"]), 1);
    match router.call("/api/items/7?full=yes&n=2") {
        Dispatch::Forward { route, target } => {
            assert_eq!(route, 0);
            assert_eq!(target, "/items/7?full=yes&n=2");
        }
        other => panic!("expected a forward, got {:?}", other),
    }
}

#[test]
fn exact_match_forwards_the_root() {
    let mut router: Router<u8> = Router::new();
    router.with_route_fn(route(&["api", "ping"]), 1);
    match router.call("/api/ping") {
        Dispatch::Forward { route, target } => {
            assert_eq!(route, 0);
            assert_eq!(target, "/");
        }
        other => panic!("expected a forward, got {:?}", other),
    }
    match router.call("/api/ping/?a=b") {
        Dispatch::Forward { target, .. } => assert_eq!(target, "/?a=b"),
        other => panic!("expected a forward, got {:?}", other),
    }
}

#[test]
fn prefix_is_removed_once() {
    let mut router: Router<u8> = Router::new();
    router.with_route_fn(route(&["a"]), 1);
    match router.call("/a/a/b") {
        Dispatch::Forward { target, .. } => assert_eq!(target, "/a/b"),
        other => panic!("expected a forward, got {:?}", other),
    }
}

#[test]
fn rejected_rewrite_is_a_bad_request() {
    let mut router: Router<u8> = Router::new();
    router.with_route_fn(route(&["api"]), 1);
    match router.call("/api/a b") {
        Dispatch::Respond(reply) => {
            assert_eq!(reply.status, 400);
            assert_eq!(text_of(&reply), "Invalid request path: /api/a b");
        }
        other => panic!("expected a reply, got {:?}", other),
    }
}

#[test]
fn forward_keeps_the_parsed_target() {
    match forward(3, "/x/y", Ok("/y".to_string())) {
        Dispatch::Forward { route, target } => {
            assert_eq!(route, 3);
            assert_eq!(target, "/y");
        }
        other => panic!("expected a forward, got {:?}", other),
    }
    let rejected = "no slash".parse::<http::uri::PathAndQuery>().unwrap_err();
    match forward(3, "/x/y", Err(rejected)) {
        Dispatch::Respond(reply) => {
            assert_eq!(reply.status, 400);
            assert_eq!(text_of(&reply), "Invalid request path: /x/y");
        }
        other => panic!("expected a reply, got {:?}", other),
    }
}

#[test]
fn fragment_is_cut_by_the_parser() {
    let mut router: Router<u8> = Router::new();
    router.with_route_fn(route(&["api"]), 1);
    match router.call("/api/page?x=1#top") {
        Dispatch::Forward { target, .. } => assert_eq!(target, "/page?x=1"),
        other => panic!("expected a forward, got {:?}", other),
    }
}

#[test]
fn route_string_puts_each_segment_behind_a_slash() {
    assert_eq!(route_vec_to_string(&route(&[])), "");
    assert_eq!(route_vec_to_string(&route(&["api"])), "/api");
    assert_eq!(route_vec_to_string(&route(&["api", "ping"])), "/api/ping");
    assert_eq!(route_vec_to_string(&route(&["a", "", "b"])), "/a//b");
}

#[test]
fn segments_drop_outer_slashes() {
    assert_eq!(request_segments("/api/ping/extra"), route(&["api", "ping", "extra"]));
    assert_eq!(request_segments("//api/ping//"), route(&["api", "ping"]));
    assert_eq!(request_segments("/a//b"), route(&["a", "", "b"]));
    assert_eq!(request_segments("/"), route(&[""]));
    assert_eq!(request_segments(""), route(&[""]));
    assert_eq!(request_segments("/a/b?c/d"), route(&["a", "b"]));
    assert_eq!(request_segments("///?x"), route(&[""]));
}

#[test]
fn path_stops_at_the_query() {
    assert_eq!(path_of("/a/b?c=d"), "/a/b");
    assert_eq!(path_of("/a/b"), "/a/b");
    assert_eq!(path_of("?c"), "/");
    assert_eq!(path_of(""), "/");
    assert_eq!(path_of("/?c"), "/");
    assert_eq!(path_of("*"), "*");
}

#[test]
fn trimming_more_than_there_is_leaves_the_root() {
    assert_eq!(trim_route_string_from_request("/a/b", 0), "/a/b");
    assert_eq!(trim_route_string_from_request("/a/b", 1), "/b");
    assert_eq!(trim_route_string_from_request("/a/b", 2), "/");
    assert_eq!(trim_route_string_from_request("/a/b", 5), "/");
    assert_eq!(trim_route_string_from_request("/a/b/?q", 1), "/b?q");
}

#[test]
fn starts_with_compares_whole_segments() {
    assert!(starts_with(&route(&["a", "b"]), &route(&[])));
    assert!(starts_with(&route(&["a", "b"]), &route(&["a"])));
    assert!(starts_with(&route(&["a", "b"]), &route(&["a", "b"])));
    assert!(!starts_with(&route(&["a", "b"]), &route(&["b"])));
    assert!(!starts_with(&route(&["a"]), &route(&["a", "b"])));
}

#[test]
fn route_is_read_from_a_path() {
    assert_eq!(route_from_path("api/ping"), route(&["api", "ping"]));
    assert_eq!(route_from_path("/api//ping/"), route(&["api", "ping"]));
    assert_eq!(route_from_path("api"), route(&["api"]));
    assert_eq!(route_from_path(""), route(&[]));
    assert_eq!(route_from_path("/"), route(&[]));
}

#[test]
fn registered_routes_are_kept_in_order() {
    let mut router: Router<u8> = Router::new();
    router.with_route_fn(route(&["a"]), 10);
    router.with_route_fn(route(&["b", "c"]), 20);
    assert_eq!(router.len(), 2);
    assert_eq!(router.route(0), &route(&["a"]));
    assert_eq!(router.route(1), &route(&["b", "c"]));
    assert_eq!(*router.handler(0), 10);
    assert_eq!(*router.handler(1), 20);
    assert_eq!(router.select(&route(&["b", "c", "d"])), Some(1));
    assert_eq!(router.select(&route(&["b"])), None);
}

#[test]
fn nested_router_sees_the_remaining_segments() {
    let mut inner: Router<&'static str> = Router::new();
    inner.with_route_fn(route_from_path("ping"), "ping");
    let mut outer: Router<&'static str> = Router::new();
    outer.with_route_fn(route_from_path("api"), "inner");
    outer.with_route_fn(route_from_path(""), "files");
    let passed = match outer.call("/api/ping/extra?x=1") {
        Dispatch::Forward { route, target } => {
            assert_eq!(*outer.handler(route), "inner");
            target
        }
        other => panic!("expected a forward, got {:?}", other),
    };
    assert_eq!(passed, "/ping/extra?x=1");
    assert_eq!(request_segments(&passed), route(&["ping", "extra"]));
    match inner.call(&passed) {
        Dispatch::Forward { route, target } => {
            assert_eq!(*inner.handler(route), "ping");
            assert_eq!(target, "/extra?x=1");
        }
        other => panic!("expected a forward, got {:?}", other),
    }
    match inner.call("/other") {
        Dispatch::Respond(reply) => assert_eq!(reply.status, 404),
        other => panic!("expected a reply, got {:?}", other),
    }
}

#[test]
fn ping_under_api_is_reached_through_the_outer_router() {
    let mut outer: Router<u8> = Router::new();
    outer.with_route_fn(route_from_path("api"), 1);
    outer.with_route_fn(route(&[]), 0);
    match outer.call("/api/ping") {
        Dispatch::Forward { route, target } => {
            assert_eq!(*outer.handler(route), 1);
            assert_eq!(target, "/ping");
        }
        other => panic!("expected a forward, got {:?}", other),
    }
    match outer.call("/") {
        Dispatch::Forward { route, target } => {
            assert_eq!(*outer.handler(route), 0);
            assert_eq!(target, "/");
        }
        other => panic!("expected a forward, got {:?}", other),
    }
}

#[test]
fn target_without_a_path_names_the_root() {
    let router: Router<u8> = Router::new();
    match router.call("?c") {
        Dispatch::Respond(reply) => {
            assert_eq!(reply.status, 404);
            assert_eq!(text_of(&reply), "Resource not found for path: /");
        }
        other => panic!("expected a reply, got {:?}", other),
    }
    let parsed = "?c".parse::<http::uri::PathAndQuery>().unwrap();
    assert_eq!(path_of(parsed.as_str()), parsed.path());
    let parsed = "/a/b?c".parse::<http::uri::PathAndQuery>().unwrap();
    assert_eq!(path_of(parsed.as_str()), parsed.path());
    let parsed = "*".parse::<http::uri::PathAndQuery>().unwrap();
    assert_eq!(path_of(parsed.as_str()), parsed.path());
}

#[test]
fn target_without_a_path_reaches_the_root_route() {
    let mut router: Router<u8> = Router::new();
    router.with_route_fn(route(&[]), 0);
    match router.call("?c") {
        Dispatch::Forward { route, target } => {
            assert_eq!(route, 0);
            assert_eq!(target, "/?c");
        }
        other => panic!("expected a forward, got {:?}", other),
    }
}

#[test]
fn request_without_path_and_query_names_the_empty_path() {
    let mut router: Router<u8> = Router::new();
    router.with_route_fn(route(&["api"]), 1);
    match router.call_without_path() {
        Dispatch::Respond(reply) => {
            assert_eq!(reply.status, 404);
            assert_eq!(text_of(&reply), "Resource not found for path: ");
        }
        other => panic!("expected a reply, got {:?}", other),
    }
    router.with_route_fn(route(&[]), 0);
    match router.call_without_path() {
        Dispatch::Respond(reply) => {
            assert_eq!(reply.status, 400);
            assert_eq!(text_of(&reply), "Invalid request path: ");
        }
        other => panic!("expected a reply, got {:?}", other),
    }
}

#[test]
fn rejection_names_the_path() {
    let reply = reject("/a b");
    assert_eq!(reply.status, 400);
    assert_eq!(reply.content_type, None);
    assert_eq!(text_of(&reply), "Invalid request path: /a b");
}
