use route_proxy::route::{RouteEngine, RouteRule};

fn rule(host: &str) -> RouteRule {
    RouteRule::new(host, "/api", "127.0.0.1:8686", "")
}

#[test]
fn host_matching() {
    // exact match
    assert!(rule("example.com:81").match_host("example.com:81"));
    assert!(!rule("example.com:81").match_host("example.com:80"));
    // no port: 80/443 by default
    assert!(rule("example.com").match_host("example.com:80"));
    assert!(rule("example.com").match_host("example.com:443"));
    assert!(!rule("example.com").match_host("example.com:81"));
    // case-insensitive
    assert!(rule("Example.COM").match_host("example.com:80"));
    // wildcard
    assert!(rule("*").match_host("anything:1234"));
    // names are not confused
    assert!(!rule("example.com").match_host("notexample.com:80"));
}

#[test]
fn new_rule_rewrites_and_does_not_fall_back() {
    let r = RouteRule::new("a.com:8080", "/x", "127.0.0.1:1", "/y");
    assert_eq!(r.match_.host, "a.com:8080");
    assert_eq!(r.match_.prefix, "/x");
    assert_eq!(r.forward.host, "127.0.0.1:1");
    assert_eq!(r.forward.prefix, "/y");
    assert!(r.forward.rewrite);
    assert!(!r.forward.connect_fail_use_original_host);
}

#[test]
fn host_without_port_matches_only_portless_rules() {
    assert!(!rule("example.com:81").match_host("example.com"));
    assert!(!rule("example.com:80").match_host("example.com"));
    assert!(rule("example.com").match_host("example.com"));
    assert!(rule("example.com").match_host("EXAMPLE.com"));
    assert!(!rule("example.com").match_host("example.org"));
}

#[test]
fn port_is_after_the_last_colon() {
    // the text before the last ':' is the host name
    assert!(rule("a:b:80").match_host("A:B:80"));
    assert!(!rule("a:b").match_host("a:b:80"));
    // the port is compared exactly
    assert!(!rule("example.com:080").match_host("example.com:80"));
}

#[test]
fn matches_needs_path_prefix_and_host() {
    let r = rule("example.com");
    assert!(r.matches("example.com:443", "/api/v1"));
    assert!(r.matches("example.com", "/api"));
    assert!(!r.matches("example.com", "/ap"));
    assert!(!r.matches("other.com", "/api/v1"));
    let any = RouteRule::new("*", "", "x", "");
    assert!(any.matches("whatever:1", ""));
}

#[test]
fn resolve_target_takes_the_first_match() {
    let engine = RouteEngine::new(vec![
        RouteRule::new("a.com", "/api", "first", ""),
        RouteRule::new("a.com", "/", "second", ""),
        RouteRule::new("*", "", "third", ""),
    ]);
    assert_eq!(engine.resolve_target("a.com:80", "/api/x").unwrap().forward.host, "first");
    assert_eq!(engine.resolve_target("a.com:80", "/home").unwrap().forward.host, "second");
    assert_eq!(engine.resolve_target("b.com:9", "/home").unwrap().forward.host, "third");
    assert_eq!(engine.resolve_target_by_host("b.com").unwrap().forward.host, "third");
    assert_eq!(engine.resolve_target_by_host("A.COM").unwrap().forward.host, "first");
}

#[test]
fn resolve_target_none_without_match() {
    let mut engine = RouteEngine::new(vec![RouteRule::new("a.com", "/api", "first", "")]);
    assert!(engine.resolve_target("a.com", "/other").is_none());
    assert!(engine.resolve_target_by_host("b.com").is_none());
    engine.update_rules(vec![RouteRule::new("b.com", "/", "new", "")]);
    assert_eq!(engine.resolve_target_by_host("b.com").unwrap().forward.host, "new");
    assert!(engine.resolve_target("a.com", "/api").is_none());
    let empty = RouteEngine::new(Vec::new());
    assert!(empty.resolve_target("a.com", "/").is_none());
}
