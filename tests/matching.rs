use router_core::{clean_path, clean_route, route_matches_path};

#[test]
fn same_inputs_give_same_answer() {
    let first = route_matches_path("/user/:id", "/user/42");
    let second = route_matches_path("/user/:id", "/user/42");
    assert_eq!(first, second);
    assert!(first);
}

#[test]
fn depth_mismatch_never_matches() {
    assert!(!route_matches_path("/a/b", "/a"));
    assert!(!route_matches_path("/a", "/a/b"));
}

#[test]
fn parameter_takes_non_empty_segment() {
    assert!(route_matches_path("/user/:id", "/user/42"));
    assert!(!route_matches_path("/user/:id", "/user/"));
}

#[test]
fn parameter_refuses_empty_inner_segment() {
    assert!(!route_matches_path("/a/:x/b", "/a//b"));
    assert!(route_matches_path("/a/:x/b", "/a/y/b"));
}

#[test]
fn literal_segments_are_case_sensitive() {
    assert!(!route_matches_path("/About", "/about"));
    assert!(route_matches_path("/about", "/about"));
}

#[test]
fn trailing_slash_is_normalized() {
    let pattern = clean_route(String::from("/a/b/"));
    assert_eq!(pattern, "/a/b");
    assert!(route_matches_path(&pattern, "/a/b"));
    assert!(route_matches_path("/a/b", "/a/b/"));
}

#[test]
fn pattern_trailing_slash_is_ignored() {
    assert!(route_matches_path("/a/b/", "/a/b"));
    assert!(route_matches_path("/user/:id//", "/user/42/"));
    assert!(!route_matches_path("/a/b/", "/a"));
}

#[test]
fn root_matches_root() {
    assert!(route_matches_path("/", "/"));
    assert!(!route_matches_path("/", "/x"));
}

#[test]
fn clean_route_keeps_root() {
    assert_eq!(clean_route(String::from("/")), "/");
    assert_eq!(clean_route(String::from("/a//")), "/a");
    assert_eq!(clean_route(String::from("//")), "");
    assert_eq!(clean_route(String::new()), "");
}

#[test]
fn clean_path_strips_trailing_slashes() {
    assert_eq!(clean_path("/"), "/");
    assert_eq!(clean_path("/users/7///"), "/users/7");
    assert_eq!(clean_path("/users/7"), "/users/7");
    assert_eq!(clean_path("/é/"), "/é");
}

#[test]
fn empty_pattern_matches_empty_path_only() {
    assert!(route_matches_path("", ""));
    assert!(!route_matches_path("", "/a"));
}
