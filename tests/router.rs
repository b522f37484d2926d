use router_core::{RouterCfg, RouterService};

#[test]
fn router_cfg_new_builds() {
    let cfg = RouterCfg::new(String::from("/home"));
    assert_eq!(cfg.initial_route(), "/home");
}

#[test]
fn unregistered_scope_does_not_render() {
    let mut router = RouterService::new(0, "/");
    assert!(!router.should_render(5, "/"));
}

#[test]
fn one_winner_among_overlapping_routes() {
    let mut router = RouterService::new(0, "/");
    router.register_total_route(String::from("/users/:id"), 1, false);
    router.register_total_route(String::from("/users/7"), 2, false);
    router.register_total_route(String::from("/users/:name/"), 3, false);
    let order = router.on_location_change();
    assert_eq!(order, vec![3, 2, 1]);
    let answers: Vec<bool> = order.iter().map(|s| router.should_render(*s, "/users/7")).collect();
    assert_eq!(answers, vec![true, false, false]);
}

#[test]
fn no_winner_without_match_or_fallback() {
    let mut router = RouterService::new(0, "/");
    router.register_total_route(String::from("/a"), 1, false);
    router.register_total_route(String::from("/b"), 2, false);
    let order = router.on_location_change();
    let answers: Vec<bool> = order.iter().map(|s| router.should_render(*s, "/c")).collect();
    assert_eq!(answers, vec![false, false]);
}

#[test]
fn fallback_claims_only_when_unclaimed() {
    let mut router = RouterService::new(0, "/");
    router.register_total_route(String::new(), 1, true);
    router.register_total_route(String::from("/home"), 2, false);
    let order = router.on_location_change();
    assert_eq!(order, vec![2, 1]);
    assert!(router.should_render(2, "/home"));
    assert!(!router.should_render(1, "/home"));

    router.on_location_change();
    assert!(!router.should_render(2, "/elsewhere"));
    assert!(router.should_render(1, "/elsewhere"));
}

#[test]
fn reset_lets_a_new_winner_claim() {
    let mut router = RouterService::new(0, "/");
    router.register_total_route(String::from("/a"), 1, false);
    router.register_total_route(String::from("/b"), 2, false);
    router.on_location_change();
    assert!(router.should_render(1, "/a"));
    assert!(!router.should_render(2, "/b"));
    router.on_location_change();
    assert!(router.should_render(2, "/b"));
    assert!(!router.should_render(1, "/a"));
}

#[test]
fn fallback_queried_first_claims_before_real_match() {
    let mut router = RouterService::new(0, "/");
    let a = 10;
    let b = 20;
    router.register_total_route(String::from("/users/:id"), a, false);
    router.register_total_route(String::new(), b, true);
    let order = router.on_location_change();
    assert_eq!(order, vec![b, a]);
    assert!(router.should_render(b, "/users/7"));
    assert!(!router.should_render(a, "/users/7"));
}

#[test]
fn first_registration_of_a_scope_is_used() {
    let mut router = RouterService::new(0, "/");
    router.register_total_route(String::from("/first"), 1, false);
    router.register_total_route(String::from("/second"), 1, false);
    assert_eq!(router.on_location_change(), vec![1, 1]);
    assert!(!router.should_render(1, "/second"));
    assert!(router.should_render(1, "/first"));
}

#[test]
fn registered_pattern_is_normalized() {
    let mut router = RouterService::new(0, "/");
    router.register_total_route(String::from("/a/b/"), 1, false);
    assert!(router.should_render(1, "/a/b"));
}
