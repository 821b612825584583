//! Tests for path normalization and the route table: sorting, binary
//! search, wildcard fallback, and registration-order independence.

use tusk_rs::reqres::HttpMethod;
use tusk_rs::routes::{normalize_path, Route, RouteBlock, RouteStorage};

#[test]
fn normalization_strips_trailing_slash() {
    assert_eq!(normalize_path("/users/"), "/users");
    assert_eq!(normalize_path("/users"), "/users");
}

#[test]
fn normalization_is_idempotent_on_samples() {
    for p in ["/users/", "users", "", "/", "//", "/a/b/", "a//"] {
        let once = normalize_path(p);
        let twice = normalize_path(&once);
        assert_eq!(once, twice);
    }
}

#[test]
fn normalization_supplies_leading_slash() {
    assert_eq!(normalize_path("users"), "/users");
    assert_eq!(normalize_path(""), "/");
    assert_eq!(normalize_path("/"), "/");
}

#[test]
fn registered_get_users_matches_request_with_trailing_slash() {
    let mut table: RouteStorage<u32> = RouteStorage::new();
    table.add(Route::new("/users".to_string(), HttpMethod::Get, 1u32));
    table.prep();
    let path = normalize_path("/users/");
    let hit = table.handler(&HttpMethod::Get, &path).expect("route should match");
    assert_eq!(hit.handler, 1);
}

#[test]
fn lookup_prefers_exact_method_then_wildcard() {
    let mut table: RouteStorage<u32> = RouteStorage::new();
    table.add(Route::new("/a".to_string(), HttpMethod::Get, 1u32));
    table.add(Route::new("/a".to_string(), HttpMethod::Any, 2u32));
    table.add(Route::new("/b".to_string(), HttpMethod::Any, 3u32));
    table.prep();
    let a = "/a".to_string();
    let b = "/b".to_string();
    let c = "/c".to_string();
    assert_eq!(table.handler(&HttpMethod::Get, &a).unwrap().handler, 1);
    assert_eq!(table.handler(&HttpMethod::Post, &a).unwrap().handler, 2);
    assert_eq!(table.handler(&HttpMethod::Delete, &b).unwrap().handler, 3);
    assert!(table.handler(&HttpMethod::Get, &c).is_none());
}

#[test]
fn registration_order_does_not_change_lookups() {
    let paths = ["/a", "/b", "/c", "/d", "/e"];
    let mut forward: RouteStorage<usize> = RouteStorage::new();
    for (i, p) in paths.iter().enumerate() {
        forward.add(Route::new(p.to_string(), HttpMethod::Get, i));
    }
    forward.prep();
    let mut backward: RouteStorage<usize> = RouteStorage::new();
    for (i, p) in paths.iter().enumerate().rev() {
        backward.add(Route::new(p.to_string(), HttpMethod::Get, i));
    }
    backward.prep();
    for p in paths {
        let key = p.to_string();
        let f = forward.handler(&HttpMethod::Get, &key).unwrap().handler;
        let b = backward.handler(&HttpMethod::Get, &key).unwrap().handler;
        assert_eq!(f, b);
    }
    let missing = "/nope".to_string();
    assert!(forward.handler(&HttpMethod::Get, &missing).is_none());
    assert!(backward.handler(&HttpMethod::Get, &missing).is_none());
}

#[test]
fn lookup_scales_past_a_handful_of_routes() {
    let mut table: RouteStorage<u32> = RouteStorage::new();
    for i in 0..50u32 {
        table.add(Route::new(format!("/r{}", i), HttpMethod::Post, i));
    }
    table.prep();
    for i in 0..50u32 {
        let key = format!("/r{}", i);
        assert_eq!(table.handler(&HttpMethod::Post, &key).unwrap().handler, i);
    }
}

#[test]
fn wildcard_request_method_skips_fallback_lookup_only_for_itself() {
    let mut table: RouteStorage<u32> = RouteStorage::new();
    table.add(Route::new("/w".to_string(), HttpMethod::Any, 9u32));
    table.prep();
    let w = "/w".to_string();
    // A wildcard request hits its own bucket directly.
    assert_eq!(table.handler(&HttpMethod::Any, &w).unwrap().handler, 9);
}

#[test]
fn preparing_twice_changes_nothing() {
    let mut table: RouteStorage<u32> = RouteStorage::new();
    table.add(Route::new("/b".to_string(), HttpMethod::Get, 2u32));
    table.add(Route::new("/a".to_string(), HttpMethod::Get, 1u32));
    table.prep();
    let a = "/a".to_string();
    let b = "/b".to_string();
    let first_a = table.handler(&HttpMethod::Get, &a).unwrap().handler;
    let first_b = table.handler(&HttpMethod::Get, &b).unwrap().handler;
    table.prep();
    assert_eq!(table.handler(&HttpMethod::Get, &a).unwrap().handler, first_a);
    assert_eq!(table.handler(&HttpMethod::Get, &b).unwrap().handler, first_b);
}

#[test]
fn route_block_applies_prefix() {
    let mut block: RouteBlock<u32> = RouteBlock { prefix: "/api".to_string(), routes: Vec::new() };
    block.add(HttpMethod::Get, "list", 1u32);
    block.add(HttpMethod::Get, "/item/", 2u32);
    assert_eq!(block.routes[0].path, "/api/list");
    assert_eq!(block.routes[1].path, "/api/item");
}
