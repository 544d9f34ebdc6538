use http_router::path::{split_path, tokenize, Segment};
use http_router::route::{Route, RouteError};

fn pairs(v: &[(&str, &str)]) -> Vec<(String, String)> {
    v.iter().map(|(a, b)| (a.to_string(), b.to_string())).collect()
}

fn resolved(route: &Route<u32>, path: &str) -> Result<(u32, Vec<(String, String)>), RouteError> {
    route.resolve(path).map(|(h, b)| (*h, b))
}

#[test]
fn split_path_drops_edge_separators() {
    assert_eq!(split_path("/a/b/"), vec!["a".to_string(), "b".to_string()]);
    assert_eq!(split_path("a/b"), vec!["a".to_string(), "b".to_string()]);
    assert_eq!(split_path("/"), Vec::<String>::new());
    assert_eq!(split_path(""), Vec::<String>::new());
    assert_eq!(split_path("/a//b"), vec!["a".to_string(), String::new(), "b".to_string()]);
}

#[test]
fn tokenize_classifies_segments() {
    let segs = tokenize("/user/:id/name").unwrap();
    assert_eq!(segs.len(), 3);
    assert!(matches!(&segs[0], Segment::Literal(t) if t == "user"));
    assert!(matches!(&segs[1], Segment::Param(n) if n == "id"));
    assert!(matches!(&segs[2], Segment::Literal(t) if t == "name"));
}

#[test]
fn tokenize_rejects_empty_parameter_name() {
    assert!(matches!(tokenize("/a/:/b"), Err(RouteError::EmptyParameterName)));
}

#[test]
fn round_trip_literal_route() {
    let mut r: Route<u32> = Route::new(None);
    assert_eq!(r.insert("/a/b".to_string(), 7), Ok(()));
    assert_eq!(resolved(&r, "/a/b"), Ok((7, vec![])));
}

#[test]
fn round_trip_parametric_route_binds_own_segments() {
    let mut r: Route<u32> = Route::new(None);
    assert_eq!(r.insert("/user/:id/name".to_string(), 3), Ok(()));
    assert_eq!(resolved(&r, "/user/:id/name"), Ok((3, pairs(&[("id", ":id")]))));
    assert_eq!(resolved(&r, "/user/42/name"), Ok((3, pairs(&[("id", "42")]))));
}

#[test]
fn literal_route_takes_precedence() {
    let mut r: Route<u32> = Route::new(None);
    assert_eq!(r.insert("/user/logout".to_string(), 1), Ok(()));
    assert_eq!(r.insert("/user/:id".to_string(), 2), Ok(()));
    assert_eq!(resolved(&r, "/user/logout"), Ok((1, vec![])));
    assert_eq!(resolved(&r, "/user/17"), Ok((2, pairs(&[("id", "17")]))));
}

#[test]
fn literal_route_takes_precedence_registered_after() {
    let mut r: Route<u32> = Route::new(None);
    assert_eq!(r.insert("/user/:id".to_string(), 2), Ok(()));
    assert_eq!(r.insert("/user/logout".to_string(), 1), Ok(()));
    assert_eq!(resolved(&r, "/user/logout"), Ok((1, vec![])));
}

#[test]
fn bindings_follow_path_order() {
    let mut r: Route<u32> = Route::new(None);
    assert_eq!(r.insert("/a/:x/b/:y".to_string(), 5), Ok(()));
    assert_eq!(resolved(&r, "/a/1/b/2"), Ok((5, pairs(&[("x", "1"), ("y", "2")]))));
}

#[test]
fn prefix_is_not_a_route() {
    let mut r: Route<u32> = Route::new(None);
    assert_eq!(r.insert("/a/b/c".to_string(), 1), Ok(()));
    assert_eq!(resolved(&r, "/a/b"), Err(RouteError::NotFound));
    assert_eq!(resolved(&r, "/a"), Err(RouteError::NotFound));
    assert_eq!(resolved(&r, "/"), Err(RouteError::NotFound));
    assert_eq!(resolved(&r, "/a/b/c/d"), Err(RouteError::NotFound));
}

#[test]
fn duplicate_registration_rejected() {
    let mut r: Route<u32> = Route::new(None);
    assert_eq!(r.insert("/a/b".to_string(), 1), Ok(()));
    assert_eq!(r.insert("/a/b".to_string(), 2), Err(RouteError::DuplicateRoute));
    assert_eq!(resolved(&r, "/a/b"), Ok((1, vec![])));
}

#[test]
fn duplicate_registration_with_trailing_slash_rejected() {
    let mut r: Route<u32> = Route::new(None);
    assert_eq!(r.insert("/a/b".to_string(), 1), Ok(()));
    assert_eq!(r.insert("a/b/".to_string(), 2), Err(RouteError::DuplicateRoute));
}

#[test]
fn conflicting_parameter_name_rejected() {
    let mut r: Route<u32> = Route::new(None);
    assert_eq!(r.insert("/a/:x".to_string(), 1), Ok(()));
    assert_eq!(r.insert("/a/:y".to_string(), 2), Err(RouteError::ConflictingParameterName));
    assert_eq!(resolved(&r, "/a/9"), Ok((1, pairs(&[("x", "9")]))));
}

#[test]
fn conflicting_parameter_name_deeper_rejected() {
    let mut r: Route<u32> = Route::new(None);
    assert_eq!(r.insert("/a/:x/b".to_string(), 1), Ok(()));
    assert_eq!(r.insert("/a/:y/c".to_string(), 2), Err(RouteError::ConflictingParameterName));
    assert_eq!(resolved(&r, "/a/9/c"), Err(RouteError::NotFound));
    assert_eq!(r.insert("/a/:x/c".to_string(), 3), Ok(()));
    assert_eq!(resolved(&r, "/a/9/c"), Ok((3, pairs(&[("x", "9")]))));
}

#[test]
fn empty_parameter_name_rejected() {
    let mut r: Route<u32> = Route::new(None);
    assert_eq!(r.insert("/a/:".to_string(), 1), Err(RouteError::EmptyParameterName));
    assert_eq!(resolved(&r, "/a/:"), Err(RouteError::NotFound));
}

#[test]
fn root_path_resolves_with_no_bindings() {
    let mut r: Route<u32> = Route::new(None);
    assert_eq!(r.insert("/".to_string(), 4), Ok(()));
    assert_eq!(resolved(&r, "/"), Ok((4, vec![])));
    assert_eq!(resolved(&r, ""), Ok((4, vec![])));
    assert_eq!(r.insert("".to_string(), 5), Err(RouteError::DuplicateRoute));
}

#[test]
fn root_handler_given_at_construction() {
    let r: Route<u32> = Route::new(Some(8));
    assert_eq!(resolved(&r, "/"), Ok((8, vec![])));
    let empty: Route<u32> = Route::new(None);
    assert_eq!(resolved(&empty, "/"), Err(RouteError::NotFound));
}

#[test]
fn parameter_does_not_match_empty_segment() {
    let mut r: Route<u32> = Route::new(None);
    assert_eq!(r.insert("/a/:x/b".to_string(), 1), Ok(()));
    assert_eq!(resolved(&r, "/a//b"), Err(RouteError::NotFound));
}

#[test]
fn matching_is_case_sensitive() {
    let mut r: Route<u32> = Route::new(None);
    assert_eq!(r.insert("/User".to_string(), 1), Ok(()));
    assert_eq!(resolved(&r, "/user"), Err(RouteError::NotFound));
    assert_eq!(resolved(&r, "/User"), Ok((1, vec![])));
}

#[test]
fn no_backtracking_after_literal_choice() {
    let mut r: Route<u32> = Route::new(None);
    assert_eq!(r.insert("/a/b/c".to_string(), 1), Ok(()));
    assert_eq!(r.insert("/a/:x/d".to_string(), 2), Ok(()));
    assert_eq!(resolved(&r, "/a/b/d"), Err(RouteError::NotFound));
    assert_eq!(resolved(&r, "/a/z/d"), Ok((2, pairs(&[("x", "z")]))));
}
