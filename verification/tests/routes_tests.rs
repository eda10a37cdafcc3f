use planc::routes::{route_path, RouteDecision};

#[test]
fn api_paths_join_their_session() {
    match route_path("/api/demo") {
        RouteDecision::Join(id) => assert_eq!(id, "demo"),
        _ => panic!("expected a join"),
    }
    // The empty session identifier names a session like any other.
    match route_path("/api/") {
        RouteDecision::Join(id) => assert_eq!(id, ""),
        _ => panic!("expected a join"),
    }
}

#[test]
fn api_path_without_session_is_forbidden() {
    assert!(matches!(route_path("/api"), RouteDecision::Forbidden));
}

#[test]
fn api_path_with_extra_segments_is_not_found() {
    assert!(matches!(route_path("/api/a/b"), RouteDecision::NotFound));
    assert!(matches!(route_path("/api/a/"), RouteDecision::NotFound));
}

#[test]
fn other_paths_belong_to_the_web_handler() {
    assert!(matches!(route_path("/"), RouteDecision::Web));
    assert!(matches!(route_path("/index.html"), RouteDecision::Web));
    assert!(matches!(route_path("/apix"), RouteDecision::Web));
    assert!(matches!(route_path("/ap"), RouteDecision::Web));
    assert!(matches!(route_path("/API/x"), RouteDecision::Web));
}
