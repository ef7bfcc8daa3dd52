use reverse_http_proxy::route::read_route;
use reverse_http_proxy::route::split_route;
use reverse_http_proxy::route::RouteConfig;
use reverse_http_proxy::route::RouteError;

fn table(routes: &[&str]) -> RouteConfig {
    let args: Vec<String> = routes.iter().map(|r| r.to_string()).collect();
    match RouteConfig::new("127.0.0.1:9000".to_string(), args, false) {
        Ok(config) => config,
        Err(e) => panic!("refused: {}", e.message()),
    }
}

#[test]
fn exact_match_returns_its_route() {
    let config = table(&["/api=10.0.0.1:80", "/api/v1=10.0.0.2:80", "/=10.0.0.3:80"]);
    assert_eq!(config.get_backend_and_prefix("/api"), ("10.0.0.1:80", "/api"));
    assert_eq!(config.get_backend_and_prefix("/api/v1"), ("10.0.0.2:80", "/api/v1"));
    assert_eq!(config.get_backend_and_prefix("/"), ("10.0.0.3:80", "/"));
}

#[test]
fn longest_prefix_wins() {
    let config = table(&["/a=one:1", "/a/b=two:2", "/a/b/c=three:3"]);
    assert_eq!(config.get_backend_and_prefix("/a/b/c/d"), ("three:3", "/a/b/c"));
    assert_eq!(config.get_backend_and_prefix("/a/b/x"), ("two:2", "/a/b"));
    assert_eq!(config.get_backend_and_prefix("/a/x"), ("one:1", "/a"));
    assert_eq!(config.get_backend_and_prefix("/ab"), ("one:1", "/a"));
}

#[test]
fn longest_prefix_wins_whatever_the_order() {
    let config = table(&["/a/b/c=three:3", "/a=one:1", "/a/b=two:2"]);
    assert_eq!(config.get_backend_and_prefix("/a/b/c/d"), ("three:3", "/a/b/c"));
    assert_eq!(config.get_backend_and_prefix("/a/b"), ("two:2", "/a/b"));
}

#[test]
fn no_match_gives_default_and_empty_prefix() {
    let config = table(&["/api=10.0.0.1:80"]);
    assert_eq!(config.get_backend_and_prefix("/unknown"), ("127.0.0.1:9000", ""));
    assert_eq!(config.get_backend_and_prefix("/ap"), ("127.0.0.1:9000", ""));
    assert_eq!(config.get_backend_and_prefix(""), ("127.0.0.1:9000", ""));
}

#[test]
fn empty_table_gives_default() {
    let config = table(&[]);
    assert_eq!(config.get_backend_and_prefix("/anything"), ("127.0.0.1:9000", ""));
    assert_eq!(config.routes().len(), 0);
}

#[test]
fn repeated_path_keeps_last_backend() {
    let config = table(&["/api=first:1", "/x=other:2", "/api=second:3"]);
    assert_eq!(config.get_backend_and_prefix("/api/users"), ("second:3", "/api"));
    assert_eq!(config.routes().len(), 2);
}

#[test]
fn non_ascii_prefix_matches_by_characters() {
    let config = table(&["/caf\u{e9}=one:1"]);
    assert_eq!(config.get_backend_and_prefix("/caf\u{e9}/menu"), ("one:1", "/caf\u{e9}"));
    assert_eq!(config.get_backend_and_prefix("/cafe/menu"), ("127.0.0.1:9000", ""));
}

#[test]
fn accessors_report_the_configuration() {
    let config = match RouteConfig::new("d:1".to_string(), vec!["/a=b:2".to_string()], true) {
        Ok(c) => c,
        Err(_) => panic!("refused"),
    };
    assert_eq!(config.default_backend(), "d:1");
    assert!(config.rewrite_paths());
    assert_eq!(config.routes().len(), 1);
    assert_eq!(config.routes()[0].prefix, "/a");
    assert_eq!(config.routes()[0].backend, "b:2");
}

#[test]
fn route_without_separator_is_refused() {
    match RouteConfig::new("d:1".to_string(), vec!["/api".to_string()], false) {
        Err(RouteError::InvalidFormat { route }) => assert_eq!(route, "/api"),
        _ => panic!("expected a format error"),
    }
}

#[test]
fn route_with_two_separators_is_refused() {
    match RouteConfig::new("d:1".to_string(), vec!["/api=a=b".to_string()], false) {
        Err(e) => assert_eq!(
            e.message(),
            "Invalid route format: '/api=a=b'. Expected format: /path=ip:port"
        ),
        Ok(_) => panic!("expected a format error"),
    }
}

#[test]
fn relative_path_is_refused() {
    match RouteConfig::new("d:1".to_string(), vec!["api=b:1".to_string()], false) {
        Err(RouteError::PathNotAbsolute { path }) => assert_eq!(path, "api"),
        _ => panic!("expected a path error"),
    }
    match RouteConfig::new("d:1".to_string(), vec!["=b:1".to_string()], false) {
        Err(e) => assert_eq!(e.message(), "Path must start with '/': "),
        Ok(_) => panic!("expected a path error"),
    }
}

#[test]
fn first_refused_route_decides_the_error() {
    let args = vec!["/ok=b:1".to_string(), "bad=b:2".to_string(), "worse".to_string()];
    match RouteConfig::new("d:1".to_string(), args, false) {
        Err(RouteError::PathNotAbsolute { path }) => assert_eq!(path, "bad"),
        _ => panic!("expected the error of the second route"),
    }
}

#[test]
fn split_route_splits_at_the_only_separator() {
    assert_eq!(split_route("/a=b:1"), Some(("/a".to_string(), "b:1".to_string())));
    assert_eq!(split_route("="), Some(("".to_string(), "".to_string())));
    assert_eq!(split_route("/a="), Some(("/a".to_string(), "".to_string())));
    assert_eq!(split_route("/a"), None);
    assert_eq!(split_route("a=b=c"), None);
    assert_eq!(split_route(""), None);
}

#[test]
fn read_route_accepts_an_empty_backend() {
    match read_route("/a=") {
        Ok(route) => {
            assert_eq!(route.prefix, "/a");
            assert_eq!(route.backend, "");
        }
        Err(_) => panic!("refused"),
    }
}
