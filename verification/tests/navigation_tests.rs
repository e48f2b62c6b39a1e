use wavecore::net::{content_type_for_extension, is_remote_resource, local_path, FetchError, NavigationController, NetworkClient};
use wavecore::urls::{parse_url_parts, ParsedUrl};

#[test]
fn navigation_history_stack() {
    let mut nav = NavigationController::new("https://example.com/page1".to_string());
    assert_eq!(nav.current_url(), Some("https://example.com/page1"));
    assert!(!nav.can_go_back());
    assert!(!nav.can_go_forward());

    nav.push("https://example.com/page2".to_string());
    assert_eq!(nav.current_url(), Some("https://example.com/page2"));
    assert!(nav.can_go_back());

    assert_eq!(nav.go_back(), Some("https://example.com/page1"));
    assert_eq!(nav.current_url(), Some("https://example.com/page1"));
    assert!(nav.can_go_forward());

    assert_eq!(nav.go_forward(), Some("https://example.com/page2"));
}

#[test]
fn relative_url_resolution() {
    let nav = NavigationController::new("https://example.com/blog/post1".to_string());
    assert_eq!(nav.resolve_relative("post2"), "https://example.com/blog/post2");
    assert_eq!(nav.resolve_relative("/about"), "https://example.com/about");
    assert_eq!(nav.resolve_relative("https://rust-lang.org"), "https://rust-lang.org");
}

#[test]
fn compat_navigation_url_resolution() {
    let nav = NavigationController::new("https://example.com/app/pages/home.html".into());
    assert_eq!(nav.resolve_relative("../assets/app.js"), "https://example.com/app/assets/app.js");
    assert_eq!(nav.resolve_relative("/api/v1"), "https://example.com/api/v1");
}

#[test]
fn push_of_the_current_page_changes_nothing() {
    let mut nav = NavigationController::new("a".to_string());
    nav.push("a".to_string());
    assert_eq!(nav.history, vec!["a".to_string()]);
    assert_eq!(nav.current_index, 0);
}

#[test]
fn push_after_going_back_drops_the_forward_history() {
    let mut nav = NavigationController::new("a".to_string());
    nav.push("b".to_string());
    nav.push("c".to_string());
    assert_eq!(nav.go_back(), Some("b"));
    assert_eq!(nav.go_back(), Some("a"));
    assert_eq!(nav.go_back(), None);
    nav.push("d".to_string());
    assert_eq!(nav.history, vec!["a".to_string(), "d".to_string()]);
    assert_eq!(nav.current_index, 1);
    assert!(!nav.can_go_forward());
    assert_eq!(nav.go_forward(), None);
}

#[test]
fn back_then_forward_returns_to_the_same_page() {
    let mut nav = NavigationController::new("x".to_string());
    nav.push("y".to_string());
    let before = nav.clone();
    nav.go_back();
    nav.go_forward();
    assert_eq!(nav.history, before.history);
    assert_eq!(nav.current_index, before.current_index);
}

#[test]
fn resolution_against_local_files() {
    let nav = NavigationController::new("file:///home/u/site/index.html".to_string());
    assert_eq!(nav.resolve_relative("style.css"), "/home/u/site/style.css");
    assert_eq!(nav.resolve_relative("  file:///x  "), "file:///x");
    let nav = NavigationController::new("page.html".to_string());
    assert_eq!(nav.resolve_relative("a.css"), "a.css");
    let nav = NavigationController { history: vec![], current_index: 0 };
    assert_eq!(nav.resolve_relative(" t "), "t");
}

#[test]
fn resource_helpers() {
    assert!(is_remote_resource("https://a.test/"));
    assert!(is_remote_resource("http://a.test/"));
    assert!(!is_remote_resource("file:///a.html"));
    assert_eq!(local_path("file:///tmp/a.html"), "/tmp/a.html");
    assert_eq!(local_path("docs/a.html"), "docs/a.html");
    assert_eq!(content_type_for_extension("htm"), "text/html");
    assert_eq!(content_type_for_extension("html"), "text/html");
    assert_eq!(content_type_for_extension("css"), "text/css");
    assert_eq!(content_type_for_extension("js"), "text/plain");
}

#[test]
fn parsed_url_parts() {
    let u = ParsedUrl::parse("https://Example.com:8080/a/b?q=1").unwrap();
    assert_eq!(u.scheme, "https");
    assert_eq!(u.host.as_deref(), Some("example.com"));
    assert_eq!(u.port, Some(8080));
    assert_eq!(u.path, "/a/b");
    let d = ParsedUrl::parse("http://d.test").unwrap();
    assert_eq!(d.port, Some(80));
    assert_eq!(d.path, "/");
    assert!(ParsedUrl::parse("relative/path").is_none());
}

#[test]
fn location_parts_of_page_addresses() {
    let p = |a: &str, b: &str, c: &str, d: &str, e: &str| {
        (a.to_string(), b.to_string(), c.to_string(), d.to_string(), e.to_string())
    };
    assert_eq!(parse_url_parts("https://example.com/a/b?x=1#frag"), p("https:", "example.com", "/a/b", "?x=1", "#frag"));
    assert_eq!(parse_url_parts("example.com"), p("http:", "example.com", "/", "", ""));
    assert_eq!(parse_url_parts("https://h.test"), p("https:", "h.test", "/", "", ""));
    assert_eq!(parse_url_parts("http://h/p#x?y"), p("http:", "h", "/p#x", "?y", ""));
    assert_eq!(parse_url_parts("file:///tmp/a.html"), p("file:", "", "/tmp/a.html", "", ""));
}

#[test]
fn compat_network_resource_limits_are_configurable() {
    let mut client = NetworkClient::new();
    client.max_response_bytes = 5;
    assert!(client.fetch("data:text/plain,12345").is_ok());
    assert!(client.fetch("data:text/plain,123456").is_err());
}

#[test]
fn data_urls_give_their_body_and_type() {
    let client = NetworkClient::new();
    assert_eq!(client.max_response_bytes, 16_777_216);
    let resp = client.fetch("data:text/html,<p>hi</p>").unwrap();
    assert_eq!(resp.url, "data:text/html,<p>hi</p>");
    assert_eq!(resp.content, "<p>hi</p>");
    assert_eq!(resp.content_type, "text/html");
    let plain = client.fetch("data:,a,b").unwrap();
    assert_eq!(plain.content, "a,b");
    assert_eq!(plain.content_type, "text/plain");
    assert_eq!(client.fetch("data:no-comma"), Err(FetchError::InvalidDataUrl("data:no-comma".to_string())));
    assert_eq!(
        client.fetch("https://example.com/"),
        Err(FetchError::Unsupported("https://example.com/".to_string()))
    );
    let mut small = NetworkClient::new();
    small.max_response_bytes = 3;
    assert_eq!(small.fetch("data:,ไทย"), Err(FetchError::TooLarge { limit: 3, size: 9 }));
}
