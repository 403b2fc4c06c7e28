use webserv::config::{Route, ServerConfig};
use webserv::methods::HttpMethod;
use webserv::headers::HttpHeaders;
use webserv::strutil::u64_to_string;
use webserv::resolve::{select_server, find_route, is_path_contained, resolve_path, route_match};
use webserv::router::Router;
use webserv::config::{default_index, max_body_cap};

fn route(path: &str) -> Route {
    Route {
        path: path.to_string(),
        methods: vec![],
        root: None,
        default_file: None,
        redirect: None,
        cgi: None,
        list_directory: None,
    }
}

fn server(name: &str) -> ServerConfig {
    ServerConfig {
        host: "127.0.0.1".to_string(),
        ports: vec![8080],
        server_name: name.to_string(),
        default_server: false,
        root: Some("www".to_string()),
        error_pages: vec![(404, "404.html".to_string())],
        client_max_body_size: 1 << 20,
        routes: vec![route("/")],
    }
}

#[test]
fn host_dispatch_picks_named_server() {
    let servers = vec![server("a.example"), server("b.example")];
    assert_eq!(select_server(&servers, 0, "a.example"), 0);
    assert_eq!(select_server(&servers, 0, "b.example"), 1);
    assert_eq!(select_server(&servers, 0, "B.EXAMPLE"), 1);
}

#[test]
fn host_dispatch_falls_back_to_default() {
    let servers = vec![server("a.example"), server("b.example")];
    assert_eq!(select_server(&servers, 1, "unknown"), 1);
    assert_eq!(select_server(&servers, 0, ""), 0);
}

#[test]
fn longest_prefix_route_wins() {
    let routes = vec![route("/"), route("/api")];
    assert_eq!(find_route(&routes, "/api/v1"), Some(1));
    assert_eq!(find_route(&routes, "/api"), Some(1));
    assert_eq!(find_route(&routes, "/other"), Some(0));
}

#[test]
fn route_prefix_needs_segment_boundary() {
    assert!(route_match("/api", "/api/v1"));
    assert!(route_match("/api", "/api"));
    assert!(!route_match("/api", "/apiary"));
    assert!(route_match("/", "/anything"));
}

#[test]
fn no_route_matches_outside_prefixes() {
    let routes = vec![route("/api")];
    assert_eq!(find_route(&routes, "/other"), None);
}

#[test]
fn containment_rejects_escapes() {
    assert!(is_path_contained("/files/a.txt"));
    assert!(is_path_contained("/a/../b"));
    assert!(is_path_contained("/a/./b"));
    assert!(!is_path_contained("/../etc/passwd"));
    assert!(!is_path_contained("/a/../../b"));
    assert!(is_path_contained(""));
}

#[test]
fn resolve_path_joins_and_contains() {
    assert_eq!(resolve_path("www", "/", "/a.txt").unwrap(), "www/a.txt");
    assert_eq!(resolve_path("www", "/api", "/api/x").unwrap(), "www/x");
    assert!(resolve_path("www", "/", "/../secret").is_none());
}

#[test]
fn error_page_lookup() {
    let s = server("a.example");
    assert_eq!(s.error_page_for(404).unwrap(), "404.html");
    assert!(s.error_page_for(500).is_none());
}

#[test]
fn router_registry_rebinding_overwrites() {
    let mut r = Router::new();
    r.handle("/login", 1);
    r.handle("/logout", 2);
    r.handle("/login", 3);
    assert_eq!(r.route("/login"), Some(3));
    assert_eq!(r.route("/logout"), Some(2));
    assert_eq!(r.route("/nope"), None);
}

#[test]
fn method_names_fold_case() {
    assert_eq!(HttpMethod::from_str("get"), HttpMethod::GET);
    assert_eq!(HttpMethod::from_str("Post"), HttpMethod::POST);
    assert_eq!(HttpMethod::from_str("DELETE"), HttpMethod::DELETE);
    assert_eq!(
        HttpMethod::from_str("patch"),
        HttpMethod::Other("PATCH".to_string())
    );
    assert_eq!(HttpMethod::from_str("get").to_str(), "GET");
    assert!(HttpMethod::GET.same_as(&HttpMethod::from_str("GET")));
}

#[test]
fn header_map_is_case_insensitive() {
    let mut h = HttpHeaders::new();
    h.insert("Content-Type", "text/html");
    assert_eq!(h.get("content-type").unwrap(), "text/html");
    h.insert("CONTENT-TYPE", "text/plain");
    assert_eq!(h.len(), 1);
    assert_eq!(h.get("Content-Type").unwrap(), "text/plain");
    assert_eq!(h.remove("content-TYPE").unwrap(), "text/plain");
    assert!(h.get("content-type").is_none());
}

#[test]
fn decimal_rendering_is_exact() {
    assert_eq!(u64_to_string(0), "0");
    assert_eq!(u64_to_string(42), "42");
    assert_eq!(u64_to_string(16384), "16384");
    assert_eq!(u64_to_string(u64::MAX), "18446744073709551615");
}

#[test]
fn listener_default_and_body_cap() {
    let mut a = server("a.example");
    a.client_max_body_size = 100;
    let mut b = server("b.example");
    b.default_server = true;
    b.client_max_body_size = 900;
    let servers = vec![a, b];
    assert_eq!(default_index(&servers), 1);
    assert_eq!(max_body_cap(&servers), 900);
    let plain = vec![server("only.example")];
    assert_eq!(default_index(&plain), 0);
}
