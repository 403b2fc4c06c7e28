use webserv::config::{Route, ServerConfig};
use webserv::conn::{Connection, Plan, ReadStep, Status, plan_request};
use webserv::handler::handle_get;
use webserv::cgi::{cgi_env, interpreter_for, wrap_cgi_output};
use webserv::cookie::Cookie;
use webserv::session::SessionStore;
use webserv::auth::{handle_login, handle_logout, handle_dashboard, handle_profile, requires_auth};
use webserv::request::HttpRequestBuilder;
use webserv::response::HttpResponseCommon;

fn head_of(bytes: &[u8]) -> String {
    let pos = bytes.windows(4).position(|w| w == b"\r\n\r\n").unwrap() + 4;
    String::from_utf8_lossy(&bytes[..pos]).into_owned()
}

fn body_of(bytes: &[u8]) -> Vec<u8> {
    let pos = bytes.windows(4).position(|w| w == b"\r\n\r\n").unwrap() + 4;
    bytes[pos..].to_vec()
}

fn server_with_routes(name: &str, routes: Vec<Route>) -> ServerConfig {
    ServerConfig {
        host: "127.0.0.1".to_string(),
        ports: vec![8080],
        server_name: name.to_string(),
        default_server: true,
        root: Some("www".to_string()),
        error_pages: vec![(404, "404.html".to_string())],
        client_max_body_size: 1 << 20,
        routes,
    }
}

fn plain_route(path: &str) -> Route {
    Route {
        path: path.to_string(),
        methods: vec![],
        root: None,
        default_file: None,
        redirect: None,
        cgi: None,
        list_directory: None,
    }
}

fn parse_request(raw: &[u8]) -> HttpRequestBuilder {
    let mut p = HttpRequestBuilder::new();
    p.append(raw.to_vec()).unwrap();
    assert!(p.done());
    p
}

#[test]
fn get_root_serves_default_file() {
    let mut route = plain_route("/");
    route.default_file = Some("index.html".to_string());
    let servers = vec![server_with_routes("a.example", vec![route])];
    let parser = parse_request(b"GET / HTTP/1.1\r\nHost: a.example\r\n\r\n");
    let req = parser.get().unwrap();
    match plan_request(&servers, 0, req).1 {
        Plan::ServeFile { path } => {
            assert_eq!(path, "www/index.html");
            let content = b"<h1>home</h1>".to_vec();
            let resp = handle_get(&path, Some(content.clone()), &Cookie::new("session_id", "s"));
            let head = head_of(resp.peek());
            assert!(head.starts_with("HTTP/1.1 200 OK\r\n"));
            assert!(head.contains("Content-Type: text/html\r\n"));
            assert_eq!(body_of(resp.peek()), content);
        }
        other => panic!("unexpected plan: {:?}", other),
    }
}

#[test]
fn admin_route_redirects() {
    let mut admin = plain_route("/admin");
    admin.redirect = Some("/login".to_string());
    let servers = vec![server_with_routes("a.example", vec![plain_route("/"), admin])];
    let parser = parse_request(b"GET /admin HTTP/1.1\r\nHost: a.example\r\n\r\n");
    let req = parser.get().unwrap();
    match plan_request(&servers, 0, req).1 {
        Plan::Redirect(loc) => assert_eq!(loc, "/login"),
        other => panic!("unexpected plan: {:?}", other),
    }
}

#[test]
fn disallowed_method_is_gated() {
    let mut files = plain_route("/files");
    files.methods = vec!["GET".to_string()];
    let servers = vec![server_with_routes("a.example", vec![files])];
    let parser = parse_request(b"DELETE /files/a.txt HTTP/1.1\r\nHost: a.example\r\n\r\n");
    let req = parser.get().unwrap();
    match plan_request(&servers, 0, req).1 {
        Plan::MethodNotAllowed(allow) => assert_eq!(allow, vec!["GET".to_string()]),
        other => panic!("unexpected plan: {:?}", other),
    }
}

#[test]
fn allowed_delete_resolves_file() {
    let mut files = plain_route("/files");
    files.methods = vec!["GET".to_string(), "DELETE".to_string()];
    let servers = vec![server_with_routes("a.example", vec![files])];
    let parser = parse_request(b"DELETE /files/a.txt HTTP/1.1\r\nHost: a.example\r\n\r\n");
    let req = parser.get().unwrap();
    match plan_request(&servers, 0, req).1 {
        Plan::ServeFile { path } => assert_eq!(path, "www/a.txt"),
        other => panic!("unexpected plan: {:?}", other),
    }
}

#[test]
fn traversal_plans_not_found() {
    let servers = vec![server_with_routes("a.example", vec![plain_route("/")])];
    let parser = parse_request(b"GET /../secret HTTP/1.1\r\nHost: a.example\r\n\r\n");
    let req = parser.get().unwrap();
    match plan_request(&servers, 0, req).1 {
        Plan::NotFound => {}
        other => panic!("unexpected plan: {:?}", other),
    }
}

#[test]
fn host_header_picks_server() {
    let mut sa = server_with_routes("a.example", vec![plain_route("/")]);
    sa.root = Some("roota".to_string());
    let mut sb = server_with_routes("b.example", vec![plain_route("/")]);
    sb.root = Some("rootb".to_string());
    let servers = vec![sa, sb];
    let parser = parse_request(b"GET /x HTTP/1.1\r\nHost: b.example:8080\r\n\r\n");
    let req = parser.get().unwrap();
    match plan_request(&servers, 0, req).1 {
        Plan::ServeFile { path } => assert_eq!(path, "rootb/x"),
        other => panic!("unexpected plan: {:?}", other),
    }
}

#[test]
fn cgi_route_dispatches_script() {
    let mut root = plain_route("/");
    root.cgi = Some(".py".to_string());
    let servers = vec![server_with_routes("a.example", vec![root])];
    let parser = parse_request(b"GET /script.py?x=1 HTTP/1.1\r\nHost: a.example\r\n\r\n");
    let req = parser.get().unwrap();
    match plan_request(&servers, 0, req).1 {
        Plan::Cgi { script } => {
            assert_eq!(script, "www/script.py");
            assert_eq!(interpreter_for(".py"), Some("python3"));
            let env = cgi_env(req, &script);
            assert!(env.contains(&("REQUEST_METHOD".to_string(), "GET".to_string())));
            assert!(env.contains(&("QUERY_STRING".to_string(), "x=1".to_string())));
            assert!(env.contains(&("PATH_INFO".to_string(), "/script.py".to_string())));
            assert!(env.contains(&("SCRIPT_FILENAME".to_string(), "www/script.py".to_string())));
            assert!(env.contains(&("SERVER_PROTOCOL".to_string(), "HTTP/1.1".to_string())));
            assert!(env.contains(&("GATEWAY_INTERFACE".to_string(), "CGI/1.1".to_string())));
            assert!(env.contains(&("HTTP_HOST".to_string(), "a.example".to_string())));
            let out = wrap_cgi_output(b"cgi says hi".to_vec());
            assert!(head_of(&out).starts_with("HTTP/1.1 200 OK\r\n"));
            assert_eq!(body_of(&out), b"cgi says hi");
        }
        other => panic!("unexpected plan: {:?}", other),
    }
}

#[test]
fn unknown_cgi_extension_has_no_interpreter() {
    assert_eq!(interpreter_for(".rb"), None);
    assert_eq!(interpreter_for(".php"), Some("php"));
    assert_eq!(interpreter_for(".sh"), Some("bash"));
    assert_eq!(interpreter_for(".pl"), Some("perl"));
}

#[test]
fn keep_alive_serves_sequential_requests() {
    let mut conn = Connection::new(1 << 20);
    assert!(matches!(conn.status, Status::Read));

    // First request, keep-alive.
    let step = conn.on_data(b"GET /a HTTP/1.1\r\nConnection: keep-alive\r\n\r\n".to_vec());
    assert_eq!(step, ReadStep::Ready);
    assert_eq!(conn.parsed().unwrap().path, "/a");
    conn.install_response(b"HTTP/1.1 200 OK\r\nContent-Length: 0\r\n\r\n".to_vec());
    assert!(matches!(conn.status, Status::Write));
    conn.written(19);
    assert!(!conn.write_finished());
    conn.written(19);
    assert!(conn.write_finished());
    assert!(conn.keep_alive());
    conn.reset_for_keep_alive(1 << 20);
    assert!(matches!(conn.status, Status::Read));
    assert!(conn.parsed().is_none());
    assert!(conn.response.is_none());

    // Second request on the same connection, keep-alive again.
    let step = conn.on_data(b"GET /b HTTP/1.1\r\nConnection: keep-alive\r\n\r\n".to_vec());
    assert_eq!(step, ReadStep::Ready);
    assert_eq!(conn.parsed().unwrap().path, "/b");
    assert!(conn.keep_alive());
    conn.reset_for_keep_alive(1 << 20);

    // Third request without the header: the loop is to close after it.
    let step = conn.on_data(b"GET /c HTTP/1.1\r\n\r\n".to_vec());
    assert_eq!(step, ReadStep::Ready);
    assert!(!conn.keep_alive());
}

#[test]
fn bad_bytes_drop_connection() {
    let mut conn = Connection::new(1 << 20);
    let step = conn.on_data(b"NOT AN HTTP REQUEST LINE\r\n\r\n".to_vec());
    assert_eq!(step, ReadStep::Drop);
}

#[test]
fn login_and_session_pages() {
    let mut store = SessionStore::new(300);

    // Wrong password: 401, nothing stored.
    let parser = parse_request(
        b"POST /login HTTP/1.1\r\nContent-Length: 29\r\n\r\nusername=admin&password=nope!",
    );
    let resp = handle_login(parser.get().unwrap(), &mut store, 100);
    assert!(head_of(&resp).starts_with("HTTP/1.1 401 Unauthorized\r\n"));
    assert!(store.get_all().is_empty());

    // Right password: 200 with a session cookie.
    let parser = parse_request(
        b"POST /login HTTP/1.1\r\nContent-Length: 32\r\n\r\nusername=admin&password=admin123",
    );
    let resp = handle_login(parser.get().unwrap(), &mut store, 100);
    let head = head_of(&resp);
    assert!(head.starts_with("HTTP/1.1 200 OK\r\n"));
    assert!(head.contains("Set-Cookie: session_id="));
    assert_eq!(store.get_all().len(), 1);
    let sid = store.get_all()[0].id.clone();

    // Dashboard with the session cookie.
    let raw = format!("GET /dashboard HTTP/1.1\r\nCookie: session_id={}\r\n\r\n", sid);
    let parser = parse_request(raw.as_bytes());
    let resp = handle_dashboard(parser.get().unwrap(), &store, 200);
    assert!(head_of(&resp).starts_with("HTTP/1.1 200 OK\r\n"));
    let text = String::from_utf8_lossy(&body_of(&resp)).into_owned();
    assert!(text.contains("Welcome, admin!"));
    assert!(text.contains(&sid));

    // Profile too.
    let resp = handle_profile(parser.get().unwrap(), &store, 200);
    assert!(head_of(&resp).starts_with("HTTP/1.1 200 OK\r\n"));
    let text = String::from_utf8_lossy(&body_of(&resp)).into_owned();
    assert!(text.contains("Profile: admin"));
    assert!(text.contains("Logged in for 100 seconds"));

    // Expired session redirects.
    let resp = handle_dashboard(parser.get().unwrap(), &store, 100 + 3600);
    let head = head_of(&resp);
    assert!(head.starts_with("HTTP/1.1 302 Found\r\n"));
    assert!(head.contains("Location: /login.html\r\n"));

    // Logout destroys the session and clears the cookie.
    let resp = handle_logout(parser.get().unwrap(), &mut store);
    let head = head_of(&resp);
    assert!(head.starts_with("HTTP/1.1 200 OK\r\n"));
    assert!(head.contains("Set-Cookie: session_id=; Max-Age=0; Path=/\r\n"));
    assert!(store.get(&sid).is_none());

    // Without a session the dashboard redirects.
    let parser = parse_request(b"GET /dashboard HTTP/1.1\r\n\r\n");
    let resp = handle_dashboard(parser.get().unwrap(), &store, 0);
    assert!(head_of(&resp).starts_with("HTTP/1.1 302 Found\r\n"));
}

#[test]
fn auth_guard_paths() {
    assert!(requires_auth("/dashboard"));
    assert!(requires_auth("/profile/me"));
    assert!(requires_auth("/settings"));
    assert!(requires_auth("/logout"));
    assert!(!requires_auth("/"));
    assert!(!requires_auth("/public/logo.png"));
}

#[test]
fn login_cookie_carries_fixed_attributes() {
    let mut store = SessionStore::new(300);
    let parser = parse_request(
        b"POST /login HTTP/1.1\r\nContent-Length: 32\r\n\r\nusername=admin&password=admin123",
    );
    let resp = handle_login(parser.get().unwrap(), &mut store, 100);
    let head = head_of(&resp);
    let sid = store.get_all()[0].id.clone();
    let expected = format!("Set-Cookie: session_id={}; Path=/; Max-Age=3600; HttpOnly\r\n", sid);
    assert!(head.contains(&expected));
}

#[test]
fn default_file_serves_route_directory_itself() {
    let mut docs = plain_route("/docs");
    docs.default_file = Some("index.html".to_string());
    let servers = vec![server_with_routes("a.example", vec![plain_route("/"), docs])];
    let parser = parse_request(b"GET /docs HTTP/1.1\r\nHost: a.example\r\n\r\n");
    let req = parser.get().unwrap();
    match plan_request(&servers, 0, req).1 {
        Plan::ServeFile { path } => assert_eq!(path, "www/index.html"),
        other => panic!("unexpected plan: {:?}", other),
    }
    // A deeper path under the same route serves the named file.
    let parser = parse_request(b"GET /docs/a.css HTTP/1.1\r\nHost: a.example\r\n\r\n");
    let req = parser.get().unwrap();
    match plan_request(&servers, 0, req).1 {
        Plan::ServeFile { path } => assert_eq!(path, "www/a.css"),
        other => panic!("unexpected plan: {:?}", other),
    }
}
