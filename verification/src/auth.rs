//! Login, logout and the session-guarded pages. Each handler takes
//! the store and the current time as plain values and returns the
//! full response bytes.

use vstd::prelude::*;
use crate::request::HttpRequest;
use crate::session::SessionStore;
use crate::cookie::{Cookie, spec_header_value, session_id_of_header};
use crate::response::{HttpResponseBuilder, RespView, spec_build};
use crate::bytes::all_ascii;
use crate::handler::utf8_of;

verus! {

/// The form fields a body's `k=v&k=v` pairs decode to; a missing or
/// non-ASCII body decodes to nothing.
pub open spec fn form_map_of(body: Option<Seq<u8>>) -> Map<Seq<char>, Seq<char>> {
    match body {
        Some(b) => if all_ascii(b) {
            crate::request::pairs_map(crate::request::query_pairs_of(b))
        } else {
            Map::empty()
        },
        None => Map::empty(),
    }
}

/// The fixed user table: a name/password pair the login accepts.
pub open spec fn spec_valid_creds(m: Map<Seq<char>, Seq<char>>) -> bool {
    &&& m.contains_key("username"@)
    &&& m.contains_key("password"@)
    &&& {
        let u = m["username"@];
        let p = m["password"@];
        (u == "admin"@ && p == "admin123"@) || (u == "user"@ && p == "user123"@) || (u
            == "test"@ && p == "test123"@)
    }
}

/// The page a successful login serves.
pub open spec fn login_ok_html(username: Seq<char>) -> Seq<char> {
    "<html><head><title>Login Successful</title></head><body><h1>Login Successful!</h1><p>Welcome back, "@
        + username + "! Redirecting...</p></body></html>"@
}

/// The page a failed login serves.
pub open spec fn login_fail_html() -> Seq<char> {
    "<html><head><title>Login Failed</title></head><body><h1>Login Failed</h1><p>Invalid credentials</p><a href=\"/login.html\">Try again</a></body></html>"@
}

/// The `Set-Cookie` value a fresh session is issued under: the id
/// at `session_id`, for the whole site, HTTP-only, for an hour.
pub open spec fn session_cookie_header(sid: Seq<char>) -> Seq<char> {
    "session_id"@ + "="@ + crate::cookie::url_encode_chars(sid) + ("; Path="@ + "/"@)
        + ("; Max-Age="@ + crate::strutil::dec_chars(3600)) + "; HttpOnly"@
}

/// The issued cookie's header value is ASCII.
proof fn lemma_session_cookie_header_ascii(sid: Seq<char>)
    ensures
        vstd::utf8::is_ascii_chars(session_cookie_header(sid)),
{
    reveal_strlit("session_id");
    reveal_strlit("=");
    reveal_strlit("; Path=");
    reveal_strlit("/");
    reveal_strlit("; Max-Age=");
    reveal_strlit("; HttpOnly");
    assert("session_id".is_ascii());
    assert("=".is_ascii());
    assert("; Path=".is_ascii());
    assert("/".is_ascii());
    assert("; Max-Age=".is_ascii());
    assert("; HttpOnly".is_ascii());
    crate::cookie::lemma_url_encode_chars_ascii(sid);
    crate::cookie::lemma_dec_chars_ascii(3600);
    crate::cookie::lemma_ascii_concat("session_id"@, "="@);
    crate::cookie::lemma_ascii_concat(
        "session_id"@ + "="@,
        crate::cookie::url_encode_chars(sid),
    );
    crate::cookie::lemma_ascii_concat("; Path="@, "/"@);
    crate::cookie::lemma_ascii_concat(
        "session_id"@ + "="@ + crate::cookie::url_encode_chars(sid),
        "; Path="@ + "/"@,
    );
    crate::cookie::lemma_ascii_concat("; Max-Age="@, crate::strutil::dec_chars(3600));
    crate::cookie::lemma_ascii_concat(
        "session_id"@ + "="@ + crate::cookie::url_encode_chars(sid) + ("; Path="@ + "/"@),
        "; Max-Age="@ + crate::strutil::dec_chars(3600),
    );
    crate::cookie::lemma_ascii_concat(
        "session_id"@ + "="@ + crate::cookie::url_encode_chars(sid) + ("; Path="@ + "/"@) + (
        "; Max-Age="@ + crate::strutil::dec_chars(3600)),
        "; HttpOnly"@,
    );
}

/// Reads the login form and either opens a session for a known user,
/// answering 200 with its cookie, or answers 401 and stores nothing.
pub fn handle_login(request: &HttpRequest, session_store: &mut SessionStore, now: u64) -> (r:
    Vec<u8>)
    requires
        request.wf(),
        old(session_store).wf(),
    ensures
        final(session_store).wf(),
        !spec_valid_creds(form_map_of(request@.body)) ==> final(session_store)@ == old(
            session_store,
        )@ && r@ == spec_build(
            RespView {
                status: 401,
                reason: "Unauthorized"@,
                headers: Seq::empty(),
                body: utf8_of(login_fail_html()),
            },
        ),
        spec_valid_creds(form_map_of(request@.body)) ==> {
            let u = form_map_of(request@.body)["username"@];
            exists|sid: Seq<char>, sv: crate::session::SessionView|
                #![auto]
                final(session_store)@ == old(session_store)@.insert(sid, sv)
                    && sv.user_id == Some(u) && sv.username == Some(u)
                    && sv.created_at == now && r@ == spec_build(
                    RespView {
                        status: 200,
                        reason: "OK"@,
                        headers: seq![("Set-Cookie"@, session_cookie_header(sid))],
                        body: utf8_of(login_ok_html(u)),
                    },
                )
        },
{
    let params = match &request.body {
        Some(b) => {
            if crate::bytes::check_all_ascii(b.as_slice()) {
                crate::request::build_query_map(b.as_slice())
            } else {
                crate::strmap::StrMap::new()
            }
        },
        None => crate::strmap::StrMap::new(),
    };
    proof {
        assert(params@ == form_map_of(request@.body));
        reveal_strlit("username");
        reveal_strlit("password");
        reveal_strlit("admin");
        reveal_strlit("admin123");
        reveal_strlit("user");
        reveal_strlit("user123");
        reveal_strlit("test");
        reveal_strlit("test123");
    }
    let username = match params.get("username") {
        Some(u) => String::from_str(u.as_str()),
        None => String::new(),
    };
    let password = match params.get("password") {
        Some(p) => String::from_str(p.as_str()),
        None => String::new(),
    };
    let has_both = {
        let hu = match params.get("username") {
            Some(_) => true,
            None => false,
        };
        let hp = match params.get("password") {
            Some(_) => true,
            None => false,
        };
        hu && hp
    };
    let is_valid = has_both && ((crate::strutil::str_eq(username.as_str(), "admin")
        && crate::strutil::str_eq(password.as_str(), "admin123")) || (crate::strutil::str_eq(
        username.as_str(),
        "user",
    ) && crate::strutil::str_eq(password.as_str(), "user123")) || (crate::strutil::str_eq(
        username.as_str(),
        "test",
    ) && crate::strutil::str_eq(password.as_str(), "test123")));
    if is_valid {
        let session = session_store.create_with_user(username.as_str(), username.as_str(), now);
        let cookie = Cookie::new("session_id", session.id.as_str()).path("/").http_only(
            true,
        ).max_age(3600);
        let hv = cookie.to_header_value();
        proof {
            reveal_strlit("session_id");
            assert(hv@ =~= session_cookie_header(session.id@));
            lemma_session_cookie_header_ascii(session.id@);
            assert(hv.is_ascii());
        }
        let mut html = String::from_str(
            "<html><head><title>Login Successful</title></head><body><h1>Login Successful!</h1><p>Welcome back, ",
        );
        html.append(username.as_str());
        html.append("! Redirecting...</p></body></html>");
        proof {
            assert(html@ == login_ok_html(username@));
        }
        proof {
            reveal_strlit("Set-Cookie");
            assert("Set-Cookie".is_ascii());
        }
        let b = HttpResponseBuilder::ok().header("Set-Cookie", hv.as_str()).body(
            html.as_str().as_bytes_vec(),
        );
        let ghost bv = b@;
        let out = b.build();
        proof {
            let u = form_map_of(request@.body)["username"@];
            assert(username@ == u);
            assert(session_store@ == old(session_store)@.insert(session.id@, session@));
            assert(session@.user_id == Some(u));
            assert(bv.headers =~= seq![
                ("Set-Cookie"@, session_cookie_header(session.id@)),
            ]);
            assert(out@ == spec_build(
                RespView {
                    status: 200,
                    reason: "OK"@,
                    headers: seq![("Set-Cookie"@, session_cookie_header(session.id@))],
                    body: utf8_of(login_ok_html(u)),
                },
            ));
        }
        out
    } else {
        let html = String::from_str(
            "<html><head><title>Login Failed</title></head><body><h1>Login Failed</h1><p>Invalid credentials</p><a href=\"/login.html\">Try again</a></body></html>",
        );
        let b = HttpResponseBuilder::unauthorized().body(html.as_str().as_bytes_vec());
        let ghost bv = b@;
        let out = b.build();
        proof {
            assert(bv.headers =~= Seq::<(Seq<char>, Seq<char>)>::empty());
        }
        out
    }
}

/// The page logout serves.
pub open spec fn logout_html() -> Seq<char> {
    "<html><head><title>Logged Out</title></head><body><h1>Logged Out</h1><p>Redirecting...</p></body></html>"@
}

/// Destroys the request's session, if it names one, and serves a
/// page that also clears the cookie.
pub fn handle_logout(request: &HttpRequest, session_store: &mut SessionStore) -> (r: Vec<u8>)
    requires
        request.wf(),
        old(session_store).wf(),
    ensures
        final(session_store).wf(),
        request@.headers.contains_key("cookie"@) ==> (session_id_of_header(
            request@.headers["cookie"@],
        ) matches Some(sid) ==> final(session_store)@ == old(session_store)@.remove(sid)),
        (!request@.headers.contains_key("cookie"@) || session_id_of_header(
            request@.headers["cookie"@],
        ) is None) ==> final(session_store)@ == old(session_store)@,
        r@ == spec_build(
            RespView {
                status: 200,
                reason: "OK"@,
                headers: seq![("Set-Cookie"@, "session_id"@ + "=; Max-Age=0; Path=/"@)],
                body: utf8_of(logout_html()),
            },
        ),
{
    match request.get_session_id() {
        Some(sid) => {
            session_store.destroy(sid.as_str());
        },
        None => {},
    }
    let hv = Cookie::delete_cookie("session_id");
    proof {
        reveal_strlit("session_id");
        reveal_strlit("=; Max-Age=0; Path=/");
        reveal_strlit("session_id=; Max-Age=0; Path=/");
        assert(hv@ =~= "session_id=; Max-Age=0; Path=/"@);
        assert("session_id=; Max-Age=0; Path=/".is_ascii());
        reveal_strlit("Set-Cookie");
        assert("Set-Cookie".is_ascii());
    }
    let html = String::from_str(
        "<html><head><title>Logged Out</title></head><body><h1>Logged Out</h1><p>Redirecting...</p></body></html>",
    );
    let b = HttpResponseBuilder::ok().header("Set-Cookie", hv.as_str()).body(
        html.as_str().as_bytes_vec(),
    );
    let ghost bv = b@;
    let out = b.build();
    proof {
        assert(bv.headers =~= seq![("Set-Cookie"@, "session_id"@ + "=; Max-Age=0; Path=/"@)]);
    }
    out
}

/// The session id the request's cookie names, if any.
pub open spec fn spec_auth_sid(req: crate::request::ReqView) -> Option<Seq<char>> {
    if req.headers.contains_key("cookie"@) {
        session_id_of_header(req.headers["cookie"@])
    } else {
        None
    }
}

/// Whether the named session is present and logged in at `now`.
pub open spec fn spec_logged_in(
    req: crate::request::ReqView,
    store: Map<Seq<char>, crate::session::SessionView>,
    now: u64,
) -> bool {
    spec_auth_sid(req) matches Some(sid) && store.contains_key(sid) && store[sid].user_id
        is Some && now < store[sid].expires_at
}

/// The display name of a session's user.
pub open spec fn spec_display_name(sv: crate::session::SessionView) -> Seq<char> {
    match sv.username {
        Some(u) => u,
        None => "User"@,
    }
}

/// The dashboard page for a user and session id.
pub open spec fn dashboard_html(username: Seq<char>, sid: Seq<char>) -> Seq<char> {
    "<html><head><title>Dashboard</title></head><body><h1>Dashboard</h1><h2>Welcome, "@
        + username + "!</h2><p>You are logged in.</p><p>Session ID: "@ + sid
        + "</p><a href=\"/profile\">View Profile</a> <a href=\"/logout\">Logout</a></body></html>"@
}

/// The redirect served when no session is logged in.
pub open spec fn spec_login_redirect() -> crate::response::RespView {
    RespView {
        status: 302,
        reason: "Found"@,
        headers: seq![("Location"@, "/login.html"@)],
        body: Seq::<u8>::empty(),
    }
}

/// Serves the dashboard to a logged-in session and a redirect to the
/// login page to anyone else.
pub fn handle_dashboard(request: &HttpRequest, session_store: &SessionStore, now: u64) -> (r:
    Vec<u8>)
    requires
        request.wf(),
        session_store.wf(),
    ensures
        spec_logged_in(request@, session_store@, now) ==> (spec_auth_sid(request@) matches Some(
            sid,
        ) && r@ == spec_build(
            RespView {
                status: 200,
                reason: "OK"@,
                headers: Seq::empty(),
                body: utf8_of(
                    dashboard_html(spec_display_name(session_store@[sid]), sid),
                ),
            },
        )),
        !spec_logged_in(request@, session_store@, now) ==> r@ == spec_build(
            spec_login_redirect(),
        ),
{
    proof {
        reveal_strlit("Location");
        assert("Location".is_ascii());
    }
    match request.get_session_id() {
        Some(sid) => {
            match session_store.get(sid.as_str()) {
                Some(session) => {
                    if session.is_logged_in(now) {
                        let name = match &session.username {
                            Some(u) => String::from_str(u.as_str()),
                            None => String::from_str("User"),
                        };
                        proof {
                            reveal_strlit("User");
                        }
                        let mut html = String::from_str(
                            "<html><head><title>Dashboard</title></head><body><h1>Dashboard</h1><h2>Welcome, ",
                        );
                        html.append(name.as_str());
                        html.append("!</h2><p>You are logged in.</p><p>Session ID: ");
                        html.append(sid.as_str());
                        html.append(
                            "</p><a href=\"/profile\">View Profile</a> <a href=\"/logout\">Logout</a></body></html>",
                        );
                        proof {
                            assert(html@ == dashboard_html(
                                spec_display_name(session_store@[sid@]),
                                sid@,
                            ));
                        }
                        let b = HttpResponseBuilder::ok().body(html.as_str().as_bytes_vec());
                        let ghost bv = b@;
                        let out = b.build();
                        proof {
                            assert(bv.headers =~= Seq::<(Seq<char>, Seq<char>)>::empty());
                        }
                        return out;
                    }
                    login_redirect()
                },
                None => login_redirect(),
            }
        },
        None => login_redirect(),
    }
}

/// The profile page for a user.
pub open spec fn profile_html(username: Seq<char>, user_id: Seq<char>, since: Seq<char>) -> Seq<
    char,
> {
    "<html><head><title>Profile</title></head><body><h1>Profile: "@ + username
        + "</h1><p>User ID: "@ + user_id + "</p><p>Logged in for "@ + since
        + " seconds</p><a href=\"/dashboard\">Back to Dashboard</a></body></html>"@
}

/// The display id of a session's user.
pub open spec fn spec_display_user_id(sv: crate::session::SessionView) -> Seq<char> {
    match sv.user_id {
        Some(u) => u,
        None => "N/A"@,
    }
}

/// Seconds from the session's creation to `now`, never negative.
pub open spec fn spec_since(sv: crate::session::SessionView, now: u64) -> u64 {
    if now >= sv.created_at {
        (now - sv.created_at) as u64
    } else {
        0
    }
}

/// Serves the profile page to a logged-in session and a redirect to
/// the login page to anyone else.
pub fn handle_profile(request: &HttpRequest, session_store: &SessionStore, now: u64) -> (r: Vec<
    u8,
>)
    requires
        request.wf(),
        session_store.wf(),
    ensures
        spec_logged_in(request@, session_store@, now) ==> (spec_auth_sid(request@) matches Some(
            sid,
        ) && r@ == spec_build(
            RespView {
                status: 200,
                reason: "OK"@,
                headers: Seq::empty(),
                body: utf8_of(
                    profile_html(
                        spec_display_name(session_store@[sid]),
                        spec_display_user_id(session_store@[sid]),
                        crate::strutil::dec_chars(
                            spec_since(session_store@[sid], now) as nat,
                        ),
                    ),
                ),
            },
        )),
        !spec_logged_in(request@, session_store@, now) ==> r@ == spec_build(
            spec_login_redirect(),
        ),
{
    proof {
        reveal_strlit("Location");
        assert("Location".is_ascii());
    }
    match request.get_session_id() {
        Some(sid) => {
            match session_store.get(sid.as_str()) {
                Some(session) => {
                    if session.is_logged_in(now) {
                        let name = match &session.username {
                            Some(u) => String::from_str(u.as_str()),
                            None => String::from_str("User"),
                        };
                        let uid = match &session.user_id {
                            Some(u) => String::from_str(u.as_str()),
                            None => String::from_str("N/A"),
                        };
                        proof {
                            reveal_strlit("User");
                            reveal_strlit("N/A");
                        }
                        let since = if now >= session.created_at {
                            now - session.created_at
                        } else {
                            0
                        };
                        let since_s = crate::strutil::u64_to_string(since);
                        let mut html = String::from_str(
                            "<html><head><title>Profile</title></head><body><h1>Profile: ",
                        );
                        html.append(name.as_str());
                        html.append("</h1><p>User ID: ");
                        html.append(uid.as_str());
                        html.append("</p><p>Logged in for ");
                        html.append(since_s.as_str());
                        html.append(
                            " seconds</p><a href=\"/dashboard\">Back to Dashboard</a></body></html>",
                        );
                        proof {
                            assert(html@ == profile_html(
                                spec_display_name(session_store@[sid@]),
                                spec_display_user_id(session_store@[sid@]),
                                crate::strutil::dec_chars(
                                    spec_since(session_store@[sid@], now) as nat,
                                ),
                            ));
                        }
                        let b = HttpResponseBuilder::ok().body(html.as_str().as_bytes_vec());
                        let ghost bv = b@;
                        let out = b.build();
                        proof {
                            assert(bv.headers =~= Seq::<(Seq<char>, Seq<char>)>::empty());
                        }
                        return out;
                    }
                    login_redirect()
                },
                None => login_redirect(),
            }
        },
        None => login_redirect(),
    }
}

/// The 302 response pointing at the login page.
fn login_redirect() -> (r: Vec<u8>)
    ensures
        r@ == spec_build(spec_login_redirect()),
{
    proof {
        reveal_strlit("Location");
        assert("Location".is_ascii());
        reveal_strlit("/login.html");
        assert("/login.html".is_ascii());
    }
    let b = HttpResponseBuilder::found().header("Location", "/login.html");
    let ghost bv = b@;
    let out = b.build();
    proof {
        assert(bv.headers =~= seq![("Location"@, "/login.html"@)]);
    }
    out
}

/// True when the path lies in the part of the site that wants a
/// logged-in session.
pub open spec fn spec_requires_auth(p: Seq<char>) -> bool {
    "/dashboard"@.is_prefix_of(p) || "/profile"@.is_prefix_of(p) || "/settings"@.is_prefix_of(p)
        || "/logout"@.is_prefix_of(p)
}

/// Whether a path wants a logged-in session.
pub fn requires_auth(path: &str) -> (r: bool)
    ensures
        r == spec_requires_auth(path@),
{
    crate::strutil::starts_with_str(path, "/dashboard") || crate::strutil::starts_with_str(
        path,
        "/profile",
    ) || crate::strutil::starts_with_str(path, "/settings") || crate::strutil::starts_with_str(
        path,
        "/logout",
    )
}

} // verus!
