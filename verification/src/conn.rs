//! The per-connection state machine and the dispatch decision. The
//! event loop outside reads and writes sockets; everything it decides
//! — when a request is complete, what to serve, when to reset for
//! keep-alive — is decided here on plain values.

use vstd::prelude::*;
use crate::request::{HttpRequestBuilder, HttpRequest, classify, spec_feed, SpecOutcome};
use crate::response::{SimpleResponse, HttpResponseCommon};
use crate::config::ServerConfig;
use crate::strutil::{lower_chars, string_lower, find_char, substring, str_eq, string_upper};
use crate::resolve::{select_server, find_route, resolve_path, route_matches, path_contained,
    strip_prefix};

verus! {

/// The phase a connection is in.
#[derive(Debug, PartialEq, Eq, Structural, Clone, Copy)]
pub enum Status {
    Read,
    Write,
    Finish,
}

/// One connection's parsing and writing state.
#[derive(Debug)]
pub struct Connection {
    pub status: Status,
    pub request: HttpRequestBuilder,
    pub response: Option<SimpleResponse>,
}

/// What feeding freshly read bytes decided.
#[derive(Debug, PartialEq, Eq, Structural, Clone, Copy)]
pub enum ReadStep {
    /// The request is still incomplete; wait for more bytes.
    NeedMore,
    /// A complete request is parsed and can be answered.
    Ready,
    /// The bytes were rejected; the connection is to be dropped.
    Drop,
}

impl Connection {
    /// The observable state of a connection nothing has touched.
    pub open spec fn fresh(&self, max_body: nat) -> bool {
        &&& self.status is Read
        &&& self.request.buf() == Seq::<u8>::empty()
        &&& self.request.max() == max_body
        &&& self.request.wf()
        &&& self.response is None
    }

    /// A connection as accepting hands it over.
    pub fn new(max_body: usize) -> (r: Connection)
        ensures
            r.fresh(max_body as nat),
    {
        Connection {
            status: Status::Read,
            request: HttpRequestBuilder::new_with_limit(max_body),
            response: None,
        }
    }

    /// Feeds bytes the socket delivered and reports whether the
    /// request is now complete, still short, or rejected.
    pub fn on_data(&mut self, data: Vec<u8>) -> (r: ReadStep)
        requires
            old(self).request.wf(),
        ensures
            final(self).request.wf(),
            final(self).request.max() == old(self).request.max(),
            final(self).request.buf() == spec_feed(
                old(self).request.buf(),
                data@,
                old(self).request.max(),
            ),
            final(self).status == old(self).status,
            final(self).response == old(self).response,
            r == ReadStep::Ready <==> classify(final(self).request.buf(), final(self).request.max())
                is Complete,
            r == ReadStep::Drop <==> classify(final(self).request.buf(), final(self).request.max())
                is Fail,
    {
        match self.request.append(data) {
            Err(_) => ReadStep::Drop,
            Ok(()) => {
                if self.request.done() {
                    ReadStep::Ready
                } else {
                    ReadStep::NeedMore
                }
            },
        }
    }

    /// The parsed request, once `on_data` reported it ready.
    pub fn parsed(&self) -> (r: Option<&HttpRequest>)
        requires
            self.request.wf(),
        ensures
            match r {
                Some(req) => classify(self.request.buf(), self.request.max()) matches
                    SpecOutcome::Complete(rv, _) && rv == req@ && req.wf(),
                None => !(classify(self.request.buf(), self.request.max()) is Complete),
            },
    {
        self.request.get()
    }

    /// Installs the rendered response and turns to writing.
    pub fn install_response(&mut self, bytes: Vec<u8>)
        ensures
            final(self).status is Write,
            final(self).response matches Some(resp) && resp.inv() && resp.remaining_bytes()
                == bytes@,
            final(self).request == old(self).request,
    {
        self.response = Some(SimpleResponse::new(bytes));
        self.status = Status::Write;
    }

    /// Accounts for `n` bytes the socket accepted.
    pub fn written(&mut self, n: usize)
        requires
            old(self).response matches Some(resp) && resp.inv() && n
                <= resp.remaining_bytes().len(),
        ensures
            final(self).response matches Some(resp2) && resp2.inv() && (old(
                self,
            ).response matches Some(resp1) && resp2.remaining_bytes()
                == resp1.remaining_bytes().skip(n as int)),
            final(self).status == old(self).status,
            final(self).request == old(self).request,
    {
        match &mut self.response {
            Some(resp) => {
                resp.advance(n);
            },
            None => {},
        }
    }

    /// True when the whole response has been written.
    pub fn write_finished(&self) -> (r: bool)
        requires
            self.response matches Some(resp) && resp.inv(),
        ensures
            self.response matches Some(resp) && r == (resp.remaining_bytes().len() == 0),
    {
        match &self.response {
            Some(resp) => resp.is_finished(),
            None => true,
        }
    }
}

/// Whether a parsed request asks to keep the connection: an ASCII
/// `Connection` value spelling `keep-alive` in any case.
pub open spec fn wants_keep_alive(rv: crate::request::ReqView) -> bool {
    rv.headers.contains_key("connection"@) && vstd::utf8::is_ascii_chars(
        rv.headers["connection"@],
    ) && lower_chars(rv.headers["connection"@]) == "keep-alive"@
}

impl Connection {
    /// Whether the just-answered request asked for keep-alive.
    pub fn keep_alive(&self) -> (r: bool)
        requires
            self.request.wf(),
        ensures
            classify(self.request.buf(), self.request.max()) matches SpecOutcome::Complete(
                rv,
                _,
            ) ==> r == wants_keep_alive(rv),
    {
        proof {
            reveal_strlit("connection");
            reveal_strlit("keep-alive");
            assert(lower_chars("connection"@) =~= "connection"@) by {
                assert(forall|i: int|
                    0 <= i < "connection"@.len() ==> crate::strutil::lower_char(
                        #[trigger] "connection"@[i],
                    ) == "connection"@[i]);
            }
        }
        match self.request.get() {
            Some(req) => {
                match req.headers.get("connection") {
                    Some(v) => {
                        if !v.as_str().is_ascii() {
                            return false;
                        }
                        let low = string_lower(v.as_str());
                        str_eq(low.as_str(), "keep-alive")
                    },
                    None => false,
                }
            },
            None => false,
        }
    }

    /// Puts the connection back to reading with a fresh parser, as a
    /// newly accepted connection stands: keep-alive leaves no trace
    /// of the request just served.
    pub fn reset_for_keep_alive(&mut self, max_body: usize)
        ensures
            final(self).fresh(max_body as nat),
    {
        self.status = Status::Read;
        self.request = HttpRequestBuilder::new_with_limit(max_body);
        self.response = None;
    }
}

/// Keep-alive idempotence: a reset connection and a freshly accepted
/// one cannot be told apart by anything the loop observes — phase,
/// parser bytes, body cap, pending response.
pub proof fn lemma_keep_alive_idempotence(a: Connection, b: Connection, max_body: nat)
    requires
        a.fresh(max_body),
        b.fresh(max_body),
    ensures
        a.status == b.status,
        a.request.buf() == b.request.buf(),
        a.request.max() == b.request.max(),
        (a.response is None) && (b.response is None),
{
}

/// What the loop is to do for a parsed request.
#[derive(Debug)]
pub enum Plan {
    /// Answer 302 with this location.
    Redirect(String),
    /// Answer 405; these methods are allowed.
    MethodNotAllowed(Vec<String>),
    /// Run this script through the CGI bridge.
    Cgi { script: String },
    /// Serve this file.
    ServeFile { path: String },
    /// Render a listing of this directory under the route's prefix.
    Listing { dir: String, route_path: String },
    /// Serve the not-found page: no route, or a path that escapes.
    NotFound,
}

/// The root a route serves from.
pub open spec fn spec_root_of(server: ServerConfig, route: crate::config::Route) -> Seq<char> {
    match route.root {
        Some(r) => r@,
        None => match server.root {
            Some(r) => r@,
            None => "public"@,
        },
    }
}

/// The host name a request asks for: the `Host` value up to any
/// `:`, when it is ASCII; otherwise nothing, and the default serves.
pub open spec fn spec_host_of(rv: crate::request::ReqView) -> Seq<char> {
    if rv.headers.contains_key("host"@) {
        let v = rv.headers["host"@];
        let cut = (match crate::strutil::find_char_from(v, ':', 0) {
            Some(c) => c,
            None => v.len() as int,
        });
        let h = v.take(cut);
        if vstd::utf8::is_ascii_chars(h) {
            h
        } else {
            Seq::empty()
        }
    } else {
        Seq::empty()
    }
}

/// The method name as gating compares it: upper-cased when ASCII.
pub open spec fn spec_method_upper(m: Seq<char>) -> Seq<char> {
    if vstd::utf8::is_ascii_chars(m) {
        crate::strutil::upper_chars(m)
    } else {
        m
    }
}

/// Whether a method name stands in a route's allow list.
pub open spec fn spec_allowed(methods: Seq<String>, mu: Seq<char>) -> bool {
    exists|k: int| 0 <= k < methods.len() && (#[trigger] methods[k])@ == mu
}

/// What the loop is to do, as plain values.
pub ghost enum PlanView {
    Redirect(Seq<char>),
    MethodNotAllowed(Seq<Seq<char>>),
    Cgi(Seq<char>),
    ServeFile(Seq<char>),
    Listing(Seq<char>, Seq<char>),
    NotFound,
}

/// The returned plan carries exactly the view's data.
pub open spec fn plan_matches(p: Plan, v: PlanView) -> bool {
    match p {
        Plan::Redirect(loc) => v matches PlanView::Redirect(l) && loc@ == l,
        Plan::MethodNotAllowed(list) => v matches PlanView::MethodNotAllowed(ms)
            && list@.map_values(|s: String| s@) == ms,
        Plan::Cgi { script } => v matches PlanView::Cgi(sv) && script@ == sv,
        Plan::ServeFile { path } => v matches PlanView::ServeFile(pv) && path@ == pv,
        Plan::Listing { dir, route_path } => v matches PlanView::Listing(d, rp) && dir@ == d
            && route_path@ == rp,
        Plan::NotFound => v is NotFound,
    }
}

/// The whole dispatch decision, laid out as the resolver works:
/// the `Host` header picks the server, the longest matching prefix
/// picks the route; a configured redirect answers 302; a method
/// outside a non-empty allow list answers 405; a path whose stripped
/// remainder escapes the root plans the not-found page; then CGI by
/// extension, the directory listing, the default file when the path
/// names the route itself, and the resolved file, in that order.
pub open spec fn spec_plan(
    servers: Seq<ServerConfig>,
    default_idx: int,
    rv: crate::request::ReqView,
) -> PlanView {
    let si = crate::resolve::spec_select(servers, default_idx, spec_host_of(rv));
    let server = servers[si];
    match crate::resolve::spec_find_route(server.routes@, rv.path) {
        None => PlanView::NotFound,
        Some(ri) => {
            let route = server.routes@[ri];
            match route.redirect {
                Some(t) => PlanView::Redirect(t@),
                None => if route.methods@.len() > 0 && !spec_allowed(
                    route.methods@,
                    spec_method_upper(rv.method),
                ) {
                    PlanView::MethodNotAllowed(route.methods@.map_values(|s: String| s@))
                } else {
                    let root = spec_root_of(server, route);
                    let rem = strip_prefix(route.path@, rv.path);
                    if !path_contained(rem) {
                        PlanView::NotFound
                    } else {
                        if (route.cgi matches Some(ext) && ext@.is_suffix_of(rv.path)) {
                            PlanView::Cgi(root + rem)
                        } else if route.list_directory == Some(true) {
                            PlanView::Listing(root, route.path@)
                        } else if route.default_file is Some && (rem.len() == 0 || rem
                            == "/"@) {
                            PlanView::ServeFile(root + "/"@ + route.default_file->Some_0@)
                        } else {
                            PlanView::ServeFile(root + rem)
                        }
                    }
                },
            }
        },
    }
}

/// Decides a parsed request against the servers sharing the
/// listener: exactly `spec_plan`, over the server `spec_select`
/// picks, which is also handed back for the caller's error pages.
#[verifier::rlimit(50)]
pub fn plan_request(servers: &Vec<ServerConfig>, default_idx: usize, request: &HttpRequest) -> (r:
    (usize, Plan))
    requires
        request.wf(),
        default_idx < servers@.len(),
        forall|i: int| 0 <= i < servers@.len() ==> (#[trigger] servers@[i]).wf(),
    ensures
        r.0 < servers@.len(),
        r.0 as int == crate::resolve::spec_select(
            servers@,
            default_idx as int,
            spec_host_of(request@),
        ),
        plan_matches(r.1, spec_plan(servers@, default_idx as int, request@)),
{
    proof {
        reveal_strlit("host");
        assert("host".is_ascii());
        assert(lower_chars("host"@) =~= "host"@) by {
            assert(forall|i: int|
                0 <= i < "host"@.len() ==> crate::strutil::lower_char(#[trigger] "host"@[i])
                    == "host"@[i]);
        }
    }
    let ghost hostg = spec_host_of(request@);
    let host = match request.headers.get("host") {
        Some(v) => {
            let cut = match find_char(v.as_str(), ':', 0) {
                Some(c) => c,
                None => v.as_str().unicode_len(),
            };
            let h = substring(v.as_str(), 0, cut);
            proof {
                assert(h@ =~= request@.headers["host"@].take(cut as int));
            }
            h
        },
        None => String::new(),
    };
    let host_checked = if host.as_str().is_ascii() {
        host
    } else {
        String::new()
    };
    proof {
        assert(host_checked@ == hostg);
    }
    let si = select_server(servers, default_idx, host_checked.as_str());
    let ghost sp = spec_plan(servers@, default_idx as int, request@);
    let server = &servers[si];
    let ri = match find_route(&server.routes, request.path.as_str()) {
        None => {
            proof {
                assert(sp is NotFound);
            }
            return (si, Plan::NotFound);
        },
        Some(ri) => ri,
    };
    let ghost route_g = server.routes@[ri as int];
    let route = &server.routes[ri];
    match &route.redirect {
        Some(target) => {
            let loc = String::from_str(target.as_str());
            proof {
                assert(sp == PlanView::Redirect(route_g.redirect->Some_0@));
            }
            return (si, Plan::Redirect(loc));
        },
        None => {},
    }
    if route.methods.len() > 0 {
        let up = string_upper_checked(request.method.as_str());
        proof {
            assert(up@ == spec_method_upper(request@.method));
        }
        let mut allowed = false;
        let mut m: usize = 0;
        while m < route.methods.len()
            invariant
                0 <= m <= route_g.methods@.len(),
                *route == route_g,
                allowed == exists|k: int|
                    0 <= k < m && (#[trigger] route_g.methods@[k])@ == up@,
            decreases route_g.methods@.len() - m,
        {
            if str_eq(route.methods[m].as_str(), up.as_str()) {
                allowed = true;
            }
            m = m + 1;
        }
        proof {
            assert(allowed == spec_allowed(route_g.methods@, spec_method_upper(
                request@.method,
            )));
        }
        if !allowed {
            let mut list: Vec<String> = Vec::new();
            let mut m2: usize = 0;
            while m2 < route.methods.len()
                invariant
                    0 <= m2 <= route_g.methods@.len(),
                    *route == route_g,
                    list@.len() == m2,
                    forall|k: int| 0 <= k < m2 ==> (#[trigger] list@[k])@ == route_g.methods@[k]@,
                decreases route_g.methods@.len() - m2,
            {
                list.push(String::from_str(route.methods[m2].as_str()));
                m2 = m2 + 1;
            }
            proof {
                assert(list@.map_values(|s: String| s@) =~= route_g.methods@.map_values(
                    |s: String| s@,
                ));
                assert(sp == PlanView::MethodNotAllowed(route_g.methods@.map_values(
                    |s: String| s@,
                )));
            }
            return (si, Plan::MethodNotAllowed(list));
        }
    }
    let root = match &route.root {
        Some(rr) => String::from_str(rr.as_str()),
        None => match &server.root {
            Some(sr) => String::from_str(sr.as_str()),
            None => String::from_str("public"),
        },
    };
    proof {
        assert(root@ == spec_root_of(servers@[si as int], route_g));
    }
    let resolved = match resolve_path(root.as_str(), route.path.as_str(), request.path.as_str()) {
        None => {
            proof {
                assert(sp is NotFound);
            }
            return (si, Plan::NotFound);
        },
        Some(p) => p,
    };
    match &route.cgi {
        Some(ext) => {
            if crate::strutil::ends_with_str(request.path.as_str(), ext.as_str()) {
                proof {
                    assert(sp == PlanView::Cgi(resolved@));
                }
                return (si, Plan::Cgi { script: resolved });
            }
        },
        None => {},
    }
    match &route.list_directory {
        Some(flag) => {
            if *flag {
                let rp = String::from_str(route.path.as_str());
                proof {
                    assert(sp == PlanView::Listing(root@, route_g.path@));
                }
                return (si, Plan::Listing { dir: root, route_path: rp });
            }
        },
        None => {},
    }
    match &route.default_file {
        Some(df) => {
            let rem = if str_eq(route.path.as_str(), "/") {
                String::from_str(request.path.as_str())
            } else {
                proof {
                    reveal_strlit("/");
                    if route_g.path@ != request@.path {
                        assert((route_g.path@ + "/"@).is_prefix_of(request@.path));
                        assert(request@.path.len() >= route_g.path@.len() + 1);
                    }
                }
                substring(
                    request.path.as_str(),
                    route.path.as_str().unicode_len(),
                    request.path.as_str().unicode_len(),
                )
            };
            proof {
                assert(rem@ == strip_prefix(route_g.path@, request@.path));
            }
            if rem.as_str().unicode_len() == 0 || str_eq(rem.as_str(), "/") {
                let mut p = root;
                p.append("/");
                p.append(df.as_str());
                proof {
                    assert(sp == PlanView::ServeFile(spec_root_of(
                        servers@[si as int],
                        route_g,
                    ) + "/"@ + route_g.default_file->Some_0@));
                }
                return (si, Plan::ServeFile { path: p });
            }
        },
        None => {},
    }
    proof {
        assert(sp == PlanView::ServeFile(resolved@));
    }
    (si, Plan::ServeFile { path: resolved })
}

/// Path containment, read off the dispatch decision: every file or
/// script path the plan names is the chosen root followed by the
/// request path's contained remainder (or the route's default file
/// under that root); a remainder that escapes plans the not-found
/// page, and no path is named at all.
pub proof fn lemma_plan_paths_contained(
    servers: Seq<ServerConfig>,
    default_idx: int,
    rv: crate::request::ReqView,
)
    ensures
        spec_plan(servers, default_idx, rv) matches PlanView::ServeFile(p) ==> {
            let si = crate::resolve::spec_select(servers, default_idx, spec_host_of(rv));
            let ri = crate::resolve::spec_find_route(servers[si].routes@, rv.path)->Some_0;
            let route = servers[si].routes@[ri];
            let root = spec_root_of(servers[si], route);
            let rem = strip_prefix(route.path@, rv.path);
            path_contained(rem) && (p == root + rem || (route.default_file matches Some(df)
                && p == root + "/"@ + df@))
        },
        spec_plan(servers, default_idx, rv) matches PlanView::Cgi(p) ==> {
            let si = crate::resolve::spec_select(servers, default_idx, spec_host_of(rv));
            let ri = crate::resolve::spec_find_route(servers[si].routes@, rv.path)->Some_0;
            let route = servers[si].routes@[ri];
            path_contained(strip_prefix(route.path@, rv.path)) && p == spec_root_of(
                servers[si],
                route,
            ) + strip_prefix(route.path@, rv.path)
        },
{
}

/// An upper-case fold that leaves non-ASCII names unchanged.
fn string_upper_checked(s: &str) -> (r: String)
    ensures
        r@ == spec_method_upper(s@),
{
    if s.is_ascii() {
        string_upper(s)
    } else {
        String::from_str(s)
    }
}

} // verus!
