//! The configuration the server is driven by: a set of virtual
//! servers, each with its ports, document root, error pages, body cap
//! and ordered routes. Loading it from a file happens outside the
//! library, which receives these plain values.

use vstd::prelude::*;

verus! {

/// One URL-prefix binding.
#[derive(Debug)]
pub struct Route {
    /// The URL prefix this route claims.
    pub path: String,
    /// The methods the route allows, as upper-case names.
    pub methods: Vec<String>,
    /// A root that overrides the server's for this route.
    pub root: Option<String>,
    /// The file served when the path names a directory.
    pub default_file: Option<String>,
    /// A target that turns the request into a redirect.
    pub redirect: Option<String>,
    /// The extension (with its dot) handed to the CGI bridge.
    pub cgi: Option<String>,
    /// Whether a directory listing may be rendered.
    pub list_directory: Option<bool>,
}

/// One virtual server.
#[derive(Debug)]
pub struct ServerConfig {
    pub host: String,
    pub ports: Vec<u16>,
    /// The name the `Host` header selects this server by.
    pub server_name: String,
    /// Whether this server answers for unknown host names.
    pub default_server: bool,
    pub root: Option<String>,
    /// Status code to error-page path.
    pub error_pages: Vec<(u16, String)>,
    /// The largest body the parser accepts, in bytes.
    pub client_max_body_size: usize,
    pub routes: Vec<Route>,
}

#[derive(Debug)]
pub struct Config {
    pub servers: Vec<ServerConfig>,
}

impl ServerConfig {
    /// The names this resolver compares are ASCII.
    pub open spec fn wf(&self) -> bool {
        self.server_name.is_ascii()
    }

    /// The configured error page for a status code, if any.
    pub fn error_page_for(&self, status: u16) -> (r: Option<&String>)
        ensures
            match r {
                Some(p) => exists|i: int|
                    0 <= i < self.error_pages@.len() && #[trigger] self.error_pages@[i].0
                        == status && self.error_pages@[i].1 == p,
                None => forall|i: int|
                    0 <= i < self.error_pages@.len() ==> #[trigger] self.error_pages@[i].0
                        != status,
            },
    {
        let mut i: usize = 0;
        while i < self.error_pages.len()
            invariant
                0 <= i <= self.error_pages@.len(),
                forall|m: int| 0 <= m < i ==> #[trigger] self.error_pages@[m].0 != status,
            decreases self.error_pages@.len() - i,
        {
            if self.error_pages[i].0 == status {
                return Some(&self.error_pages[i].1);
            }
            i = i + 1;
        }
        None
    }
}

/// The index of the listener's default server: the first one marked
/// as default, else the first server.
pub fn default_index(servers: &Vec<ServerConfig>) -> (r: usize)
    requires
        servers@.len() > 0,
    ensures
        r < servers@.len(),
        servers@[r as int].default_server || (r == 0 && forall|i: int|
            0 <= i < servers@.len() ==> !(#[trigger] servers@[i]).default_server),
        forall|i: int| 0 <= i < r ==> !(#[trigger] servers@[i]).default_server,
{
    let mut i: usize = 0;
    while i < servers.len()
        invariant
            0 <= i <= servers@.len(),
            forall|m: int| 0 <= m < i ==> !(#[trigger] servers@[m]).default_server,
        decreases servers@.len() - i,
    {
        if servers[i].default_server {
            return i;
        }
        i = i + 1;
    }
    0
}

/// The widest body cap among the listener's servers: the parser for
/// a shared socket must accept what any of them accepts.
pub fn max_body_cap(servers: &Vec<ServerConfig>) -> (r: usize)
    ensures
        forall|i: int|
            0 <= i < servers@.len() ==> (#[trigger] servers@[i]).client_max_body_size <= r,
        servers@.len() > 0 ==> exists|i: int|
            0 <= i < servers@.len() && (#[trigger] servers@[i]).client_max_body_size == r,
        servers@.len() == 0 ==> r == 0,
{
    let mut best: usize = 0;
    let mut i: usize = 0;
    let mut found: usize = 0;
    while i < servers.len()
        invariant
            0 <= i <= servers@.len(),
            forall|m: int|
                0 <= m < i ==> (#[trigger] servers@[m]).client_max_body_size <= best,
            i > 0 ==> found < i && servers@[found as int].client_max_body_size == best,
            i == 0 ==> best == 0,
        decreases servers@.len() - i,
    {
        if i == 0 || servers[i].client_max_body_size > best {
            best = servers[i].client_max_body_size;
            found = i;
        }
        i = i + 1;
    }
    best
}

} // verus!
