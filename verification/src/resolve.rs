//! The virtual-host and route resolver: which server a `Host` header
//! selects, which route a path falls under (the longest matching
//! prefix wins), and whether a path stays inside its base directory.

use vstd::prelude::*;
use crate::config::{ServerConfig, Route};
use crate::strutil::{
    lower_chars, string_lower, str_eq, starts_with_str, find_char_from, lemma_find_char_from,
    find_char, substring,
};
use crate::cookie::lemma_find_char_shift;

verus! {

/// Host selection: the first server whose name, case folded, equals
/// the case-folded host name; the listener's default otherwise.
pub open spec fn host_selects(servers: Seq<ServerConfig>, host: Seq<char>, i: int) -> bool {
    &&& 0 <= i < servers.len()
    &&& lower_chars(servers[i].server_name@) == lower_chars(host)
}

/// The first server at or after `i` whose case-folded name matches.
pub open spec fn first_host_match(servers: Seq<ServerConfig>, host: Seq<char>, i: int) -> Option<
    int,
>
    decreases servers.len() - i,
{
    if i < 0 || i >= servers.len() {
        None
    } else if lower_chars(servers[i].server_name@) == lower_chars(host) {
        Some(i)
    } else {
        first_host_match(servers, host, i + 1)
    }
}

/// The index host selection lands on: the first name match, else the
/// default.
pub open spec fn spec_select(servers: Seq<ServerConfig>, default_idx: int, host: Seq<
    char,
>) -> int {
    match first_host_match(servers, host, 0) {
        Some(i) => i,
        None => default_idx,
    }
}

/// The server a `Host` value picks among those on one listener:
/// exactly `spec_select` — the first one whose name matches, else
/// the default.
pub fn select_server(servers: &Vec<ServerConfig>, default_idx: usize, hostname: &str) -> (r:
    usize)
    requires
        default_idx < servers@.len(),
        hostname.is_ascii(),
        forall|i: int| 0 <= i < servers@.len() ==> (#[trigger] servers@[i]).wf(),
    ensures
        r < servers@.len(),
        r as int == spec_select(servers@, default_idx as int, hostname@),
        (exists|i: int| host_selects(servers@, hostname@, i)) ==> host_selects(
            servers@,
            hostname@,
            r as int,
        ) && (forall|m: int| 0 <= m < r ==> !host_selects(servers@, hostname@, m)),
        !(exists|i: int| host_selects(servers@, hostname@, i)) ==> r == default_idx,
{
    let low_host = string_lower(hostname);
    let mut i: usize = 0;
    while i < servers.len()
        invariant
            0 <= i <= servers@.len(),
            default_idx < servers@.len(),
            low_host@ == lower_chars(hostname@),
            forall|i2: int| 0 <= i2 < servers@.len() ==> (#[trigger] servers@[i2]).wf(),
            forall|m: int| 0 <= m < i ==> !host_selects(servers@, hostname@, m),
            first_host_match(servers@, hostname@, 0) == first_host_match(
                servers@,
                hostname@,
                i as int,
            ),
        decreases servers@.len() - i,
    {
        let low_name = string_lower(servers[i].server_name.as_str());
        if str_eq(low_name.as_str(), low_host.as_str()) {
            return i;
        }
        i = i + 1;
    }
    default_idx
}

/// Route matching: the route's prefix is `/`, or equals the path, or
/// is followed in the path by a `/`.
pub open spec fn route_matches(rp: Seq<char>, p: Seq<char>) -> bool {
    rp == "/"@ || rp == p || (rp + "/"@).is_prefix_of(p)
}

/// True when this route's prefix claims the path.
pub fn route_match(rp: &str, p: &str) -> (r: bool)
    ensures
        r == route_matches(rp@, p@),
{
    if str_eq(rp, "/") {
        return true;
    }
    if str_eq(rp, p) {
        return true;
    }
    let mut with_slash = String::from_str(rp);
    with_slash.append("/");
    starts_with_str(p, with_slash.as_str())
}

/// The best route index after scanning entries from `i` with `best`
/// already chosen: a later route displaces the held one only with a
/// strictly longer matching prefix.
pub open spec fn best_route_from(
    routes: Seq<Route>,
    path: Seq<char>,
    i: int,
    best: Option<int>,
) -> Option<int>
    decreases routes.len() - i,
{
    if i < 0 || i >= routes.len() {
        best
    } else {
        let take_it = route_matches(routes[i].path@, path) && (match best {
            None => true,
            Some(b) => routes[b].path@.len() < routes[i].path@.len(),
        });
        best_route_from(
            routes,
            path,
            i + 1,
            if take_it {
                Some(i)
            } else {
                best
            },
        )
    }
}

/// The route longest-prefix matching lands on.
pub open spec fn spec_find_route(routes: Seq<Route>, path: Seq<char>) -> Option<int> {
    best_route_from(routes, path, 0, None)
}

/// Longest-prefix routing: exactly `spec_find_route` — the chosen
/// route matches the path, no matching route has a longer prefix,
/// and among the longest the first wins. `None` exactly when no
/// route matches.
pub fn find_route(routes: &Vec<Route>, path: &str) -> (r: Option<usize>)
    ensures
        (match r {
            Some(i) => spec_find_route(routes@, path@) == Some(i as int),
            None => spec_find_route(routes@, path@) is None,
        }),
        match r {
            Some(i) => i < routes@.len() && route_matches(routes@[i as int].path@, path@) && (
            forall|m: int|
                0 <= m < routes@.len() && route_matches(
                    #[trigger] routes@[m].path@,
                    path@,
                ) ==> routes@[m].path@.len() <= routes@[i as int].path@.len()) && (forall|m: int|
                0 <= m < i && route_matches(#[trigger] routes@[m].path@, path@)
                    ==> routes@[m].path@.len() < routes@[i as int].path@.len()),
            None => forall|m: int|
                0 <= m < routes@.len() ==> !route_matches(#[trigger] routes@[m].path@, path@),
        },
{
    let mut best: Option<usize> = None;
    let mut i: usize = 0;
    while i < routes.len()
        invariant
            0 <= i <= routes@.len(),
            spec_find_route(routes@, path@) == best_route_from(
                routes@,
                path@,
                i as int,
                (match best {
                    Some(b) => Some(b as int),
                    None => None,
                }),
            ),
            match best {
                Some(b) => b < i && route_matches(routes@[b as int].path@, path@) && (forall|
                    m: int,
                |
                    0 <= m < i && route_matches(#[trigger] routes@[m].path@, path@)
                        ==> routes@[m].path@.len() <= routes@[b as int].path@.len()) && (forall|
                    m: int,
                |
                    0 <= m < b && route_matches(#[trigger] routes@[m].path@, path@)
                        ==> routes@[m].path@.len() < routes@[b as int].path@.len()),
                None => forall|m: int|
                    0 <= m < i ==> !route_matches(#[trigger] routes@[m].path@, path@),
            },
        decreases routes@.len() - i,
    {
        if route_match(routes[i].path.as_str(), path) {
            let take_it = match &best {
                None => true,
                Some(b) => routes[*b].path.as_str().unicode_len() < routes[i].path.as_str().unicode_len(),
            };
            if take_it {
                best = Some(i);
            }
        }
        i = i + 1;
    }
    best
}

/// What one path segment does to the directory depth.
pub open spec fn seg_delta(seg: Seq<char>) -> int {
    if seg == ".."@ {
        -1
    } else if seg == "."@ || seg.len() == 0 {
        0
    } else {
        1
    }
}

/// Whether walking the segments never climbs above the start.
pub open spec fn depth_ok(s: Seq<char>, d: int) -> bool
    decreases s.len(),
    via depth_ok_dec
{
    let seg_end = match find_char_from(s, '/', 0) {
        Some(j) => j,
        None => s.len() as int,
    };
    let d2 = d + seg_delta(s.take(seg_end));
    if d2 < 0 {
        false
    } else if seg_end < s.len() {
        depth_ok(s.skip(seg_end + 1), d2)
    } else {
        true
    }
}

#[via_fn]
proof fn depth_ok_dec(s: Seq<char>, d: int) {
    lemma_find_char_from(s, '/', 0);
}

/// Path containment: after resolving `.` and `..` segments the path
/// never leaves the directory it starts in.
pub open spec fn path_contained(p: Seq<char>) -> bool {
    depth_ok(p, 0)
}

/// True when the path stays inside its base directory.
pub fn is_path_contained(p: &str) -> (r: bool)
    ensures
        r == path_contained(p@),
{
    let n = p.unicode_len();
    let mut pos: usize = 0;
    let mut depth: usize = 0;
    proof {
        assert(p@.skip(0) =~= p@);
    }
    loop
        invariant
            pos <= n,
            n == p@.len(),
            depth <= pos,
            path_contained(p@) == depth_ok(p@.skip(pos as int), depth as int),
        decreases n - pos,
    {
        let ghost tail = p@.skip(pos as int);
        let ghost d0 = depth as int;
        let seg_end = match find_char(p, '/', pos) {
            Some(j) => j,
            None => n,
        };
        let ghost segidx: int = if seg_end < n {
            seg_end - pos
        } else {
            tail.len() as int
        };
        proof {
            lemma_find_char_shift(p@, '/', pos as int);
            if seg_end < n {
                assert(find_char_from(tail, '/', 0) == Some(segidx));
            } else {
                assert(find_char_from(tail, '/', 0) is None);
            }
            assert(tail.take(segidx) =~= p@.subrange(pos as int, seg_end as int));
        }
        let seg = substring(p, pos, seg_end);
        proof {
            reveal_strlit("..");
            reveal_strlit(".");
            assert(seg@ == tail.take(segidx));
        }
        if str_eq(seg.as_str(), "..") {
            if depth == 0 {
                proof {
                    assert(!depth_ok(tail, d0));
                }
                return false;
            }
            depth = depth - 1;
        } else if str_eq(seg.as_str(), ".") || seg.unicode_len() == 0 {
        } else {
            proof {
                assert(pos < seg_end);
            }
            depth = depth + 1;
        }
        proof {
            if seg_end < n {
                assert(tail.skip(segidx + 1) =~= p@.skip(seg_end + 1));
            }
            assert(depth as int == d0 + seg_delta(seg@));
        }
        if seg_end >= n {
            proof {
                assert(depth_ok(tail, d0));
            }
            return true;
        }
        pos = seg_end + 1;
    }
}

/// The resolved filesystem path for a request: the server or route
/// root, then the remainder of the request path after the route
/// prefix; rejected when the remainder escapes the base.
pub fn resolve_path(root: &str, route_path: &str, req_path: &str) -> (r: Option<String>)
    requires
        route_matches(route_path@, req_path@),
    ensures
        match r {
            Some(p) => path_contained(strip_prefix(route_path@, req_path@)) && p@ == root@
                + strip_prefix(route_path@, req_path@),
            None => !path_contained(strip_prefix(route_path@, req_path@)),
        },
{
    let remainder = if str_eq(route_path, "/") {
        String::from_str(req_path)
    } else {
        let cut = route_path.unicode_len();
        proof {
            reveal_strlit("/");
            if route_path@ != req_path@ {
                assert((route_path@ + "/"@).is_prefix_of(req_path@));
                assert(req_path@.len() >= route_path@.len() + 1);
            }
        }
        substring(req_path, cut, req_path.unicode_len())
    };
    proof {
        assert(remainder@ == strip_prefix(route_path@, req_path@));
    }
    if !is_path_contained(remainder.as_str()) {
        return None;
    }
    let mut out = String::from_str(root);
    out.append(remainder.as_str());
    Some(out)
}

/// The request path with the route prefix taken off; a `/` route
/// keeps the whole path.
pub open spec fn strip_prefix(route_path: Seq<char>, req_path: Seq<char>) -> Seq<char> {
    if route_path == "/"@ {
        req_path
    } else {
        req_path.skip(route_path.len() as int)
    }
}

} // verus!
