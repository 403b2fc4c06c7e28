//! The CGI bridge's decisions: which interpreter an extension names,
//! the environment a request hands the child, and the response its
//! captured output becomes. Spawning the child and piping its byte
//! streams happen outside; the outcome comes back as plain values.

use vstd::prelude::*;
use crate::request::HttpRequest;
use crate::response::{HttpResponseBuilder, RespView, spec_build};
use crate::strutil::{upper_chars, string_upper, u64_to_string, dec_chars};

verus! {

/// The interpreter an extension selects.
pub open spec fn spec_interpreter(ext: Seq<char>) -> Option<Seq<char>> {
    if ext == ".py"@ {
        Some("python3"@)
    } else if ext == ".php"@ {
        Some("php"@)
    } else if ext == ".sh"@ {
        Some("bash"@)
    } else if ext == ".pl"@ {
        Some("perl"@)
    } else {
        None
    }
}

/// Which interpreter runs scripts with this extension.
pub fn interpreter_for(ext: &str) -> (r: Option<&'static str>)
    ensures
        match r {
            Some(p) => spec_interpreter(ext@) == Some(p@),
            None => spec_interpreter(ext@) is None,
        },
{
    proof {
        reveal_strlit(".py");
        reveal_strlit(".php");
        reveal_strlit(".sh");
        reveal_strlit(".pl");
        assert(".py"@.len() == 3);
        assert(".php"@.len() == 4);
        assert(".sh"@.len() == 3);
        assert(".pl"@.len() == 3);
    }
    if crate::strutil::str_eq(ext, ".py") {
        Some("python3")
    } else if crate::strutil::str_eq(ext, ".php") {
        Some("php")
    } else if crate::strutil::str_eq(ext, ".sh") {
        Some("bash")
    } else if crate::strutil::str_eq(ext, ".pl") {
        Some("perl")
    } else {
        None
    }
}

/// A header name as the CGI environment writes it: upper case, with
/// dashes turned to underscores, after `HTTP_`.
pub open spec fn spec_env_name(k: Seq<char>) -> Seq<char> {
    "HTTP_"@ + upper_chars(k).map_values(
        |c: char|
            if c == '-' {
                '_'
            } else {
                c
            },
    )
}

/// Turns a header name into its environment-variable name.
fn env_name(k: &str) -> (r: String)
    requires
        k.is_ascii(),
    ensures
        r@ == spec_env_name(k@),
{
    let up = string_upper(k);
    let ups = up.as_str();
    proof {
        assert(up.is_ascii()) by {
            assert(forall|i: int|
                0 <= i < up@.len() ==> up@[i] == crate::strutil::upper_char(k@[i]));
        }
        vstd::string::is_ascii_spec_bytes(ups);
    }
    let bs = ups.as_bytes_vec();
    let mut out: Vec<u8> = Vec::new();
    let mut i: usize = 0;
    while i < bs.len()
        invariant
            0 <= i <= bs@.len(),
            forall|m: int|
                0 <= m < i ==> out@[m] == (if bs@[m] == 45 {
                    95u8
                } else {
                    bs@[m]
                }),
            out@.len() == i,
            forall|m: int| 0 <= m < bs@.len() ==> bs@[m] < 128,
        decreases bs@.len() - i,
    {
        let b = bs[i];
        if b == 45 {
            out.push(95);
        } else {
            out.push(b);
        }
        i = i + 1;
    }
    proof {
        assert(crate::bytes::all_ascii(out@));
    }
    let tail = crate::strutil::ascii_string_of(out.as_slice());
    let mut r = String::from_str("HTTP_");
    r.append(tail.as_str());
    proof {
        assert(r@ =~= spec_env_name(k@)) by {
            assert(forall|m: int|
                0 <= m < k@.len() ==> #[trigger] up@[m] == crate::strutil::upper_char(
                    k@[m],
                ));
            assert(forall|m: int| 0 <= m < up@.len() ==> #[trigger] bs@[m] == up@[m] as u8);
            assert(forall|m: int|
                0 <= m < k@.len() ==> #[trigger] tail@[m] == (if up@[m] == '-' {
                    '_'
                } else {
                    up@[m]
                })) by {
                assert(forall|m: int|
                    0 <= m < k@.len() ==> ((up@[m] == '-') == (bs@[m] == 45)));
            }
        }
    }
    r
}

/// True when the request is a POST carrying a non-empty body, which
/// the CGI bridge feeds to the child.
pub open spec fn spec_posts_body(rv: crate::request::ReqView) -> bool {
    upper_chars(rv.method) == "POST"@ && (rv.body matches Some(b) && b.len() > 0)
}

/// How many fixed variables precede the `HTTP_` block.
pub open spec fn spec_cgi_base(rv: crate::request::ReqView) -> int {
    6 + (if spec_posts_body(rv) {
        1int
    } else {
        0int
    }) + (if spec_posts_body(rv) && rv.headers.contains_key("content-type"@) {
        1int
    } else {
        0int
    })
}

/// The environment the child is spawned with, in order: the six
/// fixed variables; for a POST with a body also its length and type;
/// then one `HTTP_` variable for each request header.
pub fn cgi_env(request: &HttpRequest, script_path: &str) -> (r: Vec<(String, String)>)
    requires
        request.wf(),
        request.method.is_ascii(),
    ensures
        r@.len() == spec_cgi_base(request@) + request.headers.pairs().len(),
        r@[0].0@ == "REQUEST_METHOD"@ && r@[0].1@ == request@.method,
        r@[1].0@ == "QUERY_STRING"@ && r@[1].1@ == request@.query,
        r@[2].0@ == "SCRIPT_FILENAME"@ && r@[2].1@ == script_path@,
        r@[3].0@ == "PATH_INFO"@ && r@[3].1@ == request@.path,
        r@[4].0@ == "SERVER_PROTOCOL"@ && r@[4].1@ == "HTTP/1.1"@,
        r@[5].0@ == "GATEWAY_INTERFACE"@ && r@[5].1@ == "CGI/1.1"@,
        spec_posts_body(request@) ==> r@[6].0@ == "CONTENT_LENGTH"@ && r@[6].1@ == dec_chars(
            request@.body->Some_0.len() as nat,
        ),
        spec_posts_body(request@) && request@.headers.contains_key("content-type"@)
            ==> r@[7].0@ == "CONTENT_TYPE"@ && r@[7].1@
            == request@.headers["content-type"@],
        forall|i: int|
            0 <= i < request.headers.pairs().len() ==> (vstd::utf8::is_ascii_chars(
                request.headers.pairs()[i].0,
            ) ==> (#[trigger] r@[r@.len() - request.headers.pairs().len() + i]).0@
                == spec_env_name(request.headers.pairs()[i].0)) && r@[r@.len()
                - request.headers.pairs().len() + i].1@ == request.headers.pairs()[i].1,
{
    let mut env: Vec<(String, String)> = Vec::new();
    env.push((String::from_str("REQUEST_METHOD"), String::from_str(request.method.as_str())));
    env.push((String::from_str("QUERY_STRING"), String::from_str(request.query.as_str())));
    env.push((String::from_str("SCRIPT_FILENAME"), String::from_str(script_path)));
    env.push((String::from_str("PATH_INFO"), String::from_str(request.path.as_str())));
    env.push((String::from_str("SERVER_PROTOCOL"), String::from_str("HTTP/1.1")));
    env.push((String::from_str("GATEWAY_INTERFACE"), String::from_str("CGI/1.1")));
    let is_post = {
        let up = string_upper(request.method.as_str());
        crate::strutil::str_eq(up.as_str(), "POST")
    };
    match &request.body {
        Some(b) => {
            if is_post && b.len() > 0 {
                proof {
                    assert(spec_posts_body(request@));
                }
                let n = u64_to_string(b.len() as u64);
                env.push((String::from_str("CONTENT_LENGTH"), n));
                proof {
                    reveal_strlit("content-type");
                    assert(crate::strutil::lower_chars("content-type"@)
                        =~= "content-type"@) by {
                        assert(forall|i: int|
                            0 <= i < "content-type"@.len() ==> crate::strutil::lower_char(
                                #[trigger] "content-type"@[i],
                            ) == "content-type"@[i]);
                    }
                }
                match request.headers.get("content-type") {
                    Some(ct) => {
                        env.push(
                            (
                                String::from_str("CONTENT_TYPE"),
                                String::from_str(ct.as_str()),
                            ),
                        );
                    },
                    None => {},
                }
            } else {
                proof {
                    assert(!spec_posts_body(request@));
                }
            }
        },
        None => {
            proof {
                assert(!spec_posts_body(request@));
            }
        },
    }
    let base = env.len();
    let ghost base_env = env@;
    proof {
        assert(base_env[0].0@ == "REQUEST_METHOD"@ && base_env[0].1@ == request@.method);
        assert(base_env[1].0@ == "QUERY_STRING"@ && base_env[1].1@ == request@.query);
        assert(base_env[2].0@ == "SCRIPT_FILENAME"@ && base_env[2].1@ == script_path@);
        assert(base_env[3].0@ == "PATH_INFO"@ && base_env[3].1@ == request@.path);
        assert(base_env[4].0@ == "SERVER_PROTOCOL"@ && base_env[4].1@ == "HTTP/1.1"@);
        assert(base_env[5].0@ == "GATEWAY_INTERFACE"@ && base_env[5].1@ == "CGI/1.1"@);
        assert(base == spec_cgi_base(request@));
        if spec_posts_body(request@) {
            assert(base_env[6].0@ == "CONTENT_LENGTH"@ && base_env[6].1@ == dec_chars(
                request@.body->Some_0.len() as nat,
            ));
            if request@.headers.contains_key("content-type"@) {
                assert(base_env[7].0@ == "CONTENT_TYPE"@ && base_env[7].1@
                    == request@.headers["content-type"@]);
            }
        }
    }
    let hcount = request.headers.pair_count();
    let mut i: usize = 0;
    while i < hcount
        invariant
            0 <= i <= hcount == request.headers.pairs().len(),
            request.headers.wf(),
            env@.len() == base + i,
            base == base_env.len(),
            env@.take(base as int) == base_env,
            forall|m: int|
                0 <= m < i ==> (vstd::utf8::is_ascii_chars(request.headers.pairs()[m].0)
                    ==> (#[trigger] env@[base + m]).0@ == spec_env_name(
                    request.headers.pairs()[m].0,
                )) && env@[base + m].1@ == request.headers.pairs()[m].1,
        decreases hcount - i,
    {
        let (k, v) = request.headers.pair_at(i);
        let name = if k.as_str().is_ascii() {
            env_name(k.as_str())
        } else {
            String::from_str(k.as_str())
        };
        env.push((name, String::from_str(v.as_str())));
        proof {
            assert(env@.take(base as int) =~= base_env);
        }
        i = i + 1;
    }
    proof {
        assert(forall|m: int| 0 <= m < base ==> env@[m] == base_env[m]) by {
            assert(forall|m: int|
                0 <= m < base ==> env@[m] == env@.take(base as int)[m]);
        }
    }
    env
}

/// The first six variables keep their places and values.
pub open spec fn base6(env: Seq<(String, String)>) -> bool {
    &&& env.len() >= 6
    &&& env[0].0@ == "REQUEST_METHOD"@
    &&& env[1].0@ == "QUERY_STRING"@
    &&& env[2].0@ == "SCRIPT_FILENAME"@
    &&& env[3].0@ == "PATH_INFO"@
    &&& env[4].0@ == "SERVER_PROTOCOL"@ && env[4].1@ == "HTTP/1.1"@
    &&& env[5].0@ == "GATEWAY_INTERFACE"@ && env[5].1@ == "CGI/1.1"@
}

/// The response that wraps a finished child's standard output.
pub fn wrap_cgi_output(stdout: Vec<u8>) -> (r: Vec<u8>)
    ensures
        r@ == spec_build(
            RespView {
                status: 200,
                reason: "OK"@,
                headers: seq![("Content-Type"@, "text/html"@)],
                body: stdout@,
            },
        ),
{
    proof {
        reveal_strlit("Content-Type");
        assert("Content-Type".is_ascii());
        reveal_strlit("text/html");
        assert("text/html".is_ascii());
    }
    let b = HttpResponseBuilder::ok().header("Content-Type", "text/html").body(stdout);
    let ghost bv = b@;
    let r = b.build();
    proof {
        assert(bv.headers =~= seq![("Content-Type"@, "text/html"@)]);
    }
    r
}

/// The response served when the child could not run or failed.
pub fn cgi_failure_response() -> (r: Vec<u8>)
    ensures
        r@ == spec_build(
            RespView {
                status: 500,
                reason: "Internal Server Error"@,
                headers: Seq::empty(),
                body: Seq::<u8>::empty(),
            },
        ),
{
    let b = HttpResponseBuilder::server_error();
    let ghost bv = b@;
    let r = b.build();
    proof {
        assert(bv.headers =~= Seq::<(Seq<char>, Seq<char>)>::empty());
    }
    r
}

} // verus!
