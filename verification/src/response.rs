//! The response side: a polled byte source that the write loop
//! drains, its in-memory implementation, and the builder that renders
//! a status line, headers and body into the bytes put on the wire.

use vstd::prelude::*;
use crate::strutil::{dec_chars, u64_to_string};

verus! {

/// The wire bytes of the rendered head characters.
pub open spec fn head_bytes_of(s: Seq<char>) -> Seq<u8> {
    vstd::utf8::encode_utf8(s)
}

/// A polled byte source. `peek` shows a window of what is left,
/// `advance` consumes what was written; no byte is lost or invented:
/// what was left before a step is what the step consumed followed by
/// what is left after it. The in-memory producer shows everything at
/// once; the file-streamed one shows its header, then each staged
/// window.
pub trait HttpResponseCommon: Sized {
    /// The bytes not yet handed out and ready to send.
    spec fn remaining_bytes(&self) -> Seq<u8>;

    /// The producer's internal soundness condition.
    spec fn inv(&self) -> bool;

    /// A window of the unsent bytes: a prefix of what remains, and
    /// never empty while something remains.
    fn peek(&self) -> (r: &[u8])
        requires
            self.inv(),
        ensures
            r@.is_prefix_of(self.remaining_bytes()),
            self.remaining_bytes().len() > 0 ==> r@.len() > 0,
    ;

    /// Consumes everything at once.
    fn next(&mut self)
        requires
            old(self).inv(),
        ensures
            final(self).inv(),
            final(self).remaining_bytes() == Seq::<u8>::empty(),
    ;

    /// Nothing is left to send once this reports true.
    fn is_finished(&self) -> (r: bool)
        requires
            self.inv(),
        ensures
            r ==> self.remaining_bytes().len() == 0,
    ;

    /// A window of the unsent bytes, by its other name.
    fn remaining(&self) -> (r: &[u8])
        requires
            self.inv(),
        ensures
            r@.is_prefix_of(self.remaining_bytes()),
            self.remaining_bytes().len() > 0 ==> r@.len() > 0,
    ;

    /// Consumes the `n` bytes just written, stopped at the end:
    /// what was left splits exactly into the consumed part and what
    /// is left now.
    fn advance(&mut self, n: usize)
        requires
            old(self).inv(),
        ensures
            final(self).inv(),
            final(self).remaining_bytes() == old(self).remaining_bytes().skip(
                clamped(n, old(self).remaining_bytes().len()),
            ),
            old(self).remaining_bytes() == old(self).remaining_bytes().take(
                clamped(n, old(self).remaining_bytes().len()),
            ) + final(self).remaining_bytes(),
    ;
}

/// `n`, but never past `len`.
pub open spec fn clamped(n: usize, len: nat) -> int {
    if n <= len {
        n as int
    } else {
        len as int
    }
}

/// An in-memory response: the rendered bytes and a cursor.
#[derive(Debug)]
pub struct SimpleResponse {
    data: Vec<u8>,
    index: usize,
}

impl SimpleResponse {
    pub fn new(data: Vec<u8>) -> (r: SimpleResponse)
        ensures
            r.inv(),
            r.remaining_bytes() == data@,
    {
        SimpleResponse { data, index: 0 }
    }

    /// Everything this response was created over.
    pub closed spec fn all_bytes(&self) -> Seq<u8> {
        self.data@
    }

    /// How much has been consumed.
    pub closed spec fn cursor(&self) -> int {
        self.index as int
    }
}

impl HttpResponseCommon for SimpleResponse {
    closed spec fn remaining_bytes(&self) -> Seq<u8> {
        self.data@.skip(self.index as int)
    }

    closed spec fn inv(&self) -> bool {
        self.index <= self.data@.len()
    }

    fn peek(&self) -> (r: &[u8])
        ensures
            r@ == self.remaining_bytes(),
    {
        let s = self.data.as_slice();
        let r = vstd::slice::slice_subrange(s, self.index, self.data.len());
        proof {
            assert(r@ =~= self.data@.skip(self.index as int));
        }
        r
    }

    fn next(&mut self)
        ensures
            final(self).inv(),
            final(self).remaining_bytes() == Seq::<u8>::empty(),
    {
        self.index = self.data.len();
        proof {
            assert(self.data@.skip(self.index as int) =~= Seq::<u8>::empty());
        }
    }

    fn is_finished(&self) -> (r: bool)
        ensures
            r == (self.remaining_bytes().len() == 0),
    {
        self.index >= self.data.len()
    }

    fn remaining(&self) -> (r: &[u8])
        ensures
            r@ == self.remaining_bytes(),
    {
        self.peek()
    }

    fn advance(&mut self, n: usize)
        ensures
            final(self).inv(),
            final(self).remaining_bytes() == old(self).remaining_bytes().skip(
                clamped(n, old(self).remaining_bytes().len()),
            ),
            old(self).remaining_bytes() == old(self).remaining_bytes().take(
                clamped(n, old(self).remaining_bytes().len()),
            ) + final(self).remaining_bytes(),
    {
        let l = self.data.len();
        let room = l - self.index;
        let step = if n <= room {
            n
        } else {
            room
        };
        self.index = self.index + step;
        proof {
            let c = clamped(n, old(self).remaining_bytes().len());
            assert(self.data@.skip(self.index as int) =~= old(self).remaining_bytes().skip(c));
            assert(old(self).remaining_bytes() =~= old(self).remaining_bytes().take(c)
                + self.data@.skip(self.index as int));
        }
    }
}

/// A file-streamed response: a pre-rendered header block and a
/// fixed-size staging window that the caller refills from the file,
/// one read at a time, until a zero-byte read marks the end.
#[derive(Debug)]
pub struct FileStreamResponse {
    header: Vec<u8>,
    header_pos: usize,
    staged: Vec<u8>,
    staged_pos: usize,
    eof: bool,
}

impl FileStreamResponse {
    /// The bytes of the header block not yet consumed.
    pub closed spec fn header_tail(&self) -> Seq<u8> {
        self.header@.skip(self.header_pos as int)
    }

    /// The bytes of the staging window not yet consumed.
    pub closed spec fn staged_tail(&self) -> Seq<u8> {
        self.staged@.skip(self.staged_pos as int)
    }

    /// Whether the file behind the stream is exhausted.
    pub closed spec fn exhausted(&self) -> bool {
        self.eof
    }

    /// A stream holding a rendered header block, nothing staged yet.
    pub fn new(header: Vec<u8>) -> (r: FileStreamResponse)
        ensures
            r.inv(),
            r.remaining_bytes() == header@,
            !r.exhausted(),
    {
        let r = FileStreamResponse {
            header,
            header_pos: 0,
            staged: Vec::new(),
            staged_pos: 0,
            eof: false,
        };
        proof {
            assert(r.remaining_bytes() =~= r.header@);
        }
        r
    }

    /// True when the stream can send nothing now and the file is not
    /// yet exhausted: the moment to read another chunk.
    pub fn needs_refill(&self) -> (r: bool)
        requires
            self.inv(),
        ensures
            r == (self.remaining_bytes().len() == 0 && !self.exhausted()),
    {
        self.header_pos >= self.header.len() && self.staged_pos >= self.staged.len()
            && !self.eof
    }

    /// Takes in the bytes of one file read; an empty read marks the
    /// file exhausted.
    pub fn accept_refill(&mut self, chunk: Vec<u8>)
        requires
            old(self).inv(),
            old(self).remaining_bytes().len() == 0,
            !old(self).exhausted(),
        ensures
            final(self).inv(),
            final(self).remaining_bytes() == chunk@,
            final(self).exhausted() == (chunk@.len() == 0),
    {
        if chunk.len() == 0 {
            self.eof = true;
            proof {
                assert(self.remaining_bytes() =~= chunk@);
            }
        } else {
            self.staged = chunk;
            self.staged_pos = 0;
            proof {
                assert(self.remaining_bytes() =~= self.staged@);
            }
        }
    }
}

impl HttpResponseCommon for FileStreamResponse {
    closed spec fn remaining_bytes(&self) -> Seq<u8> {
        self.header_tail() + self.staged_tail()
    }

    closed spec fn inv(&self) -> bool {
        self.header_pos <= self.header@.len() && self.staged_pos <= self.staged@.len()
    }

    /// The header block until it is drained, then the staged window.
    fn peek(&self) -> (r: &[u8])
        ensures
            r@.is_prefix_of(self.remaining_bytes()),
            self.remaining_bytes().len() > 0 ==> r@.len() > 0,
    {
        if self.header_pos < self.header.len() {
            let r = vstd::slice::slice_subrange(
                self.header.as_slice(),
                self.header_pos,
                self.header.len(),
            );
            proof {
                assert(r@ =~= self.header_tail());
                assert(r@.is_prefix_of(self.remaining_bytes())) by {
                    assert(self.remaining_bytes().take(r@.len() as int) =~= r@);
                }
            }
            r
        } else {
            let r = vstd::slice::slice_subrange(
                self.staged.as_slice(),
                self.staged_pos,
                self.staged.len(),
            );
            proof {
                assert(self.header_tail() =~= Seq::<u8>::empty());
                assert(r@ =~= self.staged_tail());
                assert(self.remaining_bytes() =~= r@);
                assert(self.remaining_bytes().take(r@.len() as int) =~= r@);
            }
            r
        }
    }

    fn next(&mut self)
        ensures
            final(self).inv(),
            final(self).remaining_bytes() == Seq::<u8>::empty(),
    {
        let hl = self.header.len();
        let sl = self.staged.len();
        self.header_pos = hl;
        self.staged_pos = sl;
        proof {
            assert(self.remaining_bytes() =~= Seq::<u8>::empty());
        }
    }

    /// Finished only when the header went out, the staging window is
    /// drained, and the file is exhausted.
    fn is_finished(&self) -> (r: bool)
        ensures
            r ==> self.remaining_bytes().len() == 0,
            r == (self.remaining_bytes().len() == 0 && self.exhausted()),
    {
        self.header_pos >= self.header.len() && self.staged_pos >= self.staged.len()
            && self.eof
    }

    fn remaining(&self) -> (r: &[u8])
        ensures
            r@.is_prefix_of(self.remaining_bytes()),
            self.remaining_bytes().len() > 0 ==> r@.len() > 0,
    {
        self.peek()
    }

    /// Consumes written bytes, stopped at the end: the header cursor
    /// first, then the staging cursor; the remainder splits exactly.
    fn advance(&mut self, n: usize)
        ensures
            final(self).inv(),
            final(self).remaining_bytes() == old(self).remaining_bytes().skip(
                clamped(n, old(self).remaining_bytes().len()),
            ),
            old(self).remaining_bytes() == old(self).remaining_bytes().take(
                clamped(n, old(self).remaining_bytes().len()),
            ) + final(self).remaining_bytes(),
    {
        let hl = self.header.len();
        let sl = self.staged.len();
        let head_left = hl - self.header_pos;
        let staged_left = sl - self.staged_pos;
        proof {
            assert(old(self).remaining_bytes().len() == head_left + staged_left);
        }
        if n < head_left {
            self.header_pos = self.header_pos + n;
            proof {
                let c = clamped(n, old(self).remaining_bytes().len());
                assert(self.remaining_bytes() =~= old(self).remaining_bytes().skip(c));
            }
        } else {
            self.header_pos = hl;
            let rest = n - head_left;
            let step = if rest <= staged_left {
                rest
            } else {
                staged_left
            };
            self.staged_pos = self.staged_pos + step;
            proof {
                let c = clamped(n, old(self).remaining_bytes().len());
                assert(self.header_tail() =~= Seq::<u8>::empty());
                assert(self.remaining_bytes() =~= old(self).remaining_bytes().skip(c));
            }
        }
        proof {
            let c = clamped(n, old(self).remaining_bytes().len());
            assert(old(self).remaining_bytes() =~= old(self).remaining_bytes().take(c)
                + self.remaining_bytes());
        }
    }
}

/// The characters of one rendered header line.
pub open spec fn header_line_chars(k: Seq<char>, v: Seq<char>) -> Seq<char> {
    k + ": "@ + v + "\r\n"@
}

/// The characters of all rendered header lines, in order.
pub open spec fn headers_chars(hs: Seq<(Seq<char>, Seq<char>)>) -> Seq<char>
    decreases hs.len(),
{
    if hs.len() == 0 {
        Seq::empty()
    } else {
        headers_chars(hs.drop_last()) + header_line_chars(hs.last().0, hs.last().1)
    }
}

/// A response under construction: status, extra headers, body.
pub struct HttpResponseBuilder {
    pub status: u16,
    pub reason: String,
    pub headers: Vec<(String, String)>,
    pub body: Vec<u8>,
}

/// What a response is mathematically: every part as a plain value.
pub ghost struct RespView {
    pub status: u16,
    pub reason: Seq<char>,
    pub headers: Seq<(Seq<char>, Seq<char>)>,
    pub body: Seq<u8>,
}

impl View for HttpResponseBuilder {
    type V = RespView;

    open spec fn view(&self) -> RespView {
        RespView {
            status: self.status,
            reason: self.reason@,
            headers: self.headers@.map_values(|p: (String, String)| (p.0@, p.1@)),
            body: self.body@,
        }
    }
}

/// The characters of the head a response renders: the status line,
/// the added headers, and a content-length line, then the blank line.
pub open spec fn head_chars(b: RespView) -> Seq<char> {
    "HTTP/1.1 "@ + dec_chars(b.status as nat) + " "@ + b.reason + "\r\n"@ + headers_chars(
        b.headers,
    ) + "Content-Length: "@ + dec_chars(b.body.len()) + "\r\n\r\n"@
}

/// The bytes a response renders to: the head, then the body exactly.
pub open spec fn spec_build(b: RespView) -> Seq<u8> {
    head_bytes_of(head_chars(b)) + b.body
}

/// Byte conservation: the rendered response carries the body exactly,
/// unchanged, right after the head.
pub proof fn lemma_byte_conservation(b: RespView)
    ensures
        spec_build(b).skip(head_bytes_of(head_chars(b)).len() as int) == b.body,
        spec_build(b).take(head_bytes_of(head_chars(b)).len() as int) == head_bytes_of(
            head_chars(b),
        ),
{
    assert(spec_build(b).skip(head_bytes_of(head_chars(b)).len() as int) =~= b.body);
    assert(spec_build(b).take(head_bytes_of(head_chars(b)).len() as int) =~= head_bytes_of(
        head_chars(b),
    ));
}

impl HttpResponseBuilder {
    pub open spec fn wf(&self) -> bool {
        &&& self.reason.is_ascii()
        &&& forall|i: int|
            0 <= i < self.headers@.len() ==> (#[trigger] self.headers@[i]).0.is_ascii()
                && self.headers@[i].1.is_ascii()
    }

    /// A response with the given status code and reason phrase.
    pub fn status(code: u16, reason: &str) -> (r: HttpResponseBuilder)
        requires
            reason.is_ascii(),
        ensures
            r.wf(),
            r.status == code,
            r.reason@ == reason@,
            r.headers@.len() == 0,
            r.body@.len() == 0,
    {
        HttpResponseBuilder {
            status: code,
            reason: String::from_str(reason),
            headers: Vec::new(),
            body: Vec::new(),
        }
    }

    pub fn ok() -> (r: HttpResponseBuilder)
        ensures
            r.wf(),
            r.status == 200,
            r.reason@ == "OK"@,
            r.headers@.len() == 0,
            r.body@.len() == 0,
    {
        proof {
            reveal_strlit("OK");
            assert("OK".is_ascii());
        }
        Self::status(200, "OK")
    }

    pub fn created() -> (r: HttpResponseBuilder)
        ensures
            r.wf(),
            r.status == 201,
            r.reason@ == "Created"@,
            r.headers@.len() == 0,
            r.body@.len() == 0,
    {
        proof {
            reveal_strlit("Created");
            assert("Created".is_ascii());
        }
        Self::status(201, "Created")
    }

    pub fn no_content() -> (r: HttpResponseBuilder)
        ensures
            r.wf(),
            r.status == 204,
            r.reason@ == "No Content"@,
            r.headers@.len() == 0,
            r.body@.len() == 0,
    {
        proof {
            reveal_strlit("No Content");
            assert("No Content".is_ascii());
        }
        Self::status(204, "No Content")
    }

    pub fn found() -> (r: HttpResponseBuilder)
        ensures
            r.wf(),
            r.status == 302,
            r.reason@ == "Found"@,
            r.headers@.len() == 0,
            r.body@.len() == 0,
    {
        proof {
            reveal_strlit("Found");
            assert("Found".is_ascii());
        }
        Self::status(302, "Found")
    }

    pub fn bad_request() -> (r: HttpResponseBuilder)
        ensures
            r.wf(),
            r.status == 400,
            r.reason@ == "Bad Request"@,
            r.headers@.len() == 0,
            r.body@.len() == 0,
    {
        proof {
            reveal_strlit("Bad Request");
            assert("Bad Request".is_ascii());
        }
        Self::status(400, "Bad Request")
    }

    pub fn unauthorized() -> (r: HttpResponseBuilder)
        ensures
            r.wf(),
            r.status == 401,
            r.reason@ == "Unauthorized"@,
            r.headers@.len() == 0,
            r.body@.len() == 0,
    {
        proof {
            reveal_strlit("Unauthorized");
            assert("Unauthorized".is_ascii());
        }
        Self::status(401, "Unauthorized")
    }

    pub fn not_found() -> (r: HttpResponseBuilder)
        ensures
            r.wf(),
            r.status == 404,
            r.reason@ == "Not Found"@,
            r.headers@.len() == 0,
            r.body@.len() == 0,
    {
        proof {
            reveal_strlit("Not Found");
            assert("Not Found".is_ascii());
        }
        Self::status(404, "Not Found")
    }

    pub fn method_not_allowed() -> (r: HttpResponseBuilder)
        ensures
            r.wf(),
            r.status == 405,
            r.reason@ == "Method Not Allowed"@,
            r.headers@.len() == 0,
            r.body@.len() == 0,
    {
        proof {
            reveal_strlit("Method Not Allowed");
            assert("Method Not Allowed".is_ascii());
        }
        Self::status(405, "Method Not Allowed")
    }

    pub fn payload_too_large() -> (r: HttpResponseBuilder)
        ensures
            r.wf(),
            r.status == 413,
            r.reason@ == "Payload Too Large"@,
            r.headers@.len() == 0,
            r.body@.len() == 0,
    {
        proof {
            reveal_strlit("Payload Too Large");
            assert("Payload Too Large".is_ascii());
        }
        Self::status(413, "Payload Too Large")
    }

    pub fn unsupported_media_type() -> (r: HttpResponseBuilder)
        ensures
            r.wf(),
            r.status == 415,
            r.reason@ == "Unsupported Media Type"@,
            r.headers@.len() == 0,
            r.body@.len() == 0,
    {
        proof {
            reveal_strlit("Unsupported Media Type");
            assert("Unsupported Media Type".is_ascii());
        }
        Self::status(415, "Unsupported Media Type")
    }

    pub fn server_error() -> (r: HttpResponseBuilder)
        ensures
            r.wf(),
            r.status == 500,
            r.reason@ == "Internal Server Error"@,
            r.headers@.len() == 0,
            r.body@.len() == 0,
    {
        proof {
            reveal_strlit("Internal Server Error");
            assert("Internal Server Error".is_ascii());
        }
        Self::status(500, "Internal Server Error")
    }

    /// The same response with one more header line.
    pub fn header(self, key: &str, value: &str) -> (r: HttpResponseBuilder)
        requires
            self.wf(),
            key.is_ascii(),
            value.is_ascii(),
        ensures
            r.wf(),
            r.status == self.status,
            r.reason == self.reason,
            r.body == self.body,
            r.headers@.len() == self.headers@.len() + 1,
            forall|i: int|
                0 <= i < self.headers@.len() ==> r.headers@[i] == self.headers@[i],
            r.headers@.last().0@ == key@ && r.headers@.last().1@ == value@,
    {
        let mut headers = self.headers;
        headers.push((String::from_str(key), String::from_str(value)));
        HttpResponseBuilder { headers, ..self }
    }

    /// The same response with its body replaced.
    pub fn body(self, body: Vec<u8>) -> (r: HttpResponseBuilder)
        ensures
            r.status == self.status,
            r.reason == self.reason,
            r.headers == self.headers,
            r.body == body,
            self.wf() ==> r.wf(),
    {
        HttpResponseBuilder { body, ..self }
    }

    /// Renders the head and body into wire bytes.
    pub fn build(self) -> (r: Vec<u8>)
        requires
            self.wf(),
        ensures
            r@ == spec_build(self@),
    {
        let mut head = String::from_str("HTTP/1.1 ");
        let code = u64_to_string(self.status as u64);
        head.append(code.as_str());
        head.append(" ");
        head.append(self.reason.as_str());
        head.append("\r\n");
        let ghost hpairs = self.headers@.map_values(|p: (String, String)| (p.0@, p.1@));
        let mut i: usize = 0;
        let ghost head0 = head@;
        proof {
            assert(hpairs.take(0) =~= Seq::<(Seq<char>, Seq<char>)>::empty());
        }
        while i < self.headers.len()
            invariant
                0 <= i <= self.headers@.len(),
                hpairs == self.headers@.map_values(|p: (String, String)| (p.0@, p.1@)),
                head@ == head0 + headers_chars(hpairs.take(i as int)),
                self.wf(),
                head0 == "HTTP/1.1 "@ + dec_chars(self.status as nat) + " "@ + self.reason@
                    + "\r\n"@,
            decreases self.headers@.len() - i,
        {
            let ghost before = head@;
            head.append(self.headers[i].0.as_str());
            head.append(": ");
            head.append(self.headers[i].1.as_str());
            head.append("\r\n");
            proof {
                let t = hpairs.take(i + 1 as int);
                assert(t.drop_last() =~= hpairs.take(i as int));
                assert(t.last() == hpairs[i as int]);
                assert(head@ =~= head0 + headers_chars(t));
            }
            i = i + 1;
        }
        proof {
            assert(hpairs.take(self.headers@.len() as int) =~= hpairs);
        }
        head.append("Content-Length: ");
        let blen = u64_to_string(self.body.len() as u64);
        head.append(blen.as_str());
        head.append("\r\n\r\n");
        proof {
            assert(head@ =~= head_chars(self@));
        }
        let mut out = head.as_str().as_bytes_vec();
        proof {
            assert(out@ == head_bytes_of(head_chars(self@)));
        }
        let mut body = self.body;
        out.append(&mut body);
        proof {
            assert(out@ =~= spec_build(self@));
        }
        out
    }
}

} // verus!
