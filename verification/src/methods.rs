//! The parsed request method: the three methods the server handles,
//! and a catch-all that keeps the upper-cased name.

use vstd::prelude::*;
use crate::strutil::{upper_chars, string_upper};

verus! {

#[derive(Debug, PartialEq, Eq, Hash, Clone)]
pub enum HttpMethod {
    GET,
    POST,
    DELETE,
    Other(String),
}

/// The name that a method writes back.
pub open spec fn spec_method_name(m: HttpMethod) -> Seq<char> {
    match m {
        HttpMethod::GET => "GET"@,
        HttpMethod::POST => "POST"@,
        HttpMethod::DELETE => "DELETE"@,
        HttpMethod::Other(name) => name@,
    }
}

impl View for HttpMethod {
    type V = Seq<char>;

    /// A method is viewed as the name it writes.
    open spec fn view(&self) -> Seq<char> {
        spec_method_name(*self)
    }
}

impl HttpMethod {
    /// Reads a method name, folding case, keeping unknown names.
    pub fn from_str(method: &str) -> (r: HttpMethod)
        requires
            method.is_ascii(),
        ensures
            r@ == upper_chars(method@),
            upper_chars(method@) == "GET"@ ==> r is GET,
            upper_chars(method@) == "POST"@ ==> r is POST,
            upper_chars(method@) == "DELETE"@ ==> r is DELETE,
    {
        proof {
            reveal_strlit("GET");
            reveal_strlit("POST");
            reveal_strlit("DELETE");
            assert("GET"@.len() == 3);
            assert("POST"@.len() == 4);
            assert("DELETE"@.len() == 6);
        }
        let up = string_upper(method);
        if crate::strutil::str_eq(up.as_str(), "GET") {
            HttpMethod::GET
        } else if crate::strutil::str_eq(up.as_str(), "POST") {
            HttpMethod::POST
        } else if crate::strutil::str_eq(up.as_str(), "DELETE") {
            HttpMethod::DELETE
        } else {
            HttpMethod::Other(up)
        }
    }

    /// The method's name.
    pub fn to_str(&self) -> (r: &str)
        ensures
            r@ == self@,
    {
        match self {
            HttpMethod::GET => "GET",
            HttpMethod::POST => "POST",
            HttpMethod::DELETE => "DELETE",
            HttpMethod::Other(name) => name.as_str(),
        }
    }

    /// True when the two methods write the same name.
    pub fn same_as(&self, other: &HttpMethod) -> (r: bool)
        ensures
            r == (self@ == other@),
    {
        crate::strutil::str_eq(self.to_str(), other.to_str())
    }
}

} // verus!
