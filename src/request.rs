//! A request as the layer above the message parser sees it.
use vstd::prelude::*;
use crate::headers::Headers;

verus! {

/// A request: its method, target, protocol version, headers and trailers.
pub struct Request<'a> {
    /// The HTTP version of the client, most likely `1.0` or `1.1`.
    pub http_version: &'a str,
    /// Lower-cased header names without duplicates.
    pub headers: Headers<'a>,
    /// Lower-cased trailer names without duplicates.
    pub trailers: Headers<'a>,
    /// The request method in capitals: `GET`, `POST` and so on.
    pub method: &'a str,
    /// The request target.
    pub url: &'a str,
}

impl<'a> Request<'a> {
    /// A request whose texts are all empty and whose maps hold nothing.
    pub fn new() -> (r: Request<'a>)
        ensures
            r.http_version@.len() == 0,
            r.method@.len() == 0,
            r.url@.len() == 0,
            r.headers.wf(),
            r.headers@ == Map::<Seq<char>, Seq<char>>::empty(),
            r.trailers.wf(),
            r.trailers@ == Map::<Seq<char>, Seq<char>>::empty(),
    {
        proof {
            reveal_strlit("");
        }
        Request {
            http_version: "",
            headers: Headers::new(),
            trailers: Headers::new(),
            method: "",
            url: "",
        }
    }
}

} // verus!
