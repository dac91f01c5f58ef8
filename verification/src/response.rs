//! The outcome of performing one request: its originating declaration, the
//! captured headers and status, and the raw body text, with structured
//! access to the body.

use vstd::prelude::*;

use crate::json::{lemma_round_trip, parse, parse_spec, ser, whole_numbered, Json, JsonModel};
use crate::request::{req_like, Request};

verus! {

/// Why the body of a response could not be read as a structured value.
#[derive(Debug)]
pub enum ResponseError {
    /// The body text is not in the structured grammar; the text is carried
    /// for diagnosis.
    JsonParseError(String),
}

/// One completed request: what was declared, and what came back.  A header
/// value is `None` where the wire bytes were not readable as text.
#[derive(Debug)]
pub struct Response {
    pub request: Request,
    pub headers: Vec<(String, Option<String>)>,
    pub status: u16,
    pub text: String,
}

/// What cloning a response preserves: every field up to the characters of
/// its strings.
pub open spec fn resp_like(a: Response, b: Response) -> bool {
    &&& req_like(a.request, b.request)
    &&& a.headers@ == b.headers@
    &&& a.status == b.status
    &&& a.text@ == b.text@
}

impl Response {
    /// The body as a structured value, if it parses.
    pub fn json(&self) -> (r: Result<Json, ResponseError>)
        ensures
            match r {
                Ok(j) => parse_spec(self.text@) == Some(j.model()),
                Err(_) => parse_spec(self.text@) == None::<JsonModel>,
            },
    {
        match parse(self.text.as_str()) {
            Some(j) => Ok(j),
            None => Err(ResponseError::JsonParseError(self.text.clone())),
        }
    }
}

/// A response whose text is a value's serialization reads back as that
/// value: the corollary of the parser inverting the serializer.
pub proof fn lemma_json_of_serialized(resp: Response, v: Json)
    requires
        whole_numbered(v),
        resp.text@ == ser(v),
    ensures
        parse_spec(resp.text@) == Some(v.model()),
{
    lemma_round_trip(v);
}

fn clone_header_pairs(v: &Vec<(String, Option<String>)>) -> (r: Vec<(String, Option<String>)>)
    ensures
        r@ == v@,
{
    let mut out: Vec<(String, Option<String>)> = Vec::new();
    let n = v.len();
    let mut i: usize = 0;
    while i < n
        invariant
            0 <= i <= n,
            n == v@.len(),
            out@.len() == i,
            forall|k: int| 0 <= k < i ==> out@[k] == v@[k],
        decreases n - i,
    {
        let value = match &v[i].1 {
            Option::Some(x) => Option::Some(x.clone()),
            Option::None => Option::None,
        };
        out.push((v[i].0.clone(), value));
        i = i + 1;
    }
    proof {
        assert(out@ =~= v@);
    }
    out
}

impl Clone for Response {
    /// A response equal field for field, up to the structure of the
    /// declared body.
    fn clone(&self) -> (r: Response)
        ensures
            resp_like(r, *self),
    {
        Response {
            request: self.request.clone(),
            headers: clone_header_pairs(&self.headers),
            status: self.status,
            text: self.text.clone(),
        }
    }
}

} // verus!
