//! The response history: one entry per request name, last write winning,
//! with extraction of a header value or a structured-body field.  A lookup
//! against an absent name, header or path is an error, never a default —
//! except a present-but-null body field, which resolves to the empty
//! string by convention.

use vstd::prelude::*;

use super::Resolver;
use crate::json::{extract, extract_text, parse, parse_spec, pointer, ptr_lookup, JsonModel};
use crate::request::ResponseTarget;
use crate::response::{resp_like, Response};
use crate::table::Table;
use crate::text::{eq_ignore_ascii_case, quoted, quoted_spec, str_eq_ci};

verus! {

/// Why an extraction from the response history failed.
#[derive(Debug, PartialEq, Eq)]
pub enum ResponseResolverError {
    /// No response is stored under that request name.
    RequestNotFound { request: String },
    /// The stored body does not parse, or has nothing at that path.
    InvalidPath { path: String, request: String },
    /// The stored response has no header of that name.
    HeaderNotFound { key: String, request: String },
    /// The header's wire bytes were not readable as text.
    InvalidHeaderFormat { key: String, request: String },
}

impl ResponseResolverError {
    /// The error in words.
    pub open spec fn message_view(&self) -> Seq<char> {
        match self {
            ResponseResolverError::RequestNotFound { request } => "Request "@ + quoted_spec(
                request@,
            ) + " was not found in history"@,
            ResponseResolverError::InvalidPath { path, request } => "Path "@ + quoted_spec(
                path@,
            ) + " not found in request "@ + quoted_spec(request@),
            ResponseResolverError::HeaderNotFound { key, request } => "Header "@ + quoted_spec(
                key@,
            ) + " not found in request "@ + quoted_spec(request@),
            ResponseResolverError::InvalidHeaderFormat { key, request } => {
                "Invalid format for header "@ + quoted_spec(key@) + " in request "@
                    + quoted_spec(request@)
            },
        }
    }

    /// The error in words.
    pub fn message(&self) -> (r: String)
        ensures
            r@ == self.message_view(),
    {
        match self {
            ResponseResolverError::RequestNotFound { request } => {
                let mut m: String = "Request ".to_owned();
                m.append(quoted(request.as_str()).as_str());
                m.append(" was not found in history");
                m
            },
            ResponseResolverError::InvalidPath { path, request } => {
                let mut m: String = "Path ".to_owned();
                m.append(quoted(path.as_str()).as_str());
                m.append(" not found in request ");
                m.append(quoted(request.as_str()).as_str());
                m
            },
            ResponseResolverError::HeaderNotFound { key, request } => {
                let mut m: String = "Header ".to_owned();
                m.append(quoted(key.as_str()).as_str());
                m.append(" not found in request ");
                m.append(quoted(request.as_str()).as_str());
                m
            },
            ResponseResolverError::InvalidHeaderFormat { key, request } => {
                let mut m: String = "Invalid format for header ".to_owned();
                m.append(quoted(key.as_str()).as_str());
                m.append(" in request ");
                m.append(quoted(request.as_str()).as_str());
                m
            },
        }
    }
}

/// The first header entry whose name matches, ignoring ASCII case.
pub open spec fn header_lookup(
    headers: Seq<(String, Option<String>)>,
    key: Seq<char>,
) -> Option<Option<String>>
    decreases headers.len(),
{
    if headers.len() == 0 {
        None
    } else if str_eq_ci(headers.first().0@, key) {
        Some(headers.first().1)
    } else {
        header_lookup(headers.drop_first(), key)
    }
}

/// What extraction would yield from a history: the header value or body
/// field a target names, if the entry, the header, the parse and the path
/// all succeed.
pub open spec fn extraction_view(
    h: Map<Seq<char>, Response>,
    request: Seq<char>,
    target: ResponseTarget,
) -> Option<Seq<char>> {
    if h.contains_key(request) {
        match target {
            ResponseTarget::HeaderValue { key } => match header_lookup(
                h[request].headers@,
                key@,
            ) {
                Some(Some(v)) => Some(v@),
                _ => None,
            },
            ResponseTarget::JsonBody { pointer } => match parse_spec(h[request].text@) {
                Some(m) => match ptr_lookup(m, pointer@) {
                    Some(x) => Some(extract_text(x)),
                    None => None,
                },
                None => None,
            },
        }
    } else {
        None
    }
}

/// The response history, keyed by request name.
#[derive(Debug)]
pub struct ResponseResolver {
    history: Table<Response>,
}

impl View for ResponseResolver {
    type V = Map<Seq<char>, Response>;

    closed spec fn view(&self) -> Map<Seq<char>, Response> {
        self.history@
    }
}

impl ResponseResolver {
    pub fn new() -> (r: Self)
        ensures
            r@ == Map::<Seq<char>, Response>::empty(),
    {
        ResponseResolver { history: Table::new() }
    }

    /// Store a completed response under its request's name, superseding
    /// any earlier entry; the superseded response comes back.
    pub fn save_to_history(&mut self, response: Response) -> (prior: Option<Response>)
        ensures
            final(self)@ == old(self)@.insert(response.request.name@, response),
            match prior {
                Some(p) => old(self)@.contains_key(response.request.name@) && resp_like(
                    p,
                    old(self)@[response.request.name@],
                ),
                None => !old(self)@.contains_key(response.request.name@),
            },
    {
        let prior = match self.history.get(response.request.name.as_str()) {
            Some(e) => Some(e.clone()),
            None => None,
        };
        let ghost name = response.request.name@;
        let key = response.request.name.clone();
        proof {
            assert(key@ == name);
        }
        self.history.insert(key, response);
        prior
    }

    /// The value of a header of the stored response of a request.
    fn resolve_header(&self, request: &String, key: &String) -> (r: Result<
        String,
        ResponseResolverError,
    >)
        ensures
            match r {
                Ok(v) => self@.contains_key(request@) && (header_lookup(
                    self@[request@].headers@,
                    key@,
                ) matches Some(h) && h matches Some(text) && v@ == text@),
                Err(ResponseResolverError::RequestNotFound { request: rq }) => !self
                    @.contains_key(request@) && rq@ == request@,
                Err(ResponseResolverError::HeaderNotFound { key: k, request: rq }) => self
                    @.contains_key(request@) && header_lookup(self@[request@].headers@, key@)
                    == None::<Option<String>> && k@ == key@ && rq@ == request@,
                Err(ResponseResolverError::InvalidHeaderFormat { key: k, request: rq }) => self
                    @.contains_key(request@) && header_lookup(self@[request@].headers@, key@)
                    == Some(None::<String>) && k@ == key@ && rq@ == request@,
                Err(ResponseResolverError::InvalidPath { .. }) => false,
            },
    {
        match self.history.get(request.as_str()) {
            None => Err(
                ResponseResolverError::RequestNotFound { request: request.clone() },
            ),
            Some(response) => {
                let n = response.headers.len();
                let ghost hs = response.headers@;
                let mut i: usize = 0;
                proof {
                    assert(hs.subrange(0, n as int) =~= hs);
                }
                while i < n
                    invariant
                        0 <= i <= n,
                        n == hs.len(),
                        self@.contains_key(request@),
                        self@[request@] == *response,
                        hs == response.headers@,
                        header_lookup(hs, key@) == header_lookup(
                            hs.subrange(i as int, n as int),
                            key@,
                        ),
                    decreases n - i,
                {
                    proof {
                        assert(hs.subrange(i as int, n as int).first() == hs[i as int]);
                        assert(hs.subrange(i as int, n as int).drop_first() =~= hs.subrange(
                            i + 1,
                            n as int,
                        ));
                    }
                    if eq_ignore_ascii_case(response.headers[i].0.as_str(), key.as_str()) {
                        proof {
                            assert(header_lookup(hs, key@) == Some(hs[i as int].1));
                        }
                        match &response.headers[i].1 {
                            Some(text) => {
                                return Ok(text.clone());
                            },
                            None => {
                                return Err(
                                    ResponseResolverError::InvalidHeaderFormat {
                                        key: key.clone(),
                                        request: request.clone(),
                                    },
                                );
                            },
                        }
                    }
                    i = i + 1;
                }
                proof {
                    assert(hs.subrange(n as int, n as int) =~= Seq::<
                        (String, Option<String>),
                    >::empty());
                }
                Err(
                    ResponseResolverError::HeaderNotFound {
                        key: key.clone(),
                        request: request.clone(),
                    },
                )
            },
        }
    }

    /// The value at a pointer path in the stored response's body.  A body
    /// that does not parse reports the path as invalid: extraction is
    /// meaningless without structure.
    fn resolve_body(&self, request: &String, path: &String) -> (r: Result<
        String,
        ResponseResolverError,
    >)
        ensures
            match r {
                Ok(v) => self@.contains_key(request@) && (parse_spec(
                    self@[request@].text@,
                ) matches Some(m) && ptr_lookup(m, path@) matches Some(x) && v@ == extract_text(
                    x,
                )),
                Err(ResponseResolverError::RequestNotFound { request: rq }) => !self
                    @.contains_key(request@) && rq@ == request@,
                Err(ResponseResolverError::InvalidPath { path: p, request: rq }) => self
                    @.contains_key(request@) && match parse_spec(self@[request@].text@) {
                    Some(m) => ptr_lookup(m, path@) == None::<JsonModel>,
                    None => true,
                } && p@ == path@ && rq@ == request@,
                _ => false,
            },
    {
        match self.history.get(request.as_str()) {
            None => Err(
                ResponseResolverError::RequestNotFound { request: request.clone() },
            ),
            Some(response) => {
                match parse(response.text.as_str()) {
                    Some(json) => match pointer(&json, path.as_str()) {
                        Some(extracted) => Ok(extract(extracted)),
                        None => Err(
                            ResponseResolverError::InvalidPath {
                                path: path.clone(),
                                request: request.clone(),
                            },
                        ),
                    },
                    None => Err(
                        ResponseResolverError::InvalidPath {
                            path: path.clone(),
                            request: request.clone(),
                        },
                    ),
                }
            },
        }
    }
}

impl ResponseResolver {
    /// Extract from the stored response of a request without touching the
    /// history: the memoized read the dispatcher makes first.
    pub fn lookup(&self, request: &String, target: &ResponseTarget) -> (r: Result<
        String,
        ResponseResolverError,
    >)
        ensures
            match r {
                Ok(v) => extraction_view(self@, request@, *target) == Some(v@),
                Err(e) => extraction_view(self@, request@, *target) == None::<Seq<char>>
                    && match e {
                    ResponseResolverError::RequestNotFound { request: rq } => !self
                        @.contains_key(request@) && rq@ == request@,
                    _ => self@.contains_key(request@),
                },
            },
    {
        match target {
            ResponseTarget::HeaderValue { key } => self.resolve_header(request, key),
            ResponseTarget::JsonBody { pointer } => self.resolve_body(request, pointer),
        }
    }
}

impl Resolver for ResponseResolver {
    type Arguments = (String, ResponseTarget);

    type Error = ResponseResolverError;

    /// Extract from the stored response of a request: a header's value, or
    /// the body field a pointer names.
    fn resolve(&mut self, arguments: (String, ResponseTarget)) -> (r: Result<
        String,
        ResponseResolverError,
    >)
        ensures
            *final(self) == *old(self),
            match arguments.1 {
                ResponseTarget::HeaderValue { key } => match r {
                    Ok(v) => old(self)@.contains_key(arguments.0@) && (header_lookup(
                        old(self)@[arguments.0@].headers@,
                        key@,
                    ) matches Some(h) && h matches Some(text) && v@ == text@),
                    Err(ResponseResolverError::RequestNotFound { request: rq }) => !old(
                        self,
                    )@.contains_key(arguments.0@) && rq@ == arguments.0@,
                    Err(ResponseResolverError::HeaderNotFound { key: k, request: rq }) => old(
                        self,
                    )@.contains_key(arguments.0@) && header_lookup(
                        old(self)@[arguments.0@].headers@,
                        key@,
                    ) == None::<Option<String>> && k@ == key@ && rq@ == arguments.0@,
                    Err(
                        ResponseResolverError::InvalidHeaderFormat { key: k, request: rq },
                    ) => old(self)@.contains_key(arguments.0@) && header_lookup(
                        old(self)@[arguments.0@].headers@,
                        key@,
                    ) == Some(None::<String>) && k@ == key@ && rq@ == arguments.0@,
                    Err(ResponseResolverError::InvalidPath { .. }) => false,
                },
                ResponseTarget::JsonBody { pointer } => match r {
                    Ok(v) => old(self)@.contains_key(arguments.0@) && (parse_spec(
                        old(self)@[arguments.0@].text@,
                    ) matches Some(m) && ptr_lookup(m, pointer@) matches Some(x) && v@
                        == extract_text(x)),
                    Err(ResponseResolverError::RequestNotFound { request: rq }) => !old(
                        self,
                    )@.contains_key(arguments.0@) && rq@ == arguments.0@,
                    Err(ResponseResolverError::InvalidPath { path: p, request: rq }) => old(
                        self,
                    )@.contains_key(arguments.0@) && match parse_spec(
                        old(self)@[arguments.0@].text@,
                    ) {
                        Some(m) => ptr_lookup(m, pointer@) == None::<JsonModel>,
                        None => true,
                    } && p@ == pointer@ && rq@ == arguments.0@,
                    _ => false,
                },
            },
    {
        let (request, resolution_type) = arguments;
        match resolution_type {
            ResponseTarget::HeaderValue { key } => self.resolve_header(&request, &key),
            ResponseTarget::JsonBody { pointer } => self.resolve_body(&request, &pointer),
        }
    }
}

} // verus!
