//! A history of structured response bodies keyed by request name, with
//! extraction by JSON Pointer: a present-but-null field resolves to the
//! empty string, a string field to its characters, and anything else to
//! its serialized text.

use vstd::prelude::*;

use super::Resolver;
use crate::json::{extract, extract_text, json_like, pointer, ptr_lookup, Json, JsonModel};
use crate::table::Table;
use crate::text::{quoted, quoted_spec};

verus! {

/// Why an extraction from the body history failed.
#[derive(Debug, PartialEq, Eq)]
pub enum RequestResolverError {
    /// No body is stored under that request name.
    RequestNotFound { request: String },
    /// The stored body has nothing at that path.
    InvalidPath { path: String, request: String },
}

impl RequestResolverError {
    /// The error in words.
    pub open spec fn message_view(&self) -> Seq<char> {
        match self {
            RequestResolverError::RequestNotFound { request } => "Request "@ + quoted_spec(
                request@,
            ) + " was not found in history"@,
            RequestResolverError::InvalidPath { path, request } => "Path "@ + quoted_spec(path@)
                + " not found in request "@ + quoted_spec(request@),
        }
    }

    /// The error in words.
    pub fn message(&self) -> (r: String)
        ensures
            r@ == self.message_view(),
    {
        match self {
            RequestResolverError::RequestNotFound { request } => {
                let mut m: String = "Request ".to_owned();
                m.append(quoted(request.as_str()).as_str());
                m.append(" was not found in history");
                m
            },
            RequestResolverError::InvalidPath { path, request } => {
                let mut m: String = "Path ".to_owned();
                m.append(quoted(path.as_str()).as_str());
                m.append(" not found in request ");
                m.append(quoted(request.as_str()).as_str());
                m
            },
        }
    }
}

/// A run-scoped history of structured bodies, keyed by request name,
/// last write winning.
#[derive(Debug)]
pub struct RequestResolver {
    history: Table<Json>,
}

impl View for RequestResolver {
    type V = Map<Seq<char>, Json>;

    closed spec fn view(&self) -> Map<Seq<char>, Json> {
        self.history@
    }
}

impl RequestResolver {
    pub fn new() -> (r: Self)
        ensures
            r@ == Map::<Seq<char>, Json>::empty(),
    {
        RequestResolver { history: Table::new() }
    }

    /// Store the body of a completed request, superseding any earlier one
    /// under the same name; the superseded body comes back.
    pub fn save_to_history(&mut self, request: String, response: Json) -> (prior: Option<Json>)
        ensures
            final(self)@ == old(self)@.insert(request@, response),
            match prior {
                Some(p) => old(self)@.contains_key(request@) && json_like(
                    p,
                    old(self)@[request@],
                ),
                None => !old(self)@.contains_key(request@),
            },
    {
        let prior = match self.history.get(request.as_str()) {
            Some(j) => Some(j.clone()),
            None => None,
        };
        self.history.insert(request, response);
        prior
    }
}

impl Resolver for RequestResolver {
    type Arguments = (String, String);

    type Error = RequestResolverError;

    /// Extract the value at a pointer path from the stored body of a
    /// request: an absent name or path is an error, never a default.
    fn resolve(&mut self, arguments: (String, String)) -> (r: Result<
        String,
        RequestResolverError,
    >)
        ensures
            *final(self) == *old(self),
            match r {
                Ok(v) => old(self)@.contains_key(arguments.0@) && (ptr_lookup(
                    old(self)@[arguments.0@].model(),
                    arguments.1@,
                ) matches Some(m) && v@ == extract_text(m)),
                Err(RequestResolverError::RequestNotFound { request }) => !old(self)@.contains_key(
                    arguments.0@,
                ) && request@ == arguments.0@,
                Err(RequestResolverError::InvalidPath { path, request }) => old(self)@.contains_key(
                    arguments.0@,
                ) && ptr_lookup(old(self)@[arguments.0@].model(), arguments.1@) == None::<JsonModel>
                    && path@ == arguments.1@ && request@ == arguments.0@,
            },
    {
        let (request, path) = arguments;
        match self.history.get(request.as_str()) {
            Some(json) => match pointer(json, path.as_str()) {
                Some(extracted) => Ok(extract(extracted)),
                None => Err(RequestResolverError::InvalidPath { path, request }),
            },
            None => Err(RequestResolverError::RequestNotFound { request }),
        }
    }
}

} // verus!
