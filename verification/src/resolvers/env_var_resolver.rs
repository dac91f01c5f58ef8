//! Resolves an environment variable from the run's value cache.  The
//! executor fills the cache: with the host's environment lookups, and with
//! interactive input solicited when a variable is unset and the dependency
//! supplies a fallback prompt — those values are cached under the variable
//! name, so one run never asks twice.

use vstd::prelude::*;

use super::prompt_resolver::PromptResolverError;
use super::Resolver;
use crate::table::Table;
use crate::text::{quoted, quoted_spec};

verus! {

/// Why an environment variable did not resolve.
#[derive(Debug, PartialEq, Eq)]
pub enum EnvVarResolverError {
    /// Neither the environment nor a prompt produced a value.
    EnvVarNotFound { name: String },
    /// The fallback prompt itself failed.
    PromptError(PromptResolverError),
}

impl EnvVarResolverError {
    /// The error in words.
    pub open spec fn message_view(&self) -> Seq<char> {
        match self {
            EnvVarResolverError::EnvVarNotFound { name } => "Environment variable "@
                + quoted_spec(name@) + " not found"@,
            EnvVarResolverError::PromptError(_) => "Prompt error"@,
        }
    }

    /// The error in words.
    pub fn message(&self) -> (r: String)
        ensures
            r@ == self.message_view(),
    {
        match self {
            EnvVarResolverError::EnvVarNotFound { name } => {
                let mut m: String = "Environment variable ".to_owned();
                m.append(quoted(name.as_str()).as_str());
                m.append(" not found");
                m
            },
            EnvVarResolverError::PromptError(_) => "Prompt error".to_owned(),
        }
    }
}

/// The environment-variable resolver: a run-scoped cache of resolved
/// values keyed by variable name.
#[derive(Debug)]
pub struct EnvVarResolver {
    cache: Table<String>,
}

impl View for EnvVarResolver {
    type V = Map<Seq<char>, String>;

    closed spec fn view(&self) -> Map<Seq<char>, String> {
        self.cache@
    }
}

impl EnvVarResolver {
    /// Create a new `EnvVarResolver` with an empty cache.
    pub fn new() -> (r: Self)
        ensures
            r@ == Map::<Seq<char>, String>::empty(),
    {
        EnvVarResolver { cache: Table::new() }
    }

    /// Save a resolved environment variable to the cache; the value it
    /// supersedes comes back.
    pub fn save_to_cache(&mut self, key: String, value: String) -> (prior: Option<String>)
        ensures
            final(self)@ == old(self)@.insert(key@, value),
            match prior {
                Some(p) => old(self)@.contains_key(key@) && p == old(self)@[key@],
                None => !old(self)@.contains_key(key@),
            },
    {
        let prior = self.cache.get_cloned(key.as_str());
        self.cache.insert(key, value);
        prior
    }

    /// The cached value of a variable, if the run has one.
    pub fn cached(&self, name: &str) -> (r: Option<&String>)
        ensures
            match r {
                Some(v) => self@.contains_key(name@) && *v == self@[name@],
                None => !self@.contains_key(name@),
            },
    {
        self.cache.get(name)
    }
}

impl Resolver for EnvVarResolver {
    type Arguments = (String, Option<String>);

    type Error = EnvVarResolverError;

    /// Resolve a variable from the cache.  The prompt text travels with
    /// the arguments but soliciting is the executor's part: a miss here is
    /// what sends it to the host.
    fn resolve(&mut self, arguments: (String, Option<String>)) -> (r: Result<
        String,
        EnvVarResolverError,
    >)
        ensures
            *final(self) == *old(self),
            match r {
                Ok(v) => old(self)@.contains_key(arguments.0@) && v == old(self)@[arguments.0@],
                Err(e) => !old(self)@.contains_key(arguments.0@) && (e matches
                    EnvVarResolverError::EnvVarNotFound { name } && name@ == arguments.0@),
            },
    {
        let (name, _prompt) = arguments;
        match self.cache.get(name.as_str()) {
            Some(v) => Ok(v.clone()),
            None => Err(EnvVarResolverError::EnvVarNotFound { name }),
        }
    }
}

} // verus!
