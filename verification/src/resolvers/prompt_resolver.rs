//! Resolves interactive input from the run's cache.  The executor asks the
//! host to solicit input on a miss and records the answer here, so an
//! identical label is never prompted twice in one run.

use vstd::prelude::*;

use super::Resolver;
use crate::table::Table;
use crate::text::{quoted, quoted_spec};

verus! {

/// Why a prompt did not resolve.
#[derive(Debug, PartialEq, Eq)]
pub enum PromptResolverError {
    /// No interactive input could be obtained for this label.
    PromptFailed { key: String },
}

impl PromptResolverError {
    /// The error in words.
    pub open spec fn message_view(&self) -> Seq<char> {
        match self {
            PromptResolverError::PromptFailed { key } => "Prompt for "@ + quoted_spec(key@)
                + " failed"@,
        }
    }

    /// The error in words.
    pub fn message(&self) -> (r: String)
        ensures
            r@ == self.message_view(),
    {
        match self {
            PromptResolverError::PromptFailed { key } => {
                let mut m: String = "Prompt for ".to_owned();
                m.append(quoted(key.as_str()).as_str());
                m.append(" failed");
                m
            },
        }
    }
}

/// The prompt resolver: a run-scoped cache of solicited values keyed by
/// label.
#[derive(Debug)]
pub struct PromptResolver {
    cache: Table<String>,
}

impl View for PromptResolver {
    type V = Map<Seq<char>, String>;

    closed spec fn view(&self) -> Map<Seq<char>, String> {
        self.cache@
    }
}

impl PromptResolver {
    /// Create a new `PromptResolver` with an empty cache.
    pub fn new() -> (r: Self)
        ensures
            r@ == Map::<Seq<char>, String>::empty(),
    {
        PromptResolver { cache: Table::new() }
    }

    /// Save a user-provided value to the cache; the value it supersedes
    /// comes back.
    pub fn save_to_cache(&mut self, key: String, value: String) -> (prior: Option<String>)
        ensures
            final(self)@ == old(self)@.insert(key@, value),
            match prior {
                Some(p) => old(self)@.contains_key(key@) && p == old(self)@[key@],
                None => !old(self)@.contains_key(key@),
            },
    {
        let prior = self.cache.get_cloned(key.as_str());
        self.cache.insert(key, value);
        prior
    }

    /// The cached input for a label, if the run has one.
    pub fn cached(&self, label: &str) -> (r: Option<&String>)
        ensures
            match r {
                Some(v) => self@.contains_key(label@) && *v == self@[label@],
                None => !self@.contains_key(label@),
            },
    {
        self.cache.get(label)
    }
}

impl Resolver for PromptResolver {
    type Arguments = String;

    type Error = PromptResolverError;

    /// Resolve a label from the cache.  Soliciting input is the executor's
    /// part: a miss here is what sends it to the host.
    fn resolve(&mut self, arguments: String) -> (r: Result<String, PromptResolverError>)
        ensures
            *final(self) == *old(self),
            match r {
                Ok(v) => old(self)@.contains_key(arguments@) && v == old(self)@[arguments@],
                Err(e) => !old(self)@.contains_key(arguments@) && (e matches
                    PromptResolverError::PromptFailed { key } && key@ == arguments@),
            },
    {
        match self.cache.get(arguments.as_str()) {
            Some(v) => Ok(v.clone()),
            None => Err(PromptResolverError::PromptFailed { key: arguments }),
        }
    }
}

} // verus!
