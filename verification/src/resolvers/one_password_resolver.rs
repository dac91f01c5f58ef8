//! Resolves a secret from an external secret-store command-line tool.  The
//! host invokes the tool and hands its outcome over; this resolver owns
//! the classification: a clean exit yields the trimmed standard output,
//! and failure text is pattern-matched into vault, item or field misses.

use vstd::prelude::*;

use super::Resolver;
use crate::text::{contains_spec, contains_sub, trim, trim_spec};

verus! {

/// Errors that may occur when resolving secret-store variables.
#[derive(Debug, PartialEq, Eq)]
pub enum OnePasswordResolverError {
    /// The command-line tool is absent or not executable.
    CliNotFound,
    /// The tool failed in a way the patterns do not classify.
    FetchError { reference: String, message: String },
    /// The tool's output was not readable as text.
    ParseError,
    /// The named vault does not exist or is inaccessible.
    VaultNotFound { vault: String },
    /// The named item is not in the vault.
    ItemNotFound { vault: String, item: String },
    /// The named field is not on the item.
    FieldNotFound { vault: String, item: String, field: String },
}

impl OnePasswordResolverError {
    /// The error in words.
    pub open spec fn message_view(&self) -> Seq<char> {
        match self {
            OnePasswordResolverError::CliNotFound => {
                "1Password CLI not found or not executable"@
            },
            OnePasswordResolverError::FetchError { reference, message } => {
                "Failed to fetch 1Password variable `"@ + reference@ + "`: "@ + message@
            },
            OnePasswordResolverError::ParseError => "Failed to parse 1Password CLI output"@,
            OnePasswordResolverError::VaultNotFound { vault } => "Vault `"@ + vault@
                + "` does not exist or is inaccessible"@,
            OnePasswordResolverError::ItemNotFound { vault, item } => "Item `"@ + item@
                + "` not found in vault `"@ + vault@ + "`"@,
            OnePasswordResolverError::FieldNotFound { vault, item, field } => "Field `"@ + field@
                + "` not found in item `"@ + item@ + "` of vault `"@ + vault@ + "`"@,
        }
    }

    /// The error in words.
    pub fn message(&self) -> (r: String)
        ensures
            r@ == self.message_view(),
    {
        match self {
            OnePasswordResolverError::CliNotFound => {
                "1Password CLI not found or not executable".to_owned()
            },
            OnePasswordResolverError::FetchError { reference, message } => {
                let mut m: String = "Failed to fetch 1Password variable `".to_owned();
                m.append(reference.as_str());
                m.append("`: ");
                m.append(message.as_str());
                m
            },
            OnePasswordResolverError::ParseError => {
                "Failed to parse 1Password CLI output".to_owned()
            },
            OnePasswordResolverError::VaultNotFound { vault } => {
                let mut m: String = "Vault `".to_owned();
                m.append(vault.as_str());
                m.append("` does not exist or is inaccessible");
                m
            },
            OnePasswordResolverError::ItemNotFound { vault, item } => {
                let mut m: String = "Item `".to_owned();
                m.append(item.as_str());
                m.append("` not found in vault `");
                m.append(vault.as_str());
                m.append("`");
                m
            },
            OnePasswordResolverError::FieldNotFound { vault, item, field } => {
                let mut m: String = "Field `".to_owned();
                m.append(field.as_str());
                m.append("` not found in item `");
                m.append(item.as_str());
                m.append("` of vault `");
                m.append(vault.as_str());
                m.append("`");
                m
            },
        }
    }
}

/// What the host observed when it invoked the secret-store tool.
#[derive(Debug)]
pub enum SecretFetchOutcome {
    /// The tool ran: its exit state, its standard output as text (`None`
    /// where the bytes were not text), and its standard error.
    Output { success: bool, stdout: Option<String>, stderr: String },
    /// The tool could not be invoked at all.
    CliNotFound,
}

/// The reference string a secret is addressed by.
pub open spec fn reference_of(vault: Seq<char>, item: Seq<char>, field: Seq<char>) -> Seq<char> {
    "op://"@ + vault + "/"@ + item + "/"@ + field
}

/// Build the reference string for a secret.
pub fn make_reference(vault: &str, item: &str, field: &str) -> (r: String)
    ensures
        r@ == reference_of(vault@, item@, field@),
{
    let mut m: String = "op://".to_owned();
    m.append(vault);
    m.append("/");
    m.append(item);
    m.append("/");
    m.append(field);
    m
}

/// How a fetch outcome classifies: success yields the trimmed output, and
/// failure text is matched for a vault, item or field miss, in that order.
pub open spec fn resolves_secret(
    vault: Seq<char>,
    item: Seq<char>,
    field: Seq<char>,
    outcome: SecretFetchOutcome,
    r: Result<String, OnePasswordResolverError>,
) -> bool {
    match outcome {
        SecretFetchOutcome::CliNotFound => r matches Err(OnePasswordResolverError::CliNotFound),
        SecretFetchOutcome::Output { success, stdout, stderr } => {
            if success {
                match stdout {
                    Some(s) => r matches Ok(v) && v@ == trim_spec(s@),
                    None => r matches Err(OnePasswordResolverError::ParseError),
                }
            } else {
                if contains_spec(stderr@, "Vault not found"@) {
                    r matches Err(OnePasswordResolverError::VaultNotFound { vault: v }) && v@
                        == vault
                } else if contains_spec(stderr@, "Item not found"@) {
                    r matches Err(OnePasswordResolverError::ItemNotFound { vault: v, item: it })
                        && v@ == vault && it@ == item
                } else if contains_spec(stderr@, "Field not found"@) {
                    r matches Err(
                        OnePasswordResolverError::FieldNotFound { vault: v, item: it, field: f },
                    ) && v@ == vault && it@ == item && f@ == field
                } else {
                    r matches Err(
                        OnePasswordResolverError::FetchError { reference, message },
                    ) && reference@ == reference_of(vault, item, field) && message@ == stderr@
                }
            }
        },
    }
}

impl Clone for SecretFetchOutcome {
    /// An equal outcome.
    fn clone(&self) -> (r: SecretFetchOutcome)
        ensures
            r == *self,
    {
        match self {
            SecretFetchOutcome::CliNotFound => SecretFetchOutcome::CliNotFound,
            SecretFetchOutcome::Output { success, stdout, stderr } => {
                let out = match stdout {
                    Option::Some(s) => Option::Some(s.clone()),
                    Option::None => Option::None,
                };
                SecretFetchOutcome::Output {
                    success: *success,
                    stdout: out,
                    stderr: stderr.clone(),
                }
            },
        }
    }
}

/// The secret-store resolver.  It holds no state: the classification is a
/// function of the arguments and the tool's outcome.
#[derive(Debug)]
pub struct OnePasswordResolver;

impl OnePasswordResolver {
    pub fn new() -> Self {
        OnePasswordResolver
    }

    /// Classify a fetch outcome for `(vault, item, field)`.
    pub fn classify(vault: String, item: String, field: String, outcome: SecretFetchOutcome) -> (r:
        Result<String, OnePasswordResolverError>)
        ensures
            resolves_secret(vault@, item@, field@, outcome, r),
    {
        match outcome {
            SecretFetchOutcome::CliNotFound => Err(OnePasswordResolverError::CliNotFound),
            SecretFetchOutcome::Output { success, stdout, stderr } => {
                if success {
                    match stdout {
                        Some(s) => Ok(trim(s.as_str())),
                        None => Err(OnePasswordResolverError::ParseError),
                    }
                } else {
                    if contains_sub(stderr.as_str(), "Vault not found") {
                        Err(OnePasswordResolverError::VaultNotFound { vault })
                    } else if contains_sub(stderr.as_str(), "Item not found") {
                        Err(OnePasswordResolverError::ItemNotFound { vault, item })
                    } else if contains_sub(stderr.as_str(), "Field not found") {
                        Err(OnePasswordResolverError::FieldNotFound { vault, item, field })
                    } else {
                        let reference = make_reference(
                            vault.as_str(),
                            item.as_str(),
                            field.as_str(),
                        );
                        Err(OnePasswordResolverError::FetchError { reference, message: stderr })
                    }
                }
            },
        }
    }
}

impl Resolver for OnePasswordResolver {
    type Arguments = (String, String, String, SecretFetchOutcome);

    type Error = OnePasswordResolverError;

    /// Classify what came back from the secret-store tool for
    /// `(vault, item, field)`.
    fn resolve(&mut self, arguments: (String, String, String, SecretFetchOutcome)) -> (r: Result<
        String,
        OnePasswordResolverError,
    >)
        ensures
            resolves_secret(arguments.0@, arguments.1@, arguments.2@, arguments.3, r),
    {
        let (vault, item, field, outcome) = arguments;
        OnePasswordResolver::classify(vault, item, field, outcome)
    }
}

} // verus!
