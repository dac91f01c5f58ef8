//! Value resolvers: each strategy turns the arguments of one dependency
//! kind into a string value, or fails with its own error.  Every resolver
//! here is pure — it answers from the run's accumulated state, and the
//! executor gathers anything that has to come from outside.

pub mod env_var_resolver;
pub mod one_password_resolver;
pub mod prompt_resolver;
pub mod request_resolver;
pub mod response_resolver;

use vstd::prelude::*;

verus! {

/// A strategy producing a string value for one dependency kind.
pub trait Resolver {
    type Arguments;

    type Error;

    fn resolve(&mut self, arguments: Self::Arguments) -> Result<String, Self::Error>;
}

} // verus!
