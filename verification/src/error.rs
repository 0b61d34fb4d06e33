//! Error type of the library.

use vstd::prelude::*;

verus! {

#[verifier::external_type_specification]
#[verifier::external_body]
pub struct ExIoError(std::io::Error);

/// Error type for the `community-analyzer` crate.
#[derive(Debug)]
pub enum CommError {
    Io(std::io::Error),
    Config(String),
    Figment(String),
    Nlp(String),
    Generic(String),
}

} // verus!
