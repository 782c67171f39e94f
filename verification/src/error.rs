//! The errors of the library.

use vstd::prelude::*;
use vstd::string::StringExecFns;

verus! {

/// Makes `std::io::Error` known as a type, so that an error of the library
/// can carry one. Nothing is claimed of what such a value holds.
#[verifier::external_type_specification]
#[verifier::external_body]
pub struct ExIoError(std::io::Error);

/// What can go wrong while a literate document is processed.
#[derive(Debug)]
pub enum LitProError {
    /// An output could not be written.
    IoError(std::io::Error),
    /// The cells cannot be ordered: some cell depends on itself, directly
    /// or through others.
    CircularDependencyError,
    /// The document is malformed.
    ParseError(String),
}

impl LitProError {
    /// The error in words.
    pub fn message(&self) -> (text: String)
        ensures
            match self {
                LitProError::IoError(_) => "IO Error: "@.is_prefix_of(text@),
                LitProError::CircularDependencyError => text@ == "Circular dependency detected"@,
                LitProError::ParseError(detail) => text@ == "Parse Error: "@ + detail@,
            },
    {
        match self {
            LitProError::IoError(cause) => {
                let detail = cause.to_string();
                let mut text = String::from_str("IO Error: ");
                text.append(detail.as_str());
                text
            },
            LitProError::CircularDependencyError => String::from_str(
                "Circular dependency detected",
            ),
            LitProError::ParseError(detail) => {
                let mut text = String::from_str("Parse Error: ");
                text.append(detail.as_str());
                text
            },
        }
    }
}

} // verus!
