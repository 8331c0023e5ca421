//! What flatted operations report when they fail.
use vstd::prelude::*;
use crate::text::append_str;
use serde_json::Error as JsonError;

verus! {

/// `serde_json`'s error, carried as it is.
#[verifier::external_type_specification]
#[verifier::external_body]
pub struct ExJsonError(JsonError);

/// Error returned by flatted operations.
#[derive(Debug)]
pub enum Error {
    /// Invalid JSON / flatted text.
    Json(JsonError),
    /// Flatted payload is not a top-level array.
    ExpectedArray,
    /// String index did not point at a valid slot.
    InvalidIndex(String),
    /// A document holds more arrays and objects than nodes can be numbered.
    TooLarge,
}

/// The message of a `serde_json` error (its `Display`).
#[verifier::external_body]
fn json_error_message(e: &JsonError) -> String {
    format!("{e}")
}

/// The message for a flatted payload that is not an array.
pub open spec fn expected_array_message() -> Seq<char> {
    "flatted input must be a JSON array"@
}

/// The message for a document with too many arrays and objects.
pub open spec fn too_large_message() -> Seq<char> {
    "document holds too many arrays and objects"@
}

/// The prefix of the message for a bad index.
pub open spec fn invalid_index_prefix() -> Seq<char> {
    "invalid flatted index: "@
}

impl Error {
    /// The human-readable message of this error.
    pub fn message(&self) -> (m: String)
        ensures
            *self == Error::ExpectedArray ==> m@ == expected_array_message(),
            self matches Error::InvalidIndex(s) ==> m@ == invalid_index_prefix() + s@,
            *self == Error::TooLarge ==> m@ == too_large_message(),
    {
        match self {
            Error::Json(e) => json_error_message(e),
            Error::ExpectedArray => {
                let mut m = String::new();
                append_str(&mut m, "flatted input must be a JSON array");
                m
            },
            Error::TooLarge => {
                let mut m = String::new();
                append_str(&mut m, "document holds too many arrays and objects");
                m
            },
            Error::InvalidIndex(s) => {
                let mut m = String::new();
                append_str(&mut m, "invalid flatted index: ");
                append_str(&mut m, s.as_str());
                m
            },
        }
    }
}

impl From<JsonError> for Error {
    fn from(value: JsonError) -> (r: Error) {
        Error::Json(value)
    }
}

impl vstd::std_specs::convert::FromSpecImpl<JsonError> for Error {
    open spec fn obeys_from_spec() -> bool {
        true
    }

    open spec fn from_spec(v: JsonError) -> Error {
        Error::Json(v)
    }
}

} // verus!
