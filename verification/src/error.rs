//! Crate-wide error type.

use vstd::prelude::*;

verus! {

/// Anything that can go wrong inside the crate.
#[derive(Debug, Clone, PartialEq, Eq)]
pub enum ShadowError {
    /// The wrapped backend returned an error.
    Backend(String),
    /// The shadow leg timed out. The primary call is unaffected.
    ShadowTimeout,
}

/// What `ShadowError::message` renders for an error.
pub open spec fn error_message(e: ShadowError) -> Seq<char> {
    match e {
        ShadowError::Backend(msg) => "backend failure: "@ + msg@,
        ShadowError::ShadowTimeout => "shadow leg timed out"@,
    }
}

impl ShadowError {
    /// The human-readable message of this error.
    pub fn message(&self) -> (m: String)
        ensures
            m@ == error_message(*self),
    {
        match self {
            ShadowError::Backend(msg) => {
                let mut m = String::from_str("backend failure: ");
                m.append(msg.as_str());
                m
            },
            ShadowError::ShadowTimeout => String::from_str("shadow leg timed out"),
        }
    }
}

} // verus!
