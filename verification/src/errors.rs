//! The error values that the engine reports.  Every engine error is
//! recoverable by the caller; none of the operations here terminates the
//! process.

use vstd::prelude::*;

verus! {

/// Why an engine operation was refused.
#[derive(Debug, Clone, Copy, PartialEq, Eq)]
pub enum DooError {
    /// A conflict resolution named a source that does not exist.
    InvalidSource,
    /// A registry document failed structural validation: a duplicated
    /// command name, or a command with an empty template.
    MalformedDocument,
    /// Remote content was declared with an encoding other than base64.
    UnsupportedEncoding,
    /// Remote content could not be decoded as base64.
    InvalidBase64,
    /// Decoded remote content is not valid UTF-8.
    InvalidUtf8,
    /// A remote registry document holds no commands at all.
    EmptyDocument,
}

impl DooError {
    /// A short display text for this error.
    pub fn message(&self) -> (r: &'static str)
        ensures
            r@.len() > 0,
    {
        let m: &'static str = match self {
            DooError::InvalidSource => "invalid source name",
            DooError::MalformedDocument => "malformed registry document",
            DooError::UnsupportedEncoding => "unsupported content encoding",
            DooError::InvalidBase64 => "content is not valid base64",
            DooError::InvalidUtf8 => "content is not valid UTF-8",
            DooError::EmptyDocument => "registry document holds no commands",
        };
        proof {
            reveal_strlit("invalid source name");
            reveal_strlit("malformed registry document");
            reveal_strlit("unsupported content encoding");
            reveal_strlit("content is not valid base64");
            reveal_strlit("content is not valid UTF-8");
            reveal_strlit("registry document holds no commands");
        }
        m
    }
}

} // verus!
