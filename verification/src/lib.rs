//! Decision records kept as out-of-band annotations ("notes") on the commits
//! of a version-control repository.
//!
//! The crate models the repository state explicitly: [`git::Git`] holds the
//! head revision, the commit history, the key/value configuration and the
//! notes namespaces. The managers ([`notes::NotesManager`],
//! [`config::ConfigManager`], [`index::IndexManager`]) run over that state,
//! and every operation carries a contract.

use vstd::prelude::*;

pub mod adr;
pub mod date;
pub mod export;
pub mod config;
pub mod git;
pub mod index;
pub mod notes;
pub mod templates;
pub mod text;
pub mod wiki;

verus! {

/// Errors reported by the record store and its companions.
#[derive(Debug, Clone)]
pub enum Error {
    /// A primitive of the version-control adapter failed.
    Git { message: String, command: Vec<String>, exit_code: i32, stderr: String },
    /// The working directory is not inside a repository.
    NotARepository { path: Option<String> },
    /// The store has not been initialized in this repository.
    NotInitialized,
    /// No record with the given id exists.
    AdrNotFound { id: String },
    /// A record document is malformed.
    InvalidAdr { message: String },
    /// A configuration value is missing or malformed.
    Config { message: String },
    /// A caller-supplied value failed validation.
    Validation { message: String },
    /// A status string is not one of the known values.
    InvalidStatus { status: String, valid: Vec<String> },
    /// A document or an index blob could not be parsed.
    ParseError { message: String },
    /// A template failed to register or to render.
    TemplateError { message: String },
    /// No template of the given name is registered.
    TemplateNotFound { name: String },
    /// An export format name is not recognized.
    InvalidFormat { format: String },
    /// A wiki operation failed.
    WikiError { message: String },
    /// The adapter's executable is missing.
    GitNotFound,
    /// A payload is larger than the store accepts.
    ContentTooLarge { size: usize, max: usize },
    /// A feature this build does not carry.
    FeatureNotAvailable { feature: String },
    /// A reading or writing failure reported by a front end.
    IoError { message: String },
    /// Any other failure.
    Other(String),
}

/// The description of an error, one line of text.
pub open spec fn error_text(e: Error) -> Seq<char> {
    match e {
        Error::Git { message, .. } => "git error: "@ + message@,
        Error::NotARepository { path } => match path {
            Some(p) => "not a git repository: "@ + p@,
            None => "not a git repository"@,
        },
        Error::NotInitialized => "the record store is not initialized in this repository"@,
        Error::AdrNotFound { id } => "ADR not found: "@ + id@,
        Error::InvalidAdr { message } => "invalid ADR format: "@ + message@,
        Error::Config { message } => "configuration error: "@ + message@,
        Error::Validation { message } => "validation error: "@ + message@,
        Error::InvalidStatus { status, .. } => "invalid status: "@ + status@,
        Error::ParseError { message } => "parse error: "@ + message@,
        Error::TemplateError { message } => "template error: "@ + message@,
        Error::TemplateNotFound { name } => "template not found: "@ + name@,
        Error::InvalidFormat { format } => "invalid format: "@ + format@,
        Error::WikiError { message } => "wiki error: "@ + message@,
        Error::GitNotFound => "git executable not found - please install git"@,
        Error::ContentTooLarge { .. } => "content too large"@,
        Error::FeatureNotAvailable { feature } => "feature not available: "@ + feature@,
        Error::IoError { message } => "IO error: "@ + message@,
        Error::Other(message) => message@,
    }
}

impl Error {
    /// The error's description, one line of text.
    pub fn message(&self) -> (r: String)
        ensures
            r@ == error_text(*self),
    {
        match self {
            Error::Git { message, .. } => Self::prefixed("git error: ", message.as_str()),
            Error::NotARepository { path } => match path {
                Some(p) => Self::prefixed("not a git repository: ", p.as_str()),
                None => String::from_str("not a git repository"),
            },
            Error::NotInitialized => String::from_str(
                "the record store is not initialized in this repository",
            ),
            Error::AdrNotFound { id } => Self::prefixed("ADR not found: ", id.as_str()),
            Error::InvalidAdr { message } => Self::prefixed(
                "invalid ADR format: ",
                message.as_str(),
            ),
            Error::Config { message } => Self::prefixed(
                "configuration error: ",
                message.as_str(),
            ),
            Error::Validation { message } => Self::prefixed(
                "validation error: ",
                message.as_str(),
            ),
            Error::InvalidStatus { status, .. } => Self::prefixed(
                "invalid status: ",
                status.as_str(),
            ),
            Error::ParseError { message } => Self::prefixed("parse error: ", message.as_str()),
            Error::TemplateError { message } => Self::prefixed(
                "template error: ",
                message.as_str(),
            ),
            Error::TemplateNotFound { name } => Self::prefixed(
                "template not found: ",
                name.as_str(),
            ),
            Error::InvalidFormat { format } => Self::prefixed(
                "invalid format: ",
                format.as_str(),
            ),
            Error::WikiError { message } => Self::prefixed("wiki error: ", message.as_str()),
            Error::GitNotFound => String::from_str("git executable not found - please install git"),
            Error::ContentTooLarge { .. } => String::from_str("content too large"),
            Error::FeatureNotAvailable { feature } => Self::prefixed(
                "feature not available: ",
                feature.as_str(),
            ),
            Error::IoError { message } => Self::prefixed("IO error: ", message.as_str()),
            Error::Other(message) => message.clone(),
        }
    }

    /// A prefix joined to a payload.
    fn prefixed(prefix: &str, rest: &str) -> (r: String)
        ensures
            r@ == prefix@ + rest@,
    {
        let mut v = crate::text::chars_of(prefix);
        let rv = crate::text::chars_of(rest);
        crate::text::extend_chars(&mut v, &rv);
        crate::text::string_of(&v)
    }

    /// A subprocess-style error of the adapter.
    pub fn git(message: String, command: Vec<String>, exit_code: i32, stderr: String) -> (r: Error)
        ensures
            r is Git,
            error_text(r) == "git error: "@ + message@,
    {
        Error::Git { message, command, exit_code, stderr }
    }

    /// A not-found error for a record id.
    pub fn adr_not_found(id: String) -> (r: Error)
        ensures
            r is AdrNotFound,
            error_text(r) == "ADR not found: "@ + id@,
    {
        Error::AdrNotFound { id }
    }

    /// A malformed-record error.
    pub fn invalid_adr(message: String) -> (r: Error)
        ensures
            r is InvalidAdr,
            error_text(r) == "invalid ADR format: "@ + message@,
    {
        Error::InvalidAdr { message }
    }

    /// A configuration error.
    pub fn config(message: String) -> (r: Error)
        ensures
            r is Config,
            error_text(r) == "configuration error: "@ + message@,
    {
        Error::Config { message }
    }

    /// A validation error.
    pub fn validation(message: String) -> (r: Error)
        ensures
            r is Validation,
            error_text(r) == "validation error: "@ + message@,
    {
        Error::Validation { message }
    }
}

} // verus!
