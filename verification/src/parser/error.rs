//! Errors that can occur while parsing TypeScript source code.

use vstd::prelude::*;
use vstd::std_specs::convert::FromSpecImpl;

verus! {

/// `std::io::Error`, carried by I/O failures.
#[verifier::external_type_specification]
#[verifier::external_body]
pub struct ExIoError(std::io::Error);

/// `std::path::PathBuf`, the path of a missing file.
#[verifier::external_type_specification]
#[verifier::external_body]
pub struct ExPathBuf(std::path::PathBuf);

/// `serde_json::Error`, carried by JSON failures.
#[verifier::external_type_specification]
#[verifier::external_body]
pub struct ExJsonError(serde_json::Error);

/// Errors that can occur while parsing TypeScript source code.
#[derive(Debug)]
pub enum ParseError {
    /// File I/O error when reading source files
    Io(std::io::Error),
    /// File not found error
    FileNotFound(std::path::PathBuf),
    /// Deno subprocess failed to start
    DenoStartFailed(String),
    /// Deno subprocess execution error
    DenoExecutionError(String),
    /// Deno returned non-zero exit code
    DenoNonZeroExit { code: i32, message: String },
    /// Deno binary not found
    DenoNotFound,
    /// MessagePack serialization error
    SerializationError(String),
    /// MessagePack deserialization error
    DeserializationError(String),
    /// JSON parsing error
    JsonError(serde_json::Error),
    /// Syntax error in TypeScript source
    SyntaxError { line: usize, column: usize, message: String },
    /// Invalid AST structure received from Deno
    InvalidAst(String),
    /// Timeout waiting for Deno process
    Timeout(u64),
    /// Feature not yet implemented
    Unimplemented { feature: String },
    /// Generic parse error with context
    Generic(String),
    /// Runtime error (e.g., failed to create tokio runtime)
    RuntimeError(String),
}

impl ParseError {
    /// A serialization error with the text of what failed.
    pub fn serialization_error(message: String) -> (r: Self)
        ensures
            r matches ParseError::SerializationError(m) && m@ == message@,
    {
        ParseError::SerializationError(message)
    }

    /// A deserialization error with the text of what failed.
    pub fn deserialization_error(message: String) -> (r: Self)
        ensures
            r matches ParseError::DeserializationError(m) && m@ == message@,
    {
        ParseError::DeserializationError(message)
    }

    /// An invalid-AST error.
    pub fn invalid_ast(message: String) -> (r: Self)
        ensures
            r matches ParseError::InvalidAst(m) && m@ == message@,
    {
        ParseError::InvalidAst(message)
    }

    /// A generic parse error.
    pub fn generic(message: String) -> (r: Self)
        ensures
            r matches ParseError::Generic(m) && m@ == message@,
    {
        ParseError::Generic(message)
    }
}

impl From<std::io::Error> for ParseError {
    fn from(e: std::io::Error) -> (r: Self) {
        ParseError::Io(e)
    }
}

impl FromSpecImpl<std::io::Error> for ParseError {
    open spec fn obeys_from_spec() -> bool {
        true
    }

    open spec fn from_spec(e: std::io::Error) -> Self {
        ParseError::Io(e)
    }
}

impl From<serde_json::Error> for ParseError {
    fn from(e: serde_json::Error) -> (r: Self) {
        ParseError::JsonError(e)
    }
}

impl FromSpecImpl<serde_json::Error> for ParseError {
    open spec fn obeys_from_spec() -> bool {
        true
    }

    open spec fn from_spec(e: serde_json::Error) -> Self {
        ParseError::JsonError(e)
    }
}

} // verus!
