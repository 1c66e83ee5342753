//! Errors of the GLSL frontend.

use vstd::prelude::*;
use crate::ir::Span;

verus! {

/// What went wrong.
#[derive(Debug)]
pub enum ErrorKind {
    /// The source ended where more was expected.
    EndOfFile,
    /// The profile of the `#version` directive is not supported.
    InvalidProfile(String),
    /// The version of the `#version` directive is not supported.
    InvalidVersion(u64),
    /// A name was used that is not declared.
    UnknownVariable(String),
    /// A type name was used that is not declared.
    UnknownType(String),
    /// The shader breaks a rule of the language.
    SemanticError(String),
    /// The shader uses something the frontend does not support yet.
    NotImplemented(String),
    /// The frontend reached a state it should not.
    InternalError(String),
}

/// An error with the place in the source it was found at.
#[derive(Debug)]
pub struct Error {
    pub kind: ErrorKind,
    pub meta: Span,
}

/// All the errors found while parsing one shader.
#[derive(Debug)]
pub struct ParseErrors {
    pub errors: Vec<Error>,
}

impl From<Vec<Error>> for ParseErrors {
    fn from(errors: Vec<Error>) -> (r: ParseErrors) {
        ParseErrors { errors }
    }
}

impl vstd::std_specs::convert::FromSpecImpl<Vec<Error>> for ParseErrors {
    open spec fn obeys_from_spec() -> bool {
        true
    }

    open spec fn from_spec(errors: Vec<Error>) -> ParseErrors {
        ParseErrors { errors }
    }
}

} // verus!
