//! The error taxonomy: parameter errors are local, deterministic
//! rejections of caller-supplied input; repository errors come from the
//! storage collaborator. Neither is ever retried by the core, and HTTP
//! status codes are derived from them only by the boundary layer.

use vstd::prelude::*;

verus! {

/// A caller-supplied input was invalid.
#[derive(Clone, Copy, Debug, PartialEq, Eq, Structural)]
pub enum ParameterError {
    Bbox,
    License,
    UserName,
    Password,
    Email,
    EmptyComment,
    RatingValue,
    Categories,
    UserExists,
    EmailNotConfirmed,
    Credentials,
    Forbidden,
}

/// The storage collaborator failed: the record was absent, the version
/// check rejected a conflicting write, or an opaque cause occurred.
#[derive(Clone, Copy, Debug, PartialEq, Eq, Structural)]
pub enum RepoError {
    NotFound,
    InvalidVersion,
    Other,
}

/// Any failure a use case can surface.
#[derive(Clone, Copy, Debug, PartialEq, Eq, Structural)]
pub enum Error {
    Parameter(ParameterError),
    Repo(RepoError),
    Pwhash,
}

} // verus!
