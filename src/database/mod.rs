//! Content sources: the flat-file convention loader and its errors.
pub mod kirby;

use crate::database::kirby::Kirby;
use vstd::prelude::*;

verus! {

/// A failure while loading content; each holds a description of its cause.
#[derive(Debug, Clone, PartialEq, Eq)]
pub enum DatabaseError {
    /// A file or directory could not be read.
    IoError(String),
    /// A path could not be made relative to the content root.
    PathError(String),
    OtherError(String),
}

/// Builds the content source.
#[derive(Debug)]
pub struct DatabaseBuilder {}

impl DatabaseError {
    /// A one-line description: the kind of failure, then its cause.
    pub fn message(&self) -> (r: String)
        ensures
            r@ == match self {
                DatabaseError::IoError(e) => "IO error: "@ + e@,
                DatabaseError::PathError(e) => "Path error: "@ + e@,
                DatabaseError::OtherError(e) => "Other error: "@ + e@,
            },
    {
        match self {
            DatabaseError::IoError(e) => {
                let mut r = "IO error: ".to_owned();
                r.append(e.as_str());
                r
            },
            DatabaseError::PathError(e) => {
                let mut r = "Path error: ".to_owned();
                r.append(e.as_str());
                r
            },
            DatabaseError::OtherError(e) => {
                let mut r = "Other error: ".to_owned();
                r.append(e.as_str());
                r
            },
        }
    }
}

impl DatabaseBuilder {
    pub fn new() -> (r: DatabaseBuilder) {
        DatabaseBuilder {}
    }

    /// The flat-file content source.
    pub fn build(&self) -> (r: Kirby) {
        Kirby {}
    }
}

} // verus!
