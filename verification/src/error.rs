//! The crate's error type.

use crate::text::{decimal, push_decimal};
use vstd::prelude::*;
use vstd::string::StringExecFns;

verus! {

/// Errors returned by the database and its parts.
#[derive(Debug)]
#[non_exhaustive]
pub enum VectorDbError {
    DimensionMismatch { expected: usize, actual: usize },
    DuplicateId(u64),
    InvalidVector(&'static str),
    NotFound(u64),
    /// A `.lvdb` file is malformed or truncated.
    Corrupt(&'static str),
    /// A `.lvdb` file uses a newer major format version than this build supports.
    UnsupportedVersion { major: u16, minor: u16 },
}

impl VectorDbError {
    /// What the error says.
    pub open spec fn text(&self) -> Seq<char> {
        match self {
            VectorDbError::DimensionMismatch { expected, actual } =>
                "vector dimension mismatch: expected "@ + decimal(*expected as nat) + ", got "@
                + decimal(*actual as nat),
            VectorDbError::DuplicateId(id) => "a record with id "@ + decimal(*id as nat)
                + " already exists"@,
            VectorDbError::InvalidVector(message) => "invalid vector: "@ + message@,
            VectorDbError::NotFound(id) => "no record with id "@ + decimal(*id as nat),
            VectorDbError::Corrupt(message) => "corrupt .lvdb file: "@ + message@,
            VectorDbError::UnsupportedVersion { major, minor } =>
                "unsupported .lvdb format version "@ + decimal(*major as nat) + "."@ + decimal(
                *minor as nat,
            ),
        }
    }

    /// What the error says.
    pub fn message(&self) -> (r: String)
        ensures
            r@ == self.text(),
    {
        match self {
            VectorDbError::DimensionMismatch { expected, actual } => {
                let mut text = String::from_str("vector dimension mismatch: expected ");
                push_decimal(&mut text, *expected as u64);
                text.append(", got ");
                push_decimal(&mut text, *actual as u64);
                text
            },
            VectorDbError::DuplicateId(id) => {
                let mut text = String::from_str("a record with id ");
                push_decimal(&mut text, *id);
                text.append(" already exists");
                text
            },
            VectorDbError::InvalidVector(message) => {
                let mut text = String::from_str("invalid vector: ");
                text.append(message);
                text
            },
            VectorDbError::NotFound(id) => {
                let mut text = String::from_str("no record with id ");
                push_decimal(&mut text, *id);
                text
            },
            VectorDbError::Corrupt(message) => {
                let mut text = String::from_str("corrupt .lvdb file: ");
                text.append(message);
                text
            },
            VectorDbError::UnsupportedVersion { major, minor } => {
                let mut text = String::from_str("unsupported .lvdb format version ");
                push_decimal(&mut text, *major as u64);
                text.append(".");
                push_decimal(&mut text, *minor as u64);
                text
            },
        }
    }
}

} // verus!
