//! Error taxonomy of the graph model: format errors on a record, missing and
//! duplicate identifiers, and document-level validation failures.  Each
//! variant carries the offending text or identifier.
use vstd::prelude::*;

verus! {

#[derive(Clone, Debug)]
pub enum TsgError {
    /// A record line that does not follow the grammar.
    InvalidRecord(Vec<u8>),
    /// A reference to an identifier that does not exist.
    NotFound(Vec<u8>),
    /// A declaration that reuses an identifier.
    Duplicate(Vec<u8>),
    /// A document-level validation failure.
    Validation(Vec<u8>),
}

impl TsgError {
    /// Short English name of the error kind, for display by callers.
    pub fn kind_name(&self) -> (r: &'static str)
        ensures
            true,
    {
        match self {
            TsgError::InvalidRecord(_) => "invalid record",
            TsgError::NotFound(_) => "not found",
            TsgError::Duplicate(_) => "duplicate identifier",
            TsgError::Validation(_) => "validation failed",
        }
    }

    /// The offending text or identifier the error carries.
    pub fn context(&self) -> (r: &Vec<u8>)
        ensures
            true,
    {
        match self {
            TsgError::InvalidRecord(v) => v,
            TsgError::NotFound(v) => v,
            TsgError::Duplicate(v) => v,
            TsgError::Validation(v) => v,
        }
    }
}

} // verus!
