use vstd::prelude::*;

verus! {

/// Failures reported while building relations or setting up the resolver.
#[derive(Debug, PartialEq, Eq)]
pub enum Error {
    /// A foreign identifier (first field) has no record in the referenced
    /// collection while building the relation named by the second field.
    IdentifierNotFound(String, String),
    /// The weight text (first field) declared on the relation named by the
    /// second field is not a positive number the resolver can use.
    InvalidWeight(String, String),
}

} // verus!
