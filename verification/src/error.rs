//! The ways in which a run can fail.

use crate::transaction::ParseField;
use vstd::prelude::*;

verus! {

/// Why no block sequence was produced. Each failure ends the whole run.
#[derive(Debug, Clone, PartialEq, Eq)]
pub enum AssemblyError {
    /// A record could not be decoded, or holds a value that no line denotes.
    ParseError { field: ParseField },
    /// Two records have the same identifier.
    DuplicateId { id: String },
    /// A record names a parent that the pool does not hold.
    DanglingParent { id: String, missing_parent: String },
    /// A record depends on itself, directly or through other records.
    CyclicDependency { offending_id: String },
    /// Selection ended with records left over.
    UnresolvedDependencyCycle,
}

} // verus!
