//! The failure taxonomy every fallible operation reports from.

use vstd::prelude::*;

verus! {

/// Every way a core operation can fail.
#[derive(Clone, Copy, Debug, PartialEq, Eq, Structural)]
pub enum DataError {
    /// A raw row's token count does not match the schema.
    SchemaMismatch,
    /// A token at this position is not a readable number.
    MalformedValue(usize),
    /// The field name is unknown, or the column came back empty.
    FieldNotFoundOrEmpty,
    /// A downstream collaborator reported failure.
    UpstreamFailure,
}

} // verus!
