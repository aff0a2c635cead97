//! Identifiers of stored documents.
use vstd::prelude::*;

verus! {

/// A stored document's identifier: its twelve bytes read as a big-endian
/// number.
#[derive(Clone, Copy, Debug, PartialEq, Eq, Structural)]
pub struct DocumentId {
    pub value: u128,
}

} // verus!
