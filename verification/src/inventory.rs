//! Who holds an inventory entry.
use vstd::prelude::*;

verus! {

#[derive(Debug, Clone, Copy, PartialEq, Eq)]
pub enum HolderType {
    Character,
    Item,
}

} // verus!
