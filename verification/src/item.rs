//! What an item is for, and the text entered for its effects.
use vstd::prelude::*;

verus! {

#[derive(Debug, Clone, Copy, PartialEq, Eq)]
pub enum ItemUsage {
    /// Used up in one use.
    Consumable,
    /// Usable many times.
    Usable,
    /// Placed in a location, where it serves as a tool or storage.
    Placeable,
    /// Worn.
    Wearable,
    /// Of no use: decorative or lore.
    NoUse,
}

/// The text of an item's effects as entered in its form.
#[derive(Debug)]
pub struct ItemEffectModal {
    pub content: String,
}

} // verus!
