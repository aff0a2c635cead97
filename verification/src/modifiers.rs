//! Stat modifiers: their kinds, the level at which they apply, and when
//! they stop applying.
use vstd::prelude::*;

verus! {

/// How a modifier changes a stat: with `a` the multipliers, `b` the bases
/// and `c` the flats, a stat `x` becomes `a * (x + b) + c`.
#[derive(Debug, Clone, Copy, PartialEq, Eq)]
pub enum ModifierType {
    Base,
    Multiplier,
    Flats,
}

/// Where a modifier applies.
#[derive(Debug, Clone, Copy, PartialEq, Eq)]
pub enum ModifierLevel {
    Player,
    Place,
    Area,
    Universe,
}

/// The level of a modifier stored without one.
pub fn default_modifier_level() -> (l: ModifierLevel)
    ensures
        l == ModifierLevel::Player,
{
    ModifierLevel::Player
}

/// Whether a modifier with the given end still applies at `now` (seconds
/// since the Unix epoch): one without an end always does, one with an end
/// does strictly before it.
pub open spec fn active_at(end_timestamp: Option<u64>, now: u64) -> bool {
    match end_timestamp {
        Some(end) => now < end,
        None => true,
    }
}

pub fn is_active_at(end_timestamp: Option<u64>, now: u64) -> (b: bool)
    ensures
        b == active_at(end_timestamp, now),
{
    match end_timestamp {
        Some(end) => now < end,
        None => true,
    }
}

} // verus!
