//! Universes: how they are set up, and the limits of the free offer.
use vstd::prelude::*;

verus! {

/// How much of a server's structure a setup creates.
#[derive(Debug, Clone, Copy, PartialEq, Eq)]
pub enum SetupType {
    FullSetup,
    PartialSetup,
}

/// How many universes a user may create for free.
pub const FREE_LIMIT_UNIVERSE: u64 = 2;

/// How many servers a universe may hold for free.
pub const FREE_LIMIT_SERVERS_PER_UNIVERSE: u64 = 2;

/// Whether a user who created `count` universes is within the free limit:
/// a count up to `FREE_LIMIT_UNIVERSE` is allowed, only a count above it is
/// refused.
pub fn universe_limit_allows(count: u64) -> (b: bool)
    ensures
        b == (count <= FREE_LIMIT_UNIVERSE),
{
    count <= FREE_LIMIT_UNIVERSE
}

/// Whether a universe holding `count` servers may take another: the
/// server limit is reached at `FREE_LIMIT_SERVERS_PER_UNIVERSE`.
pub fn server_limit_allows(count: u64) -> (b: bool)
    ensures
        b == (count < FREE_LIMIT_SERVERS_PER_UNIVERSE),
{
    count < FREE_LIMIT_SERVERS_PER_UNIVERSE
}

} // verus!
