//! The summoned lifetime-stats card: whether it is open. It opens on demand
//! and stays open until dismissed.

use vstd::prelude::*;

verus! {

/// Whether the lifetime-stats card is drawn. Closed until summoned.
pub struct LifetimeFlag {
    pub open: bool,
}

impl LifetimeFlag {
    /// Closed.
    pub fn new() -> (f: Self)
        ensures
            !f.open,
    {
        LifetimeFlag { open: false }
    }
}

/// True while the lifetime-stats card is summoned.
pub fn lifetime_open(flag: &LifetimeFlag) -> (r: bool)
    ensures
        r == flag.open,
{
    flag.open
}

/// Open (`true`) or close (`false`) the card.
pub fn set_open(flag: &mut LifetimeFlag, open: bool)
    ensures
        final(flag).open == open,
{
    flag.open = open;
}

} // verus!
