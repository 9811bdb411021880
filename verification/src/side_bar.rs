//! Side bar placement: which edge a side bar lives on, and where an
//! activity's views dock.
use vstd::prelude::*;

verus! {

/// Which edge a side bar lives on. Default `Left`.
#[derive(Clone, Copy, Debug, PartialEq, Eq, Structural)]
pub enum Side {
    Left,
    Right,
}

impl Default for Side {
    fn default() -> (side: Self)
        ensures
            side == Side::Left,
    {
        Side::Left
    }
}

/// Where an activity's views dock: `LeftBar` is the primary accordion
/// driven by the activity bar, `RightBar` the secondary accordion. Hosts
/// read an activity's default location to route an activity-bar click to
/// the correct stack.
#[derive(Clone, Copy, Debug, PartialEq, Eq, Hash, Structural)]
pub enum Location {
    LeftBar,
    RightBar,
}

impl Default for Location {
    fn default() -> (location: Self)
        ensures
            location == Location::LeftBar,
    {
        Location::LeftBar
    }
}

} // verus!
