//! Workspace identifiers.
use vstd::prelude::*;

verus! {

/// The handle of a tab: what the editor and panel trees store as pane
/// payloads (not the tabs themselves).
#[derive(Clone, Copy, Debug, PartialEq, Eq, Hash, Structural)]
pub struct TabId(pub u64);

} // verus!
