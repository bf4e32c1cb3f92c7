use vstd::prelude::*;

use crate::map::map::{CellDiscoveryStatus, WallDiscoveryStatus};

verus! {

/// `a` holds at least the information of `base` and does not contradict it:
/// anything refines `Undiscovered`, `Visited` refines everything, and equal values agree.
pub open spec fn cell_upgrade_spec(a: CellDiscoveryStatus, base: CellDiscoveryStatus) -> bool {
    base == CellDiscoveryStatus::Undiscovered || a == CellDiscoveryStatus::Visited || a == base
}

/// `a` holds at least the information of `base` and does not contradict it:
/// anything refines `Undiscovered`, and `Visited` (driven through) refines `Exists(false)`.
pub open spec fn wall_upgrade_spec(a: WallDiscoveryStatus, base: WallDiscoveryStatus) -> bool {
    base == WallDiscoveryStatus::Undiscovered || (a == WallDiscoveryStatus::Visited && base
        == WallDiscoveryStatus::Exists(false)) || a == base
}

/// Whether a value could be a refinement of a less-informed value.
pub trait IsUpgradeable {
    fn could_be_upgrade_of(&self, base: &Self) -> bool;
}

impl IsUpgradeable for CellDiscoveryStatus {
    fn could_be_upgrade_of(&self, base: &Self) -> (r: bool)
        ensures
            r == cell_upgrade_spec(*self, *base),
    {
        match (self, base) {
            (_, CellDiscoveryStatus::Undiscovered) => true,
            (CellDiscoveryStatus::Visited, _) => true,
            (a, b) => *a == *b,
        }
    }
}

impl IsUpgradeable for WallDiscoveryStatus {
    fn could_be_upgrade_of(&self, base: &Self) -> (r: bool)
        ensures
            r == wall_upgrade_spec(*self, *base),
    {
        match (self, base) {
            (_, WallDiscoveryStatus::Undiscovered) => true,
            (WallDiscoveryStatus::Visited, WallDiscoveryStatus::Exists(false)) => true,
            (a, b) => *a == *b,
        }
    }
}

} // verus!
