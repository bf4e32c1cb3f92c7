use vstd::prelude::*;

use crate::map::map::WallDiscoveryStatus;

verus! {

/// Two wall states could describe the same real wall: one of them is unknown, or
/// both agree on whether the wall exists (`Visited` meaning it does not).
pub open spec fn wall_potentially_eq_spec(a: WallDiscoveryStatus, b: WallDiscoveryStatus) -> bool {
    match (a, b) {
        (WallDiscoveryStatus::Undiscovered, _) => true,
        (_, WallDiscoveryStatus::Undiscovered) => true,
        (WallDiscoveryStatus::Exists(x), WallDiscoveryStatus::Exists(y)) => x == y,
        (WallDiscoveryStatus::Visited, WallDiscoveryStatus::Exists(y)) => !y,
        (WallDiscoveryStatus::Exists(x), WallDiscoveryStatus::Visited) => !x,
        (WallDiscoveryStatus::Visited, WallDiscoveryStatus::Visited) => true,
    }
}

/// Whether two descriptions could describe the same reality.
pub trait PotentiallyEq {
    type Other;

    fn potentially_eq(&self, other: &Self::Other) -> bool;
}

impl PotentiallyEq for WallDiscoveryStatus {
    type Other = Self;

    fn potentially_eq(&self, other: &Self) -> (r: bool)
        ensures
            r == wall_potentially_eq_spec(*self, *other),
    {
        match (self, other) {
            (WallDiscoveryStatus::Undiscovered, _) | (_, WallDiscoveryStatus::Undiscovered) => true,
            (WallDiscoveryStatus::Exists(a), WallDiscoveryStatus::Exists(b)) => *a == *b,
            (WallDiscoveryStatus::Visited, WallDiscoveryStatus::Exists(false)) => true,
            (WallDiscoveryStatus::Exists(false), WallDiscoveryStatus::Visited) => true,
            (WallDiscoveryStatus::Visited, WallDiscoveryStatus::Visited) => true,
            (WallDiscoveryStatus::Visited, WallDiscoveryStatus::Exists(true)) => false,
            (WallDiscoveryStatus::Exists(true), WallDiscoveryStatus::Visited) => false,
        }
    }
}

} // verus!
