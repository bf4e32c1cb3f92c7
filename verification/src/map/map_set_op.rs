use vstd::prelude::*;

use crate::map::map::{CellDiscoveryStatus, WallDiscoveryStatus};

verus! {

/// The logical conclusion of two cell states (they never contradict).
pub open spec fn cell_union_spec(a: CellDiscoveryStatus, b: CellDiscoveryStatus) -> CellDiscoveryStatus {
    match (a, b) {
        (CellDiscoveryStatus::Undiscovered, o) => o,
        (o, CellDiscoveryStatus::Undiscovered) => o,
        (CellDiscoveryStatus::Discovered, CellDiscoveryStatus::Discovered) => CellDiscoveryStatus::Discovered,
        _ => CellDiscoveryStatus::Visited,
    }
}

/// The most information two cell states have in common.
pub open spec fn cell_intersect_spec(a: CellDiscoveryStatus, b: CellDiscoveryStatus) -> CellDiscoveryStatus {
    match (a, b) {
        (CellDiscoveryStatus::Undiscovered, _) => CellDiscoveryStatus::Undiscovered,
        (_, CellDiscoveryStatus::Undiscovered) => CellDiscoveryStatus::Undiscovered,
        (CellDiscoveryStatus::Discovered, _) => CellDiscoveryStatus::Discovered,
        (_, CellDiscoveryStatus::Discovered) => CellDiscoveryStatus::Discovered,
        _ => CellDiscoveryStatus::Visited,
    }
}

/// The logical conclusion of two wall states, or `None` if they contradict.
pub open spec fn wall_union_spec(a: WallDiscoveryStatus, b: WallDiscoveryStatus) -> Option<WallDiscoveryStatus> {
    match (a, b) {
        (WallDiscoveryStatus::Undiscovered, o) => Some(o),
        (o, WallDiscoveryStatus::Undiscovered) => Some(o),
        (WallDiscoveryStatus::Exists(false), WallDiscoveryStatus::Visited) => Some(WallDiscoveryStatus::Visited),
        (WallDiscoveryStatus::Visited, WallDiscoveryStatus::Exists(false)) => Some(WallDiscoveryStatus::Visited),
        (WallDiscoveryStatus::Exists(x), WallDiscoveryStatus::Exists(y)) => if x == y {
            Some(WallDiscoveryStatus::Exists(x))
        } else {
            None
        },
        (WallDiscoveryStatus::Visited, WallDiscoveryStatus::Visited) => Some(WallDiscoveryStatus::Visited),
        _ => None,
    }
}

/// The most information two wall states have in common.
pub open spec fn wall_intersect_spec(a: WallDiscoveryStatus, b: WallDiscoveryStatus) -> WallDiscoveryStatus {
    match (a, b) {
        (WallDiscoveryStatus::Undiscovered, _) => WallDiscoveryStatus::Undiscovered,
        (_, WallDiscoveryStatus::Undiscovered) => WallDiscoveryStatus::Undiscovered,
        (WallDiscoveryStatus::Exists(true), WallDiscoveryStatus::Visited) => WallDiscoveryStatus::Undiscovered,
        (WallDiscoveryStatus::Visited, WallDiscoveryStatus::Exists(true)) => WallDiscoveryStatus::Undiscovered,
        (WallDiscoveryStatus::Exists(false), WallDiscoveryStatus::Visited) => WallDiscoveryStatus::Exists(false),
        (WallDiscoveryStatus::Visited, WallDiscoveryStatus::Exists(false)) => WallDiscoveryStatus::Exists(false),
        (WallDiscoveryStatus::Exists(x), WallDiscoveryStatus::Exists(y)) => if x == y {
            WallDiscoveryStatus::Exists(x)
        } else {
            WallDiscoveryStatus::Undiscovered
        },
        _ => WallDiscoveryStatus::Visited,
    }
}

/// The logical conclusion of `self` and `other`, if they are not contradictory.
pub trait Union where Self: Sized {
    fn union(&self, other: &Self) -> Option<Self>;
}

/// The largest description `self` and `other` have in common.
pub trait Intersect where Self: Sized {
    fn intersect(&self, other: &Self) -> Self;
}

impl Union for CellDiscoveryStatus {
    fn union(&self, other: &Self) -> (r: Option<Self>)
        ensures
            r == Some(cell_union_spec(*self, *other)),
    {
        Some(
            match (self, other) {
                (CellDiscoveryStatus::Undiscovered, o) => *o,
                (o, CellDiscoveryStatus::Undiscovered) => *o,
                (CellDiscoveryStatus::Discovered, CellDiscoveryStatus::Visited) => CellDiscoveryStatus::Visited,
                (CellDiscoveryStatus::Visited, CellDiscoveryStatus::Discovered) => CellDiscoveryStatus::Visited,
                (CellDiscoveryStatus::Discovered, CellDiscoveryStatus::Discovered) => CellDiscoveryStatus::Discovered,
                (CellDiscoveryStatus::Visited, CellDiscoveryStatus::Visited) => CellDiscoveryStatus::Visited,
            },
        )
    }
}

impl Intersect for CellDiscoveryStatus {
    fn intersect(&self, other: &Self) -> (r: Self)
        ensures
            r == cell_intersect_spec(*self, *other),
    {
        match (self, other) {
            (CellDiscoveryStatus::Undiscovered, _) => CellDiscoveryStatus::Undiscovered,
            (_, CellDiscoveryStatus::Undiscovered) => CellDiscoveryStatus::Undiscovered,
            (CellDiscoveryStatus::Discovered, _) => CellDiscoveryStatus::Discovered,
            (_, CellDiscoveryStatus::Discovered) => CellDiscoveryStatus::Discovered,
            (CellDiscoveryStatus::Visited, CellDiscoveryStatus::Visited) => CellDiscoveryStatus::Visited,
        }
    }
}

impl Union for WallDiscoveryStatus {
    fn union(&self, other: &Self) -> (r: Option<Self>)
        ensures
            r == wall_union_spec(*self, *other),
    {
        match (self, other) {
            (WallDiscoveryStatus::Undiscovered, o) => Some(*o),
            (o, WallDiscoveryStatus::Undiscovered) => Some(*o),
            (WallDiscoveryStatus::Exists(false), WallDiscoveryStatus::Visited) => Some(WallDiscoveryStatus::Visited),
            (WallDiscoveryStatus::Visited, WallDiscoveryStatus::Exists(false)) => Some(WallDiscoveryStatus::Visited),
            (WallDiscoveryStatus::Exists(false), WallDiscoveryStatus::Exists(false)) => Some(
                WallDiscoveryStatus::Exists(false),
            ),
            (WallDiscoveryStatus::Exists(true), WallDiscoveryStatus::Exists(true)) => Some(
                WallDiscoveryStatus::Exists(true),
            ),
            (WallDiscoveryStatus::Visited, WallDiscoveryStatus::Visited) => Some(WallDiscoveryStatus::Visited),
            (_, _) => None,
        }
    }
}

impl Intersect for WallDiscoveryStatus {
    fn intersect(&self, other: &Self) -> (r: Self)
        ensures
            r == wall_intersect_spec(*self, *other),
    {
        match (self, other) {
            (WallDiscoveryStatus::Undiscovered, _) => WallDiscoveryStatus::Undiscovered,
            (_, WallDiscoveryStatus::Undiscovered) => WallDiscoveryStatus::Undiscovered,
            (WallDiscoveryStatus::Exists(true), WallDiscoveryStatus::Visited) => WallDiscoveryStatus::Undiscovered,
            (WallDiscoveryStatus::Visited, WallDiscoveryStatus::Exists(true)) => WallDiscoveryStatus::Undiscovered,
            (WallDiscoveryStatus::Exists(false), WallDiscoveryStatus::Visited) => WallDiscoveryStatus::Exists(false),
            (WallDiscoveryStatus::Visited, WallDiscoveryStatus::Exists(false)) => WallDiscoveryStatus::Exists(false),
            (WallDiscoveryStatus::Exists(true), WallDiscoveryStatus::Exists(false)) => WallDiscoveryStatus::Undiscovered,
            (WallDiscoveryStatus::Exists(false), WallDiscoveryStatus::Exists(true)) => WallDiscoveryStatus::Undiscovered,
            (WallDiscoveryStatus::Exists(true), WallDiscoveryStatus::Exists(true)) => WallDiscoveryStatus::Exists(true),
            (WallDiscoveryStatus::Exists(false), WallDiscoveryStatus::Exists(false)) => WallDiscoveryStatus::Exists(
                false,
            ),
            (WallDiscoveryStatus::Visited, WallDiscoveryStatus::Visited) => WallDiscoveryStatus::Visited,
        }
    }
}

} // verus!
