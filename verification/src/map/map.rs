use vstd::prelude::*;

use crate::comm::website::DiscoveryMessage;
use crate::map::check::{wall_potentially_eq_spec, PotentiallyEq};
use crate::map::map_set_op::{
    cell_intersect_spec, cell_union_spec, wall_intersect_spec, wall_union_spec, Intersect, Union,
};
use crate::map::measurement::{measurement_depth, measurement_hits_wall, Measurement, MeasurementValue};
use crate::map::upgrade::{cell_upgrade_spec, wall_upgrade_spec, IsUpgradeable};
use crate::transform::direction::{dir_dx, dir_dy, Direction, DirectionNormalizedVector};
use crate::transform::position::Position;

verus! {

/// What is known about a cell.
#[derive(Copy, Clone, PartialEq, Debug, Eq, Hash, Structural)]
pub enum CellDiscoveryStatus {
    /// No information about the cell.
    Undiscovered,
    /// A sensor reached into the cell, but the mouse was not inside it.
    Discovered,
    /// The mouse was inside the cell.
    Visited,
}

/// What is known about the wall between two neighbouring cells.
#[derive(Copy, Clone, PartialEq, Debug, Eq, Hash, Structural)]
pub enum WallDiscoveryStatus {
    Undiscovered,
    Exists(bool),
    /// Like `Exists(false)`, but the mouse actually drove through it.
    Visited,
}

impl Default for CellDiscoveryStatus {
    fn default() -> (r: Self)
        ensures
            r == CellDiscoveryStatus::Undiscovered,
    {
        CellDiscoveryStatus::Undiscovered
    }
}

impl Default for WallDiscoveryStatus {
    fn default() -> (r: Self)
        ensures
            r == WallDiscoveryStatus::Undiscovered,
    {
        WallDiscoveryStatus::Undiscovered
    }
}

/// A wall whose known state changed.
#[derive(Copy, Clone, PartialEq, Debug, Eq, Hash, Structural)]
pub struct WallDiscovery {
    pub new_status: WallDiscoveryStatus,
    pub from_cell: Position,
    pub in_direction: Direction,
}

/// A cell whose known state changed.
#[derive(Copy, Clone, PartialEq, Debug, Eq, Hash, Structural)]
pub struct CellDiscovery {
    pub new_status: CellDiscoveryStatus,
    pub at_cell: Position,
}

/// Why a measurement could not be applied to a map.
#[derive(Clone, Debug)]
pub enum MapInconsistencyError {
    /// The measurement starts, or claims free space, outside the map.
    OutsideBounds { x: i64, y: i64 },
    /// The measurement contradicts what is known about the walls at these positions.
    Conflicting(Measurement, Vec<Position>),
}

/// The known state of an `N`×`N` maze. Cell `[x][y]` owns the walls on its
/// positive-x side (`.0`) and positive-y side (`.1`); the walls on the negative sides
/// belong to the neighbouring cells, and the outer border on the negative sides is not
/// stored at all.
#[derive(Copy, Clone, PartialEq, Debug, Eq)]
pub struct MazeMap<const N: usize> {
    cell_discovery_status: [[CellDiscoveryStatus; N]; N],
    wall_discovery_status: [[(WallDiscoveryStatus, WallDiscoveryStatus); N]; N],
}

impl<const N: usize> Default for MazeMap<N> {
    /// The fresh map, as `new` makes it.
    fn default() -> (m: Self)
        ensures
            m.is_fresh(),
            m == MazeMap::<N>::fresh_spec(),
    {
        MazeMap::<N>::new()
    }
}

/// Wrapping a map signifies that it does not describe a full state but what is known:
/// every status in it may turn out to be an upgrade.
#[derive(Copy, Clone, PartialEq, Debug, Eq)]
pub struct PartialMap<const N: usize>(pub MazeMap<N>);

/// Whether `(x, y)` is a cell of an `n`×`n` map.
pub open spec fn in_map(n: int, x: int, y: int) -> bool {
    0 <= x < n && 0 <= y < n
}

/// The wall status a fresh map has: the outer walls on the positive sides exist,
/// everything else is unknown.
pub open spec fn initial_wall_px(n: int, x: int) -> WallDiscoveryStatus {
    if x == n - 1 {
        WallDiscoveryStatus::Exists(true)
    } else {
        WallDiscoveryStatus::Undiscovered
    }
}

/// Something is known about the cell: it was seen or visited.
pub open spec fn cell_discovered(c: CellDiscoveryStatus) -> bool {
    c != CellDiscoveryStatus::Undiscovered
}

impl CellDiscoveryStatus {
    /// Whether something is known about the cell (see `cell_discovered`).
    pub fn is_discovered(&self) -> (r: bool)
        ensures
            r == cell_discovered(*self),
    {
        !matches!(self, CellDiscoveryStatus::Undiscovered)
    }
}

impl<const N: usize> MazeMap<N> {
    /// The status of cell `(x, y)` (`Undiscovered` outside the map).
    pub closed spec fn cell_at(&self, x: int, y: int) -> CellDiscoveryStatus {
        if in_map(N as int, x, y) {
            self.cell_discovery_status@[x]@[y]
        } else {
            CellDiscoveryStatus::Undiscovered
        }
    }

    /// The status of the wall on the positive-x side of cell `(x, y)`.
    pub closed spec fn wall_px_at(&self, x: int, y: int) -> WallDiscoveryStatus {
        if in_map(N as int, x, y) {
            self.wall_discovery_status@[x]@[y].0
        } else {
            WallDiscoveryStatus::Undiscovered
        }
    }

    /// The status of the wall on the positive-y side of cell `(x, y)`.
    pub closed spec fn wall_py_at(&self, x: int, y: int) -> WallDiscoveryStatus {
        if in_map(N as int, x, y) {
            self.wall_discovery_status@[x]@[y].1
        } else {
            WallDiscoveryStatus::Undiscovered
        }
    }

    /// The wall of cell `position` in `in_direction`; `None` outside the map and for the
    /// outer border on the negative sides.
    pub open spec fn spec_wall(&self, position: Position, in_direction: Direction) -> Option<WallDiscoveryStatus> {
        let x = position.x as int;
        let y = position.y as int;
        if !in_map(N as int, x, y) {
            None
        } else {
            match in_direction {
                Direction::PosX => Some(self.wall_px_at(x, y)),
                Direction::PosY => Some(self.wall_py_at(x, y)),
                Direction::NegX => if x > 0 {
                    Some(self.wall_px_at(x - 1, y))
                } else {
                    None
                },
                Direction::NegY => if y > 0 {
                    Some(self.wall_py_at(x, y - 1))
                } else {
                    None
                },
            }
        }
    }

    /// The status of cell `position`; `None` outside the map.
    pub open spec fn spec_cell(&self, position: Position) -> Option<CellDiscoveryStatus> {
        if in_map(N as int, position.x as int, position.y as int) {
            Some(self.cell_at(position.x as int, position.y as int))
        } else {
            None
        }
    }

    /// Every cell and stored wall of `self` equals that of `other`.
    pub open spec fn same_contents(&self, other: &MazeMap<N>) -> bool {
        forall|x: int, y: int|
            #![trigger self.cell_at(x, y)]
            #![trigger self.wall_px_at(x, y)]
            #![trigger self.wall_py_at(x, y)]
            in_map(N as int, x, y) ==> {
                &&& self.cell_at(x, y) == other.cell_at(x, y)
                &&& self.wall_px_at(x, y) == other.wall_px_at(x, y)
                &&& self.wall_py_at(x, y) == other.wall_py_at(x, y)
            }
    }

    /// Nothing is discovered, except that the outer walls on the positive sides exist.
    pub open spec fn is_fresh(&self) -> bool {
        forall|x: int, y: int|
            in_map(N as int, x, y) ==> {
                &&& #[trigger] self.cell_at(x, y) == CellDiscoveryStatus::Undiscovered
                &&& self.wall_px_at(x, y) == initial_wall_px(N as int, x)
                &&& self.wall_py_at(x, y) == initial_wall_px(N as int, y)
            }
    }

    /// `self` is `base` with the wall of `p` in direction `d` set to `w` and nothing else changed.
    pub open spec fn is_wall_update(&self, base: &MazeMap<N>, p: Position, d: Direction, w: WallDiscoveryStatus) -> bool {
        &&& self.spec_wall(p, d) == Some(w)
        &&& forall|x: int, y: int|
            #![trigger self.cell_at(x, y)]
            #![trigger self.wall_px_at(x, y)]
            #![trigger self.wall_py_at(x, y)]
            in_map(N as int, x, y) ==> {
                &&& self.cell_at(x, y) == base.cell_at(x, y)
                &&& self.wall_px_at(x, y) == if wall_px_target(p, d, x, y) {
                    w
                } else {
                    base.wall_px_at(x, y)
                }
                &&& self.wall_py_at(x, y) == if wall_py_target(p, d, x, y) {
                    w
                } else {
                    base.wall_py_at(x, y)
                }
            }
    }

    /// `self` with the stored positive-x wall of `(x, y)` set to `w`.
    closed spec fn set_px(&self, x: int, y: int, w: WallDiscoveryStatus) -> MazeMap<N> {
        let row = self.wall_discovery_status@[x];
        MazeMap {
            cell_discovery_status: self.cell_discovery_status,
            wall_discovery_status: vstd::array::spec_array_update(
                self.wall_discovery_status,
                x,
                vstd::array::spec_array_update(row, y, (w, row@[y].1)),
            ),
        }
    }

    /// `self` with the stored positive-y wall of `(x, y)` set to `w`.
    closed spec fn set_py(&self, x: int, y: int, w: WallDiscoveryStatus) -> MazeMap<N> {
        let row = self.wall_discovery_status@[x];
        MazeMap {
            cell_discovery_status: self.cell_discovery_status,
            wall_discovery_status: vstd::array::spec_array_update(
                self.wall_discovery_status,
                x,
                vstd::array::spec_array_update(row, y, (row@[y].0, w)),
            ),
        }
    }

    /// `self` with the wall of cell `p` in direction `d` set to `w` (meaningful where that
    /// wall is stored, see `spec_wall`).
    pub closed spec fn with_wall(&self, p: Position, d: Direction, w: WallDiscoveryStatus) -> MazeMap<N> {
        let x = p.x as int;
        let y = p.y as int;
        match d {
            Direction::PosX => self.set_px(x, y, w),
            Direction::PosY => self.set_py(x, y, w),
            Direction::NegX => self.set_px(x - 1, y, w),
            Direction::NegY => self.set_py(x, y - 1, w),
        }
    }

    /// `self` with cell `p` set to `c` (meaningful inside the map).
    pub closed spec fn with_cell(&self, p: Position, c: CellDiscoveryStatus) -> MazeMap<N> {
        let row = self.cell_discovery_status@[p.x as int];
        MazeMap {
            cell_discovery_status: vstd::array::spec_array_update(
                self.cell_discovery_status,
                p.x as int,
                vstd::array::spec_array_update(row, p.y as int, c),
            ),
            wall_discovery_status: self.wall_discovery_status,
        }
    }

    /// `self` is `base` with cell `p` set to `c` and nothing else changed.
    pub open spec fn is_cell_update(&self, base: &MazeMap<N>, p: Position, c: CellDiscoveryStatus) -> bool {
        &&& in_map(N as int, p.x as int, p.y as int)
        &&& forall|x: int, y: int|
            #![trigger self.cell_at(x, y)]
            #![trigger self.wall_px_at(x, y)]
            #![trigger self.wall_py_at(x, y)]
            in_map(N as int, x, y) ==> {
                &&& self.cell_at(x, y) == if x == p.x && y == p.y {
                    c
                } else {
                    base.cell_at(x, y)
                }
                &&& self.wall_px_at(x, y) == base.wall_px_at(x, y)
                &&& self.wall_py_at(x, y) == base.wall_py_at(x, y)
            }
    }

    /// A map that is `base` with one cell set is `base.with_cell(..)`.
    pub proof fn lemma_cell_update_is_with_cell(a: MazeMap<N>, base: MazeMap<N>, p: Position, c: CellDiscoveryStatus)
        requires
            a.is_cell_update(&base, p, c),
        ensures
            a == base.with_cell(p, c),
    {
        let b = base.with_cell(p, c);
        assert forall|x: int, y: int| #![trigger a.cell_at(x, y)] in_map(N as int, x, y) implies {
            &&& a.cell_at(x, y) == b.cell_at(x, y)
            &&& a.wall_px_at(x, y) == b.wall_px_at(x, y)
            &&& a.wall_py_at(x, y) == b.wall_py_at(x, y)
        } by {
            assert(a.wall_px_at(x, y) == b.wall_px_at(x, y));
            assert(a.wall_py_at(x, y) == b.wall_py_at(x, y));
        }
        Self::lemma_same_contents_eq(a, b);
    }

    /// The fresh map (see `is_fresh`).
    pub open spec fn fresh_spec() -> MazeMap<N> {
        choose|m: MazeMap<N>| m.is_fresh()
    }

    /// A fresh map is `fresh_spec()`.
    pub proof fn lemma_fresh_unique(m: MazeMap<N>)
        requires
            m.is_fresh(),
        ensures
            m == Self::fresh_spec(),
    {
        let f = Self::fresh_spec();
        assert(f.is_fresh());
        assert forall|x: int, y: int| #![trigger m.cell_at(x, y)] in_map(N as int, x, y) implies {
            &&& m.cell_at(x, y) == f.cell_at(x, y)
            &&& m.wall_px_at(x, y) == f.wall_px_at(x, y)
            &&& m.wall_py_at(x, y) == f.wall_py_at(x, y)
        } by {
            assert(f.cell_at(x, y) == CellDiscoveryStatus::Undiscovered);
        }
        Self::lemma_same_contents_eq(m, f);
    }

    /// Two maps with the same cells and stored walls are equal.
    pub proof fn lemma_same_contents_eq(a: MazeMap<N>, b: MazeMap<N>)
        requires
            a.same_contents(&b),
        ensures
            a == b,
    {
        assert forall|i: int| 0 <= i < N implies a.cell_discovery_status[i] == b.cell_discovery_status[i] by {
            assert forall|j: int| 0 <= j < N implies a.cell_discovery_status[i][j] == b.cell_discovery_status[i][j] by {
                assert(a.cell_at(i, j) == b.cell_at(i, j));
            }
            assert(a.cell_discovery_status[i] =~= b.cell_discovery_status[i]);
        }
        assert(a.cell_discovery_status =~= b.cell_discovery_status);
        assert forall|i: int| 0 <= i < N implies a.wall_discovery_status[i] == b.wall_discovery_status[i] by {
            assert forall|j: int| 0 <= j < N implies a.wall_discovery_status[i][j] == b.wall_discovery_status[i][j] by {
                assert(a.wall_px_at(i, j) == b.wall_px_at(i, j));
                assert(a.wall_py_at(i, j) == b.wall_py_at(i, j));
            }
            assert(a.wall_discovery_status[i] =~= b.wall_discovery_status[i]);
        }
        assert(a.wall_discovery_status =~= b.wall_discovery_status);
    }

    /// A map that is `base` with one stored wall set is `base.with_wall(..)`.
    pub proof fn lemma_wall_update_is_with_wall(a: MazeMap<N>, base: MazeMap<N>, p: Position, d: Direction, w: WallDiscoveryStatus)
        requires
            a.is_wall_update(&base, p, d, w),
        ensures
            a == base.with_wall(p, d, w),
    {
        let b = base.with_wall(p, d, w);
        assert forall|x: int, y: int| #![trigger a.cell_at(x, y)] in_map(N as int, x, y) implies {
            &&& a.cell_at(x, y) == b.cell_at(x, y)
            &&& a.wall_px_at(x, y) == b.wall_px_at(x, y)
            &&& a.wall_py_at(x, y) == b.wall_py_at(x, y)
        } by {
            assert(a.wall_px_at(x, y) == b.wall_px_at(x, y));
            assert(a.wall_py_at(x, y) == b.wall_py_at(x, y));
        }
        Self::lemma_same_contents_eq(a, b);
    }

    /// A fresh map: nothing discovered, except that the outer walls on the positive
    /// sides exist.
    pub fn new() -> (m: Self)
        ensures
            m.is_fresh(),
            m == Self::fresh_spec(),
    {
        let cells = [[CellDiscoveryStatus::Undiscovered; N]; N];
        let mut walls = [[(WallDiscoveryStatus::Undiscovered, WallDiscoveryStatus::Undiscovered); N]; N];
        // The outer walls on the positive sides are the map bounds.
        let mut x: usize = 0;
        while x < N
            invariant
                x <= N,
                forall|i: int, j: int|
                    0 <= i < N && 0 <= j < N ==> {
                        &&& (#[trigger] walls@[i]@[j]).0 == WallDiscoveryStatus::Undiscovered
                        &&& walls@[i]@[j].1 == if j == N - 1 && i < x {
                            WallDiscoveryStatus::Exists(true)
                        } else {
                            WallDiscoveryStatus::Undiscovered
                        }
                    },
            decreases N - x,
        {
            walls[x][N - 1].1 = WallDiscoveryStatus::Exists(true);
            x = x + 1;
        }
        let mut y: usize = 0;
        while y < N
            invariant
                y <= N,
                forall|i: int, j: int|
                    0 <= i < N && 0 <= j < N ==> {
                        &&& (#[trigger] walls@[i]@[j]).0 == if i == N - 1 && j < y {
                            WallDiscoveryStatus::Exists(true)
                        } else {
                            WallDiscoveryStatus::Undiscovered
                        }
                        &&& walls@[i]@[j].1 == initial_wall_px(N as int, j)
                    },
            decreases N - y,
        {
            walls[N - 1][y].0 = WallDiscoveryStatus::Exists(true);
            y = y + 1;
        }
        let m = MazeMap { cell_discovery_status: cells, wall_discovery_status: walls };
        proof {
            Self::lemma_fresh_unique(m);
        }
        m
    }

    /// Whether no cell and no stored wall is `Undiscovered` any more.
    pub fn is_fully_discovered(&self) -> (r: bool)
        ensures
            r == forall|x: int, y: int|
                #![trigger self.cell_at(x, y)]
                in_map(N as int, x, y) ==> {
                    &&& self.cell_at(x, y) != CellDiscoveryStatus::Undiscovered
                    &&& self.wall_px_at(x, y) != WallDiscoveryStatus::Undiscovered
                    &&& self.wall_py_at(x, y) != WallDiscoveryStatus::Undiscovered
                },
    {
        let mut x: usize = 0;
        while x < N
            invariant
                x <= N,
                forall|i: int, j: int|
                    #![trigger self.cell_at(i, j)]
                    0 <= i < x && 0 <= j < N ==> {
                        &&& self.cell_at(i, j) != CellDiscoveryStatus::Undiscovered
                        &&& self.wall_px_at(i, j) != WallDiscoveryStatus::Undiscovered
                        &&& self.wall_py_at(i, j) != WallDiscoveryStatus::Undiscovered
                    },
            decreases N - x,
        {
            let mut y: usize = 0;
            while y < N
                invariant
                    x < N,
                    y <= N,
                    forall|i: int, j: int|
                        #![trigger self.cell_at(i, j)]
                        ((0 <= i < x && 0 <= j < N) || (i == x && 0 <= j < y)) ==> {
                            &&& self.cell_at(i, j) != CellDiscoveryStatus::Undiscovered
                            &&& self.wall_px_at(i, j) != WallDiscoveryStatus::Undiscovered
                            &&& self.wall_py_at(i, j) != WallDiscoveryStatus::Undiscovered
                        },
                decreases N - y,
            {
                let c = self.cell_discovery_status[x][y];
                let w = self.wall_discovery_status[x][y];
                if c == CellDiscoveryStatus::Undiscovered || w.0 == WallDiscoveryStatus::Undiscovered
                    || w.1 == WallDiscoveryStatus::Undiscovered {
                    assert(self.cell_at(x as int, y as int) == c);
                    return false;
                }
                y = y + 1;
            }
            x = x + 1;
        }
        true
    }

    /// The wall of cell `position` in `in_direction`; `None` outside the map and for the
    /// outer border on the negative sides (which is not stored).
    pub fn wall(&self, position: &Position, in_direction: &Direction) -> (r: Option<&WallDiscoveryStatus>)
        ensures
            match r {
                Some(w) => self.spec_wall(*position, *in_direction) == Some(*w),
                None => self.spec_wall(*position, *in_direction) is None,
            },
    {
        let x = position.x as usize;
        let y = position.y as usize;
        if x >= N || y >= N {
            return None;
        }
        match in_direction {
            Direction::PosX => Some(&self.wall_discovery_status[x][y].0),
            Direction::PosY => Some(&self.wall_discovery_status[x][y].1),
            Direction::NegX => {
                if position.x > 0 {
                    Some(&self.wall_discovery_status[x - 1][y].0)
                } else {
                    None
                }
            },
            Direction::NegY => {
                if position.y > 0 {
                    Some(&self.wall_discovery_status[x][y - 1].1)
                } else {
                    None
                }
            },
        }
    }

    /// The status of cell `position`; `None` outside the map.
    pub fn cell(&self, position: &Position) -> (r: Option<&CellDiscoveryStatus>)
        ensures
            match r {
                Some(c) => self.spec_cell(*position) == Some(*c),
                None => self.spec_cell(*position) is None,
            },
    {
        let x = position.x as usize;
        let y = position.y as usize;
        if x >= N || y >= N {
            return None;
        }
        Some(&self.cell_discovery_status[x][y])
    }

    /// Mutable access to cell `position`; `None` outside the map. Writing through the
    /// reference changes that cell and nothing else.
    pub fn cell_mut(&mut self, position: &Position) -> (r: Option<&mut CellDiscoveryStatus>)
        ensures
            match r {
                Some(c) => {
                    &&& old(self).spec_cell(*position) == Some(*c)
                    &&& forall|x: int, y: int|
                        #![trigger final(self).cell_at(x, y)]
                        #![trigger final(self).wall_px_at(x, y)]
                        #![trigger final(self).wall_py_at(x, y)]
                        in_map(N as int, x, y) ==> {
                            &&& final(self).cell_at(x, y) == if x == position.x && y == position.y {
                                *final(c)
                            } else {
                                old(self).cell_at(x, y)
                            }
                            &&& final(self).wall_px_at(x, y) == old(self).wall_px_at(x, y)
                            &&& final(self).wall_py_at(x, y) == old(self).wall_py_at(x, y)
                        }
                },
                None => old(self).spec_cell(*position) is None && *final(self) == *old(self),
            },
    {
        let x = position.x as usize;
        let y = position.y as usize;
        if x >= N || y >= N {
            return None;
        }
        Some(&mut self.cell_discovery_status[x][y])
    }
}


/// Whether the stored positive-x wall of `(x, y)` is the wall of `p` in direction `d`.
pub open spec fn wall_px_target(p: Position, d: Direction, x: int, y: int) -> bool {
    match d {
        Direction::PosX => x == p.x && y == p.y,
        Direction::NegX => x + 1 == p.x && y == p.y,
        _ => false,
    }
}

/// Whether the stored positive-y wall of `(x, y)` is the wall of `p` in direction `d`.
pub open spec fn wall_py_target(p: Position, d: Direction, x: int, y: int) -> bool {
    match d {
        Direction::PosY => x == p.x && y == p.y,
        Direction::NegY => x == p.x && y + 1 == p.y,
        _ => false,
    }
}

/// x-coordinate of sample `d` of a measurement's ray (sample 0 is the measuring cell).
pub open spec fn sample_x(m: Measurement, d: int) -> int {
    match m.direction {
        Direction::PosX => m.position.x + d,
        Direction::NegX => m.position.x - d,
        _ => m.position.x as int,
    }
}

/// y-coordinate of sample `d` of a measurement's ray.
pub open spec fn sample_y(m: Measurement, d: int) -> int {
    match m.direction {
        Direction::PosY => m.position.y + d,
        Direction::NegY => m.position.y - d,
        _ => m.position.y as int,
    }
}

/// Sample `d` of a measurement's ray as a position.
pub open spec fn sample_pos(m: Measurement, d: int) -> Position {
    Position { x: sample_x(m, d) as u32, y: sample_y(m, d) as u32 }
}

/// How many samples of the ray, starting at the measuring cell, lie inside an
/// `n`×`n` map (for a measuring cell inside the map).
pub open spec fn samples_in_map(n: int, m: Measurement) -> int {
    match m.direction {
        Direction::PosX => n - m.position.x,
        Direction::NegX => m.position.x + 1,
        Direction::PosY => n - m.position.y,
        Direction::NegY => m.position.y + 1,
    }
}

/// What the measurement says about the wall ahead of sample `d`: open before the last
/// sample; at the last sample a wall for `Value`, nothing for `OutsideRange`.
pub open spec fn determined_at(m: Measurement, d: int) -> WallDiscoveryStatus {
    if d == measurement_depth(m.value) {
        if measurement_hits_wall(m.value) {
            WallDiscoveryStatus::Exists(true)
        } else {
            WallDiscoveryStatus::Undiscovered
        }
    } else {
        WallDiscoveryStatus::Exists(false)
    }
}

/// The index of the ray sample that lies at cell `(x, y)`, or -1 if none does.
pub open spec fn sample_index(m: Measurement, x: int, y: int) -> int {
    let x0 = m.position.x as int;
    let y0 = m.position.y as int;
    match m.direction {
        Direction::PosX => if y == y0 && x >= x0 { x - x0 } else { -1 },
        Direction::NegX => if y == y0 && x <= x0 { x0 - x } else { -1 },
        Direction::PosY => if x == x0 && y >= y0 { y - y0 } else { -1 },
        Direction::NegY => if x == x0 && y <= y0 { y0 - y } else { -1 },
    }
}

/// The index of the ray sample whose wall ahead is the positive-x wall of `(x, y)`, or -1.
pub open spec fn px_sample_index(m: Measurement, x: int, y: int) -> int {
    match m.direction {
        Direction::PosX => sample_index(m, x, y),
        Direction::NegX => sample_index(m, x + 1, y),
        _ => -1,
    }
}

/// The index of the ray sample whose wall ahead is the positive-y wall of `(x, y)`, or -1.
pub open spec fn py_sample_index(m: Measurement, x: int, y: int) -> int {
    match m.direction {
        Direction::PosY => sample_index(m, x, y),
        Direction::NegY => sample_index(m, x, y + 1),
        _ => -1,
    }
}

impl<const N: usize> MazeMap<N> {
    /// Mutable access to the wall of cell `position` in `in_direction`; `None` outside
    /// the map and for the outer border on the negative sides. Writing through the
    /// reference changes that wall and nothing else.
    pub fn wall_mut(&mut self, position: &Position, in_direction: &Direction) -> (r: Option<&mut WallDiscoveryStatus>)
        ensures
            match r {
                Some(w) => {
                    &&& old(self).spec_wall(*position, *in_direction) == Some(*w)
                    &&& final(self).spec_wall(*position, *in_direction) == Some(*final(w))
                    &&& forall|x: int, y: int|
                        #![trigger final(self).cell_at(x, y)]
                        #![trigger final(self).wall_px_at(x, y)]
                        #![trigger final(self).wall_py_at(x, y)]
                        in_map(N as int, x, y) ==> {
                            &&& final(self).cell_at(x, y) == old(self).cell_at(x, y)
                            &&& final(self).wall_px_at(x, y) == if wall_px_target(*position, *in_direction, x, y) {
                                *final(w)
                            } else {
                                old(self).wall_px_at(x, y)
                            }
                            &&& final(self).wall_py_at(x, y) == if wall_py_target(*position, *in_direction, x, y) {
                                *final(w)
                            } else {
                                old(self).wall_py_at(x, y)
                            }
                        }
                },
                None => old(self).spec_wall(*position, *in_direction) is None && *final(self) == *old(self),
            },
    {
        let x = position.x as usize;
        let y = position.y as usize;
        if x >= N || y >= N {
            return None;
        }
        match in_direction {
            Direction::PosX => Some(&mut self.wall_discovery_status[x][y].0),
            Direction::PosY => Some(&mut self.wall_discovery_status[x][y].1),
            Direction::NegX => {
                if position.x > 0 {
                    Some(&mut self.wall_discovery_status[x - 1][y].0)
                } else {
                    None
                }
            },
            Direction::NegY => {
                if position.y > 0 {
                    Some(&mut self.wall_discovery_status[x][y - 1].1)
                } else {
                    None
                }
            },
        }
    }

    /// Whether the wall of `position` in `direction` is the outer border on a negative side.
    pub fn is_pos_map_boundary(&self, position: &Position, direction: &Direction) -> (r: bool)
        ensures
            r == ((position.x == 0 && *direction == Direction::NegX) || (position.y == 0
                && *direction == Direction::NegY)),
    {
        (position.x == 0 && *direction == Direction::NegX) || (position.y == 0 && *direction
            == Direction::NegY)
    }

    /// Updates the map with a sensor reading: the measuring cell becomes `Visited`, every
    /// sampled cell further along the ray becomes `Discovered` if it was unknown, and the
    /// wall ahead of every sample takes the measured state (open before the last sample; a
    /// wall at the last sample for `Value`, nothing for `OutsideRange`) where that refines
    /// what is known. A known wall that the reading agrees with without refining it (a wall
    /// the mouse drove through, measured open again, or a known wall where the ray ends out
    /// of range) is kept as it is. Samples whose known wall contradicts the reading are
    /// reported as `Conflicting`; a reading that starts outside the map or claims free space beyond its
    /// border is reported as `OutsideBounds` (at the first sample outside the map), after the
    /// samples inside the map have been applied.
    #[verifier::rlimit(60)]
    pub fn apply_measurement(&mut self, measurement: &Measurement) -> (r: Result<DiscoveryMessage, MapInconsistencyError>)
        requires
            N <= u32::MAX,
        ensures
            final(self).upgrade_of(old(self)),
            final(self).apply_outcome(old(self), *measurement, r),
    {
        let ghost pre = *self;
        let direction = measurement.direction;
        let value = measurement.value;
        let from_pos = measurement.position;

        let mut wall_discoveries: Vec<WallDiscovery> = Vec::new();
        let mut cell_discoveries: Vec<CellDiscovery> = Vec::new();
        let mut inconsistencies: Vec<Position> = Vec::new();

        match self.cell_mut(&from_pos) {
            None => {
                proof {
                    MazeMap::lemma_upgrade_reflexive(*self);
                }
                return Err(
                    MapInconsistencyError::OutsideBounds { x: from_pos.x as i64, y: from_pos.y as i64 },
                );
            },
            Some(cell_status) => {
                if *cell_status != CellDiscoveryStatus::Visited {
                    cell_discoveries.push(
                        CellDiscovery { new_status: CellDiscoveryStatus::Visited, at_cell: from_pos },
                    );
                }
                *cell_status = CellDiscoveryStatus::Visited;
            },
        }
        let ghost visit = cell_discoveries@;

        let (depth, hit_wall_at_end) = match value {
            MeasurementValue::OutsideRange { at_least_cells } => (at_least_cells, false),
            MeasurementValue::Value { cells } => (cells, true),
        };

        let fx: i64 = from_pos.x as i64;
        let fy: i64 = from_pos.y as i64;
        let mut d: u64 = 0;
        while d <= depth as u64
            invariant
                N <= u32::MAX,
                pre == *old(self),
                direction == measurement.direction,
                from_pos == measurement.position,
                depth == measurement_depth(measurement.value),
                hit_wall_at_end == measurement_hits_wall(measurement.value),
                fx == from_pos.x,
                fy == from_pos.y,
                in_map(N as int, from_pos.x as int, from_pos.y as int),
                d <= depth + 1,
                d <= samples_in_map(N as int, *measurement),
                self.ray_applied(&pre, *measurement, d as int),
                cell_discoveries@ == visit + pre.cell_discoveries_upto(*measurement, d as int),
                wall_discoveries@ == pre.wall_discoveries_upto(*measurement, d as int),
                inconsistencies@ == pre.conflicts_upto(*measurement, d as int),
            decreases depth + 1 - d,
        {
            let determined = if d == depth as u64 {
                if hit_wall_at_end {
                    WallDiscoveryStatus::Exists(true)
                } else {
                    WallDiscoveryStatus::Undiscovered
                }
            } else {
                WallDiscoveryStatus::Exists(false)
            };
            let sx: i64 = match direction {
                Direction::PosX => fx + d as i64,
                Direction::NegX => fx - d as i64,
                _ => fx,
            };
            let sy: i64 = match direction {
                Direction::PosY => fy + d as i64,
                Direction::NegY => fy - d as i64,
                _ => fy,
            };
            assert(sx == sample_x(*measurement, d as int) && sy == sample_y(*measurement, d as int));
            if sx < 0 || sy < 0 || sx as u64 >= N as u64 || sy as u64 >= N as u64 {
                proof {
                    Self::lemma_sample_in_map(*measurement, d as int);
                    assert(d == samples_in_map(N as int, *measurement));
                    assert(pre == *old(self));
                    MazeMap::lemma_ray_applied_upgrades(pre, *self, *measurement, d as int);
                }
                return Err(MapInconsistencyError::OutsideBounds { x: sx, y: sy });
            }
            let pos = Position { x: sx as u32, y: sy as u32 };
            assert(pos == sample_pos(*measurement, d as int));

            proof {
                Self::lemma_sample_in_map(*measurement, d as int);
            }
            let ghost old_cd = cell_discoveries@;
            let ghost old_wd = wall_discoveries@;
            let ghost old_inc = inconsistencies@;
            self.apply_sample(
                Ghost(pre),
                measurement,
                d,
                pos,
                determined,
                &mut cell_discoveries,
                &mut wall_discoveries,
                &mut inconsistencies,
            );
            proof {
                assert(pre.cell_discoveries_upto(*measurement, d + 1) =~= pre.cell_discoveries_upto(
                    *measurement,
                    d as int,
                ) + pre.cell_discovery_step(*measurement, d as int));
                assert(pre.wall_discoveries_upto(*measurement, d + 1) =~= pre.wall_discoveries_upto(
                    *measurement,
                    d as int,
                ) + pre.wall_discovery_step(*measurement, d as int));
                assert(pre.conflicts_upto(*measurement, d + 1) =~= pre.conflicts_upto(
                    *measurement,
                    d as int,
                ) + pre.conflict_step(*measurement, d as int));
                assert(cell_discoveries@ =~= visit + pre.cell_discoveries_upto(*measurement, d + 1));
            }
            d = d + 1;
        }

        proof {
            MazeMap::lemma_ray_applied_upgrades(pre, *self, *measurement, d as int);
        }
        if inconsistencies.len() == 0 {
            Ok(DiscoveryMessage { cell_discoveries, wall_discoveries })
        } else {
            Err(MapInconsistencyError::Conflicting(*measurement, inconsistencies))
        }
    }

    proof fn lemma_sample_in_map(m: Measurement, d: int)
        requires
            in_map(N as int, m.position.x as int, m.position.y as int),
            0 <= d,
        ensures
            in_map(N as int, sample_x(m, d), sample_y(m, d)) <==> d < samples_in_map(N as int, m),
            sample_index(m, sample_x(m, d), sample_y(m, d)) == d,
    {
    }

    #[verifier::rlimit(40)]
    proof fn lemma_ray_step(
        pre: MazeMap<N>,
        before: MazeMap<N>,
        mid: MazeMap<N>,
        after: MazeMap<N>,
        m: Measurement,
        d: int,
    )
        requires
            N <= u32::MAX,
            before.ray_applied(&pre, m, d),
            in_map(N as int, m.position.x as int, m.position.y as int),
            0 <= d < samples_in_map(N as int, m),
            forall|x: int, y: int|
                #![trigger mid.cell_at(x, y)]
                in_map(N as int, x, y) ==> mid.cell_at(x, y) == if x == sample_x(m, d) && y
                    == sample_y(m, d) {
                    if before.cell_at(x, y) == CellDiscoveryStatus::Undiscovered || before.cell_at(x, y)
                        == CellDiscoveryStatus::Discovered {
                        CellDiscoveryStatus::Discovered
                    } else {
                        before.cell_at(x, y)
                    }
                } else {
                    before.cell_at(x, y)
                },
            forall|x: int, y: int|
                #![trigger mid.wall_px_at(x, y)]
                #![trigger mid.wall_py_at(x, y)]
                in_map(N as int, x, y) ==> mid.wall_px_at(x, y) == before.wall_px_at(x, y)
                    && mid.wall_py_at(x, y) == before.wall_py_at(x, y),
            mid.spec_wall(sample_pos(m, d), m.direction) is None ==> after == mid,
            forall|w: WallDiscoveryStatus|
                mid.spec_wall(sample_pos(m, d), m.direction) == Some(w) ==> {
                    let nw = if wall_upgrade_spec(determined_at(m, d), w) {
                        determined_at(m, d)
                    } else {
                        w
                    };
                    forall|x: int, y: int|
                        #![trigger after.cell_at(x, y)]
                        #![trigger after.wall_px_at(x, y)]
                        #![trigger after.wall_py_at(x, y)]
                        in_map(N as int, x, y) ==> {
                            &&& after.cell_at(x, y) == mid.cell_at(x, y)
                            &&& after.wall_px_at(x, y) == if wall_px_target(sample_pos(m, d), m.direction, x, y) {
                                nw
                            } else {
                                mid.wall_px_at(x, y)
                            }
                            &&& after.wall_py_at(x, y) == if wall_py_target(sample_pos(m, d), m.direction, x, y) {
                                nw
                            } else {
                                mid.wall_py_at(x, y)
                            }
                        }
                },
        ensures
            after.ray_applied(&pre, m, d + 1),
    {
        Self::lemma_sample_in_map(m, d);
        let p = sample_pos(m, d);
        assert(p.x == sample_x(m, d) && p.y == sample_y(m, d));
        // the wall ahead of sample d has not been touched by the earlier samples
        match m.direction {
            Direction::PosX => {
                assert(before.wall_px_at(p.x as int, p.y as int) == pre.wall_px_at(p.x as int, p.y as int));
            },
            Direction::NegX => {
                if p.x > 0 {
                    assert(before.wall_px_at(p.x - 1, p.y as int) == pre.wall_px_at(p.x - 1, p.y as int));
                }
            },
            Direction::PosY => {
                assert(before.wall_py_at(p.x as int, p.y as int) == pre.wall_py_at(p.x as int, p.y as int));
            },
            Direction::NegY => {
                if p.y > 0 {
                    assert(before.wall_py_at(p.x as int, p.y - 1) == pre.wall_py_at(p.x as int, p.y - 1));
                }
            },
        }
        assert(mid.spec_wall(p, m.direction) == pre.spec_wall(p, m.direction));
        assert(before.cell_at(p.x as int, p.y as int) == pre.cell_at(p.x as int, p.y as int) || d == 0);
        assert(after.ray_cells_applied(&pre, m, d + 1)) by {
            assert forall|x: int, y: int| in_map(N as int, x, y) implies #[trigger] after.cell_at(x, y)
                == if x == m.position.x && y == m.position.y {
                CellDiscoveryStatus::Visited
            } else if 1 <= sample_index(m, x, y) < d + 1 && pre.cell_at(x, y)
                == CellDiscoveryStatus::Undiscovered {
                CellDiscoveryStatus::Discovered
            } else {
                pre.cell_at(x, y)
            } by {
                assert(mid.cell_at(x, y) == mid.cell_at(x, y));
                assert(before.cell_at(x, y) == before.cell_at(x, y));
            }
        }
        assert(after.ray_px_applied(&pre, m, d + 1)) by {
            assert forall|x: int, y: int| in_map(N as int, x, y) implies #[trigger] after.wall_px_at(x, y)
                == if 0 <= px_sample_index(m, x, y) < d + 1 && pre.sample_wall_written(
                m,
                px_sample_index(m, x, y),
            ) {
                determined_at(m, px_sample_index(m, x, y))
            } else {
                pre.wall_px_at(x, y)
            } by {
                assert(mid.wall_px_at(x, y) == mid.wall_px_at(x, y));
                assert(before.wall_px_at(x, y) == before.wall_px_at(x, y));
            }
        }
        assert(after.ray_py_applied(&pre, m, d + 1)) by {
            assert forall|x: int, y: int| in_map(N as int, x, y) implies #[trigger] after.wall_py_at(x, y)
                == if 0 <= py_sample_index(m, x, y) < d + 1 && pre.sample_wall_written(
                m,
                py_sample_index(m, x, y),
            ) {
                determined_at(m, py_sample_index(m, x, y))
            } else {
                pre.wall_py_at(x, y)
            } by {
                assert(mid.wall_py_at(x, y) == mid.wall_py_at(x, y));
                assert(before.wall_py_at(x, y) == before.wall_py_at(x, y));
            }
        }
    }

    fn apply_sample(
        &mut self,
        Ghost(pre): Ghost<MazeMap<N>>,
        measurement: &Measurement,
        d: u64,
        pos: Position,
        determined: WallDiscoveryStatus,
        cell_discoveries: &mut Vec<CellDiscovery>,
        wall_discoveries: &mut Vec<WallDiscovery>,
        inconsistencies: &mut Vec<Position>,
    )
        requires
            N <= u32::MAX,
            in_map(N as int, measurement.position.x as int, measurement.position.y as int),
            d <= measurement_depth(measurement.value),
            d < samples_in_map(N as int, *measurement),
            pos == sample_pos(*measurement, d as int),
            determined == determined_at(*measurement, d as int),
            old(self).ray_applied(&pre, *measurement, d as int),
        ensures
            final(self).ray_applied(&pre, *measurement, d + 1),
            final(cell_discoveries)@ == old(cell_discoveries)@ + pre.cell_discovery_step(*measurement, d as int),
            final(wall_discoveries)@ == old(wall_discoveries)@ + pre.wall_discovery_step(*measurement, d as int),
            final(inconsistencies)@ == old(inconsistencies)@ + pre.conflict_step(*measurement, d as int),
    {
        proof {
            Self::lemma_sample_in_map(*measurement, d as int);
        }
        let direction = measurement.direction;
        let ghost before = *self;
        assert(before.cell_at(pos.x as int, pos.y as int) == pre.cell_at(pos.x as int, pos.y as int) || d == 0);
        match self.cell_mut(&pos) {
            Some(c) => {
                if d > 0 && (*c == CellDiscoveryStatus::Undiscovered || *c == CellDiscoveryStatus::Discovered) {
                    *c = CellDiscoveryStatus::Discovered;
                    cell_discoveries.push(
                        CellDiscovery { new_status: CellDiscoveryStatus::Discovered, at_cell: pos },
                    );
                }
            },
            None => {},
        }
        let ghost mid = *self;
        assert(mid.spec_wall(pos, direction) == pre.spec_wall(pos, direction)) by {
            Self::lemma_untouched_wall(pre, before, *measurement, d as int);
        }
        match self.wall_mut(&pos, &direction) {
            None => {
                if !determined.potentially_eq(&WallDiscoveryStatus::Exists(true)) {
                    inconsistencies.push(pos);
                }
            },
            Some(w) => {
                if determined.could_be_upgrade_of(w) {
                    *w = determined;
                    wall_discoveries.push(
                        WallDiscovery { new_status: determined, from_cell: pos, in_direction: direction },
                    );
                } else if !determined.potentially_eq(w) {
                    inconsistencies.push(pos);
                }
            },
        }
        proof {
            Self::lemma_ray_step(pre, before, mid, *self, *measurement, d as int);
        }
    }

    proof fn lemma_untouched_wall(pre: MazeMap<N>, before: MazeMap<N>, m: Measurement, d: int)
        requires
            N <= u32::MAX,
            before.ray_applied(&pre, m, d),
            in_map(N as int, m.position.x as int, m.position.y as int),
            0 <= d < samples_in_map(N as int, m),
        ensures
            before.spec_wall(sample_pos(m, d), m.direction) == pre.spec_wall(sample_pos(m, d), m.direction),
    {
        Self::lemma_sample_in_map(m, d);
        let p = sample_pos(m, d);
        assert(p.x == sample_x(m, d) && p.y == sample_y(m, d));
        match m.direction {
            Direction::PosX => {
                assert(before.wall_px_at(p.x as int, p.y as int) == pre.wall_px_at(p.x as int, p.y as int));
            },
            Direction::NegX => {
                if p.x > 0 {
                    assert(before.wall_px_at(p.x - 1, p.y as int) == pre.wall_px_at(p.x - 1, p.y as int));
                }
            },
            Direction::PosY => {
                assert(before.wall_py_at(p.x as int, p.y as int) == pre.wall_py_at(p.x as int, p.y as int));
            },
            Direction::NegY => {
                if p.y > 0 {
                    assert(before.wall_py_at(p.x as int, p.y - 1) == pre.wall_py_at(p.x as int, p.y - 1));
                }
            },
        }
    }

    /// The wall ahead of ray sample `d`; the unstored outer border counts as an existing wall.
    pub open spec fn sample_wall(&self, m: Measurement, d: int) -> WallDiscoveryStatus {
        match self.spec_wall(sample_pos(m, d), m.direction) {
            Some(w) => w,
            None => WallDiscoveryStatus::Exists(true),
        }
    }

    /// Whether applying `m` writes the wall ahead of sample `d`: it is stored and the
    /// measured state refines it.
    pub open spec fn sample_wall_written(&self, m: Measurement, d: int) -> bool {
        &&& self.spec_wall(sample_pos(m, d), m.direction) is Some
        &&& wall_upgrade_spec(determined_at(m, d), self.sample_wall(m, d))
    }

    /// Whether the measured state of the wall ahead of sample `d` contradicts the known one.
    pub open spec fn sample_conflict(&self, m: Measurement, d: int) -> bool {
        !wall_potentially_eq_spec(determined_at(m, d), self.sample_wall(m, d))
    }

    /// The samples among the first `k` whose wall contradicts the measurement, in ray order.
    pub open spec fn conflicts_upto(&self, m: Measurement, k: int) -> Seq<Position>
        decreases k,
    {
        if k <= 0 {
            Seq::empty()
        } else if self.sample_conflict(m, k - 1) {
            self.conflicts_upto(m, k - 1).push(sample_pos(m, k - 1))
        } else {
            self.conflicts_upto(m, k - 1)
        }
    }

    /// The cells among the first `k` samples (after the measuring cell) that become
    /// `Discovered`, in ray order.
    pub open spec fn cell_discoveries_upto(&self, m: Measurement, k: int) -> Seq<CellDiscovery>
        decreases k,
    {
        if k <= 1 {
            Seq::empty()
        } else {
            let c = self.cell_at(sample_x(m, k - 1), sample_y(m, k - 1));
            if c == CellDiscoveryStatus::Undiscovered || c == CellDiscoveryStatus::Discovered {
                self.cell_discoveries_upto(m, k - 1).push(
                    CellDiscovery {
                        new_status: CellDiscoveryStatus::Discovered,
                        at_cell: sample_pos(m, k - 1),
                    },
                )
            } else {
                self.cell_discoveries_upto(m, k - 1)
            }
        }
    }

    /// The walls written by the first `k` samples, in ray order.
    pub open spec fn wall_discoveries_upto(&self, m: Measurement, k: int) -> Seq<WallDiscovery>
        decreases k,
    {
        if k <= 0 {
            Seq::empty()
        } else if self.sample_wall_written(m, k - 1) {
            self.wall_discoveries_upto(m, k - 1).push(
                WallDiscovery {
                    new_status: determined_at(m, k - 1),
                    from_cell: sample_pos(m, k - 1),
                    in_direction: m.direction,
                },
            )
        } else {
            self.wall_discoveries_upto(m, k - 1)
        }
    }

    /// The cell discovery made by sample `d` (none for the measuring cell itself).
    pub open spec fn cell_discovery_step(&self, m: Measurement, d: int) -> Seq<CellDiscovery> {
        let c = self.cell_at(sample_x(m, d), sample_y(m, d));
        if d >= 1 && (c == CellDiscoveryStatus::Undiscovered || c == CellDiscoveryStatus::Discovered) {
            seq![CellDiscovery { new_status: CellDiscoveryStatus::Discovered, at_cell: sample_pos(m, d) }]
        } else {
            Seq::empty()
        }
    }

    /// The wall discovery made by sample `d`.
    pub open spec fn wall_discovery_step(&self, m: Measurement, d: int) -> Seq<WallDiscovery> {
        if self.sample_wall_written(m, d) {
            seq![
                WallDiscovery {
                    new_status: determined_at(m, d),
                    from_cell: sample_pos(m, d),
                    in_direction: m.direction,
                },
            ]
        } else {
            Seq::empty()
        }
    }

    /// The conflicting position found at sample `d`.
    pub open spec fn conflict_step(&self, m: Measurement, d: int) -> Seq<Position> {
        if self.sample_conflict(m, d) {
            seq![sample_pos(m, d)]
        } else {
            Seq::empty()
        }
    }

    /// `self` is `old` after marking the measuring cell visited and applying the first
    /// `k` samples of `m`: each sampled cell after the first becomes `Discovered` if it was
    /// unknown, and each sampled wall takes the measured state if that refines it.
    pub open spec fn ray_applied(&self, old: &MazeMap<N>, m: Measurement, k: int) -> bool {
        &&& self.ray_cells_applied(old, m, k)
        &&& self.ray_px_applied(old, m, k)
        &&& self.ray_py_applied(old, m, k)
    }

    /// The cell part of `ray_applied`.
    pub open spec fn ray_cells_applied(&self, old: &MazeMap<N>, m: Measurement, k: int) -> bool {
        forall|x: int, y: int|
            #![trigger self.cell_at(x, y)]
            in_map(N as int, x, y) ==> self.cell_at(x, y) == if x == m.position.x && y == m.position.y {
                CellDiscoveryStatus::Visited
            } else if 1 <= sample_index(m, x, y) < k && old.cell_at(x, y)
                == CellDiscoveryStatus::Undiscovered {
                CellDiscoveryStatus::Discovered
            } else {
                old.cell_at(x, y)
            }
    }

    /// The positive-x wall part of `ray_applied`.
    pub open spec fn ray_px_applied(&self, old: &MazeMap<N>, m: Measurement, k: int) -> bool {
        forall|x: int, y: int|
            #![trigger self.wall_px_at(x, y)]
            in_map(N as int, x, y) ==> self.wall_px_at(x, y) == if 0 <= px_sample_index(m, x, y) < k
                && old.sample_wall_written(m, px_sample_index(m, x, y)) {
                determined_at(m, px_sample_index(m, x, y))
            } else {
                old.wall_px_at(x, y)
            }
    }

    /// The positive-y wall part of `ray_applied`.
    pub open spec fn ray_py_applied(&self, old: &MazeMap<N>, m: Measurement, k: int) -> bool {
        forall|x: int, y: int|
            #![trigger self.wall_py_at(x, y)]
            in_map(N as int, x, y) ==> self.wall_py_at(x, y) == if 0 <= py_sample_index(m, x, y) < k
                && old.sample_wall_written(m, py_sample_index(m, x, y)) {
                determined_at(m, py_sample_index(m, x, y))
            } else {
                old.wall_py_at(x, y)
            }
    }
}


impl<const N: usize> MazeMap<N> {
    /// What applying measurement `m` to `base` gives, with `self` the map afterwards and `r`
    /// the result (see `apply_measurement`).
    pub open spec fn apply_outcome(&self, base: &MazeMap<N>, m: Measurement, r: Result<DiscoveryMessage, MapInconsistencyError>) -> bool {
        &&& (!in_map(N as int, m.position.x as int, m.position.y as int) ==> {
            &&& r matches Err(MapInconsistencyError::OutsideBounds { x, y }) && x
                == m.position.x && y == m.position.y
            &&& *self == *base
        })
        &&& (in_map(N as int, m.position.x as int, m.position.y as int) ==> {
            let depth = measurement_depth(m.value) as int;
            let samples = samples_in_map(N as int, m);
            let k = if samples <= depth {
                samples
            } else {
                depth + 1
            };
            let visit: Seq<CellDiscovery> = if base.cell_at(
                m.position.x as int,
                m.position.y as int,
            ) != CellDiscoveryStatus::Visited {
                seq![
                    CellDiscovery {
                        new_status: CellDiscoveryStatus::Visited,
                        at_cell: m.position,
                    },
                ]
            } else {
                Seq::empty()
            };
            &&& self.ray_applied(base, m, k)
            &&& samples <= depth ==> (r matches Err(MapInconsistencyError::OutsideBounds { x, y })
                && x == sample_x(m, k) && y == sample_y(m, k))
            &&& (depth < samples && base.conflicts_upto(m, k).len() > 0) ==> (r matches Err(
                MapInconsistencyError::Conflicting(mm, v),
            ) && mm == m && v@ == base.conflicts_upto(m, k))
            &&& (depth < samples && base.conflicts_upto(m, k).len() == 0) ==> (r matches Ok(dm)
                && dm.cell_discoveries@ == visit + base.cell_discoveries_upto(m, k)
                && dm.wall_discoveries@ == base.wall_discoveries_upto(m, k))
        })
    }

    /// Every cell and stored wall of `self` refines the one of `base`.
    pub open spec fn upgrade_of(&self, base: &MazeMap<N>) -> bool {
        forall|x: int, y: int|
            #![trigger self.cell_at(x, y)]
            #![trigger self.wall_px_at(x, y)]
            #![trigger self.wall_py_at(x, y)]
            in_map(N as int, x, y) ==> {
                &&& wall_upgrade_spec(self.wall_px_at(x, y), base.wall_px_at(x, y))
                &&& wall_upgrade_spec(self.wall_py_at(x, y), base.wall_py_at(x, y))
                &&& cell_upgrade_spec(self.cell_at(x, y), base.cell_at(x, y))
            }
    }

    /// The walls of `self` and `other` could describe the same maze.
    pub open spec fn walls_potentially_eq(&self, other: &MazeMap<N>) -> bool {
        forall|x: int, y: int|
            #![trigger self.wall_px_at(x, y)]
            #![trigger self.wall_py_at(x, y)]
            in_map(N as int, x, y) ==> {
                &&& wall_potentially_eq_spec(self.wall_px_at(x, y), other.wall_px_at(x, y))
                &&& wall_potentially_eq_spec(self.wall_py_at(x, y), other.wall_py_at(x, y))
            }
    }

    /// No stored wall of `a` contradicts the one of `b`.
    pub open spec fn union_defined(a: &MazeMap<N>, b: &MazeMap<N>) -> bool {
        forall|x: int, y: int|
            #![trigger a.wall_px_at(x, y)]
            #![trigger a.wall_py_at(x, y)]
            in_map(N as int, x, y) ==> {
                &&& wall_union_spec(a.wall_px_at(x, y), b.wall_px_at(x, y)) is Some
                &&& wall_union_spec(a.wall_py_at(x, y), b.wall_py_at(x, y)) is Some
            }
    }

    /// Every entry of `self` is the union of the entries of `a` and `b`.
    pub open spec fn is_union_of(&self, a: &MazeMap<N>, b: &MazeMap<N>) -> bool {
        forall|x: int, y: int|
            #![trigger self.cell_at(x, y)]
            #![trigger self.wall_px_at(x, y)]
            #![trigger self.wall_py_at(x, y)]
            in_map(N as int, x, y) ==> {
                &&& Some(self.wall_px_at(x, y)) == wall_union_spec(a.wall_px_at(x, y), b.wall_px_at(x, y))
                &&& Some(self.wall_py_at(x, y)) == wall_union_spec(a.wall_py_at(x, y), b.wall_py_at(x, y))
                &&& self.cell_at(x, y) == cell_union_spec(a.cell_at(x, y), b.cell_at(x, y))
            }
    }

    /// Every entry of `self` is the intersection of the entries of `a` and `b`.
    pub open spec fn is_intersection_of(&self, a: &MazeMap<N>, b: &MazeMap<N>) -> bool {
        forall|x: int, y: int|
            #![trigger self.cell_at(x, y)]
            #![trigger self.wall_px_at(x, y)]
            #![trigger self.wall_py_at(x, y)]
            in_map(N as int, x, y) ==> {
                &&& self.wall_px_at(x, y) == wall_intersect_spec(a.wall_px_at(x, y), b.wall_px_at(x, y))
                &&& self.wall_py_at(x, y) == wall_intersect_spec(a.wall_py_at(x, y), b.wall_py_at(x, y))
                &&& self.cell_at(x, y) == cell_intersect_spec(a.cell_at(x, y), b.cell_at(x, y))
            }
    }
}


impl<const N: usize> MazeMap<N> {
    /// Overwrites cell `(x, y)` and both of its stored walls.
    fn set_entry(&mut self, x: usize, y: usize, cell: CellDiscoveryStatus, walls: (WallDiscoveryStatus, WallDiscoveryStatus))
        requires
            x < N,
            y < N,
        ensures
            forall|i: int, j: int|
                #![trigger final(self).cell_at(i, j)]
                #![trigger final(self).wall_px_at(i, j)]
                #![trigger final(self).wall_py_at(i, j)]
                in_map(N as int, i, j) ==> if i == x && j == y {
                    &&& final(self).cell_at(i, j) == cell
                    &&& final(self).wall_px_at(i, j) == walls.0
                    &&& final(self).wall_py_at(i, j) == walls.1
                } else {
                    &&& final(self).cell_at(i, j) == old(self).cell_at(i, j)
                    &&& final(self).wall_px_at(i, j) == old(self).wall_px_at(i, j)
                    &&& final(self).wall_py_at(i, j) == old(self).wall_py_at(i, j)
                },
    {
        let pos_cell = self.cell_mut_at(x, y);
        *pos_cell = cell;
        let pos_walls = self.walls_mut_at(x, y);
        *pos_walls = walls;
    }

    fn cell_mut_at(&mut self, x: usize, y: usize) -> (r: &mut CellDiscoveryStatus)
        requires
            x < N,
            y < N,
        ensures
            *r == old(self).cell_at(x as int, y as int),
            forall|i: int, j: int|
                #![trigger final(self).cell_at(i, j)]
                #![trigger final(self).wall_px_at(i, j)]
                #![trigger final(self).wall_py_at(i, j)]
                in_map(N as int, i, j) ==> {
                    &&& final(self).cell_at(i, j) == if i == x && j == y {
                        *final(r)
                    } else {
                        old(self).cell_at(i, j)
                    }
                    &&& final(self).wall_px_at(i, j) == old(self).wall_px_at(i, j)
                    &&& final(self).wall_py_at(i, j) == old(self).wall_py_at(i, j)
                },
    {
        &mut self.cell_discovery_status[x][y]
    }

    fn walls_mut_at(&mut self, x: usize, y: usize) -> (r: &mut (WallDiscoveryStatus, WallDiscoveryStatus))
        requires
            x < N,
            y < N,
        ensures
            *r == (old(self).wall_px_at(x as int, y as int), old(self).wall_py_at(x as int, y as int)),
            forall|i: int, j: int|
                #![trigger final(self).cell_at(i, j)]
                #![trigger final(self).wall_px_at(i, j)]
                #![trigger final(self).wall_py_at(i, j)]
                in_map(N as int, i, j) ==> {
                    &&& final(self).cell_at(i, j) == old(self).cell_at(i, j)
                    &&& final(self).wall_px_at(i, j) == if i == x && j == y {
                        final(r).0
                    } else {
                        old(self).wall_px_at(i, j)
                    }
                    &&& final(self).wall_py_at(i, j) == if i == x && j == y {
                        final(r).1
                    } else {
                        old(self).wall_py_at(i, j)
                    }
                },
    {
        &mut self.wall_discovery_status[x][y]
    }
}


impl<const N: usize> MazeMap<N> {
    proof fn lemma_union_defined(u: MazeMap<N>, a: MazeMap<N>, b: MazeMap<N>)
        requires
            u.is_union_of(&a, &b),
        ensures
            MazeMap::union_defined(&a, &b),
    {
        assert forall|i: int, j: int| in_map(N as int, i, j) implies {
            &&& wall_union_spec(#[trigger] a.wall_px_at(i, j), b.wall_px_at(i, j)) is Some
            &&& wall_union_spec(a.wall_py_at(i, j), b.wall_py_at(i, j)) is Some
        } by {
            assert(Some(u.wall_px_at(i, j)) == wall_union_spec(a.wall_px_at(i, j), b.wall_px_at(i, j)));
            assert(Some(u.wall_py_at(i, j)) == wall_union_spec(a.wall_py_at(i, j), b.wall_py_at(i, j)));
        }
    }
}


impl<const N: usize> MazeMap<N> {
    /// Every map refines itself.
    pub proof fn lemma_upgrade_reflexive(a: MazeMap<N>)
        ensures
            a.upgrade_of(&a),
    {
        assert forall|x: int, y: int| in_map(N as int, x, y) implies {
            &&& wall_upgrade_spec(#[trigger] a.wall_px_at(x, y), a.wall_px_at(x, y))
            &&& wall_upgrade_spec(a.wall_py_at(x, y), a.wall_py_at(x, y))
            &&& cell_upgrade_spec(a.cell_at(x, y), a.cell_at(x, y))
        } by {}
    }

    /// Setting a stored wall changes that wall and nothing else.
    pub proof fn lemma_with_wall_is_update(base: MazeMap<N>, p: Position, d: Direction, w: WallDiscoveryStatus)
        requires
            base.spec_wall(p, d) is Some,
        ensures
            base.with_wall(p, d, w).is_wall_update(&base, p, d, w),
    {
        broadcast use vstd::array::axiom_spec_array_update;

        let a = base.with_wall(p, d, w);
        let (tx, ty) = match d {
            Direction::PosX => (p.x as int, p.y as int),
            Direction::PosY => (p.x as int, p.y as int),
            Direction::NegX => (p.x as int - 1, p.y as int),
            Direction::NegY => (p.x as int, p.y as int - 1),
        };
        assert(in_map(N as int, tx, ty));
        let row = base.wall_discovery_status@[tx];
        assert(a.wall_discovery_status@ == base.wall_discovery_status@.update(tx, a.wall_discovery_status@[tx]));
        assert forall|x: int, y: int|
            #![trigger a.cell_at(x, y)]
            #![trigger a.wall_px_at(x, y)]
            #![trigger a.wall_py_at(x, y)]
            in_map(N as int, x, y) implies {
            &&& a.cell_at(x, y) == base.cell_at(x, y)
            &&& a.wall_px_at(x, y) == if wall_px_target(p, d, x, y) {
                w
            } else {
                base.wall_px_at(x, y)
            }
            &&& a.wall_py_at(x, y) == if wall_py_target(p, d, x, y) {
                w
            } else {
                base.wall_py_at(x, y)
            }
        } by {
            if x == tx {
                assert(a.wall_discovery_status@[tx]@ == row@.update(
                    ty,
                    match d {
                        Direction::PosX | Direction::NegX => (w, row@[ty].1),
                        _ => (row@[ty].0, w),
                    },
                ));
            }
        }
    }

    /// A stored wall that was set reads back as the status it was set to, and every cell and
    /// every other wall reads as before.
    pub proof fn lemma_with_wall_reads(base: MazeMap<N>, p: Position, d: Direction, w: WallDiscoveryStatus)
        requires
            base.spec_wall(p, d) is Some,
        ensures
            base.with_wall(p, d, w).spec_wall(p, d) == Some(w),
            forall|q: Position| #[trigger] base.with_wall(p, d, w).spec_cell(q) == base.spec_cell(q),
    {
        Self::lemma_with_wall_is_update(base, p, d, w);
        let a = base.with_wall(p, d, w);
        assert forall|q: Position| #[trigger] a.spec_cell(q) == base.spec_cell(q) by {
            if in_map(N as int, q.x as int, q.y as int) {
                assert(a.cell_at(q.x as int, q.y as int) == base.cell_at(q.x as int, q.y as int));
            }
        }
    }

    /// Setting the wall of `p` in direction `d1` leaves the wall of `p` in every other
    /// direction as it was.
    pub proof fn lemma_with_wall_keeps_other(base: MazeMap<N>, p: Position, d1: Direction, d2: Direction, w: WallDiscoveryStatus)
        requires
            base.spec_wall(p, d1) is Some,
            d1 != d2,
        ensures
            base.with_wall(p, d1, w).spec_wall(p, d2) == base.spec_wall(p, d2),
    {
        Self::lemma_with_wall_is_update(base, p, d1, w);
        let a = base.with_wall(p, d1, w);
        let x = p.x as int;
        let y = p.y as int;
        match d2 {
            Direction::PosX => {
                assert(a.wall_px_at(x, y) == base.wall_px_at(x, y));
            },
            Direction::PosY => {
                assert(a.wall_py_at(x, y) == base.wall_py_at(x, y));
            },
            Direction::NegX => {
                if x > 0 {
                    assert(a.wall_px_at(x - 1, y) == base.wall_px_at(x - 1, y));
                }
            },
            Direction::NegY => {
                if y > 0 {
                    assert(a.wall_py_at(x, y - 1) == base.wall_py_at(x, y - 1));
                }
            },
        }
    }

    /// Setting a cell leaves every wall as it was.
    pub proof fn lemma_with_cell_keeps_walls(base: MazeMap<N>, p: Position, c: CellDiscoveryStatus, q: Position, d: Direction)
        requires
            in_map(N as int, p.x as int, p.y as int),
        ensures
            base.with_cell(p, c).spec_wall(q, d) == base.spec_wall(q, d),
    {
        Self::lemma_with_cell_is_update(base, p, c);
        let a = base.with_cell(p, c);
        let x = q.x as int;
        let y = q.y as int;
        if in_map(N as int, x, y) {
            assert(a.wall_px_at(x, y) == base.wall_px_at(x, y));
            assert(a.wall_py_at(x, y) == base.wall_py_at(x, y));
            if x > 0 {
                assert(a.wall_px_at(x - 1, y) == base.wall_px_at(x - 1, y));
            }
            if y > 0 {
                assert(a.wall_py_at(x, y - 1) == base.wall_py_at(x, y - 1));
            }
        }
    }

    /// Setting a cell of the map changes that cell and nothing else.
    pub proof fn lemma_with_cell_is_update(base: MazeMap<N>, p: Position, c: CellDiscoveryStatus)
        requires
            in_map(N as int, p.x as int, p.y as int),
        ensures
            base.with_cell(p, c).is_cell_update(&base, p, c),
    {
        broadcast use vstd::array::axiom_spec_array_update;

        let a = base.with_cell(p, c);
        let row = base.cell_discovery_status@[p.x as int];
        assert forall|x: int, y: int|
            #![trigger a.cell_at(x, y)]
            #![trigger a.wall_px_at(x, y)]
            #![trigger a.wall_py_at(x, y)]
            in_map(N as int, x, y) implies {
            &&& a.cell_at(x, y) == if x == p.x && y == p.y {
                c
            } else {
                base.cell_at(x, y)
            }
            &&& a.wall_px_at(x, y) == base.wall_px_at(x, y)
            &&& a.wall_py_at(x, y) == base.wall_py_at(x, y)
        } by {
            if x == p.x {
                assert(a.cell_discovery_status@[x]@ == row@.update(p.y as int, c));
            }
        }
    }

    /// Setting the same stored wall of a map and of a map it refines, to a refining and a
    /// refined status, keeps the one refining the other.
    pub proof fn lemma_with_wall_keeps_upgrade(
        a: MazeMap<N>,
        b: MazeMap<N>,
        p: Position,
        d: Direction,
        wa: WallDiscoveryStatus,
        wb: WallDiscoveryStatus,
    )
        requires
            a.upgrade_of(&b),
            b.spec_wall(p, d) is Some,
            wall_upgrade_spec(wa, wb),
        ensures
            a.with_wall(p, d, wa).upgrade_of(&b.with_wall(p, d, wb)),
    {
        Self::lemma_with_wall_is_update(a, p, d, wa);
        Self::lemma_with_wall_is_update(b, p, d, wb);
        let a2 = a.with_wall(p, d, wa);
        let b2 = b.with_wall(p, d, wb);
        assert forall|x: int, y: int| in_map(N as int, x, y) implies {
            &&& wall_upgrade_spec(#[trigger] a2.wall_px_at(x, y), b2.wall_px_at(x, y))
            &&& wall_upgrade_spec(a2.wall_py_at(x, y), b2.wall_py_at(x, y))
            &&& cell_upgrade_spec(a2.cell_at(x, y), b2.cell_at(x, y))
        } by {
            assert(a.wall_px_at(x, y) == a.wall_px_at(x, y));
            assert(b2.wall_px_at(x, y) == b2.wall_px_at(x, y));
            assert(a2.cell_at(x, y) == a.cell_at(x, y));
            assert(b2.cell_at(x, y) == b.cell_at(x, y));
            assert(a2.wall_py_at(x, y) == a2.wall_py_at(x, y));
            assert(b2.wall_py_at(x, y) == b2.wall_py_at(x, y));
        }
    }

    /// Setting the same cell of a map and of a map it refines to the same status keeps the one
    /// refining the other.
    pub proof fn lemma_with_cell_keeps_upgrade(a: MazeMap<N>, b: MazeMap<N>, p: Position, c: CellDiscoveryStatus)
        requires
            a.upgrade_of(&b),
            in_map(N as int, p.x as int, p.y as int),
        ensures
            a.with_cell(p, c).upgrade_of(&b.with_cell(p, c)),
    {
        Self::lemma_with_cell_is_update(a, p, c);
        Self::lemma_with_cell_is_update(b, p, c);
        let a2 = a.with_cell(p, c);
        let b2 = b.with_cell(p, c);
        assert forall|x: int, y: int| in_map(N as int, x, y) implies {
            &&& wall_upgrade_spec(#[trigger] a2.wall_px_at(x, y), b2.wall_px_at(x, y))
            &&& wall_upgrade_spec(a2.wall_py_at(x, y), b2.wall_py_at(x, y))
            &&& cell_upgrade_spec(a2.cell_at(x, y), b2.cell_at(x, y))
        } by {
            assert(a.wall_px_at(x, y) == a2.wall_px_at(x, y));
            assert(b.wall_px_at(x, y) == b2.wall_px_at(x, y));
            assert(a2.cell_at(x, y) == a2.cell_at(x, y));
            assert(b2.cell_at(x, y) == b2.cell_at(x, y));
            assert(a.wall_py_at(x, y) == a2.wall_py_at(x, y));
            assert(b.wall_py_at(x, y) == b2.wall_py_at(x, y));
        }
    }

    /// A stored wall of a map refines the same wall of a map it refines.
    pub proof fn lemma_upgrade_spec_wall(a: MazeMap<N>, b: MazeMap<N>, p: Position, d: Direction)
        requires
            a.upgrade_of(&b),
        ensures
            a.spec_wall(p, d) is Some <==> b.spec_wall(p, d) is Some,
            b.spec_wall(p, d) matches Some(wb) ==> wall_upgrade_spec(a.spec_wall(p, d).unwrap(), wb),
    {
        let x = p.x as int;
        let y = p.y as int;
        if in_map(N as int, x, y) {
            assert(a.wall_px_at(x, y) == a.wall_px_at(x, y));
            assert(a.wall_py_at(x, y) == a.wall_py_at(x, y));
            if x > 0 {
                assert(a.wall_px_at(x - 1, y) == a.wall_px_at(x - 1, y));
            }
            if y > 0 {
                assert(a.wall_py_at(x, y - 1) == a.wall_py_at(x, y - 1));
            }
        }
    }

    proof fn lemma_ray_applied_upgrades(pre: MazeMap<N>, post: MazeMap<N>, m: Measurement, k: int)
        requires
            N <= u32::MAX,
            in_map(N as int, m.position.x as int, m.position.y as int),
            0 <= k <= samples_in_map(N as int, m),
            post.ray_applied(&pre, m, k),
        ensures
            post.upgrade_of(&pre),
    {
        assert forall|x: int, y: int| in_map(N as int, x, y) implies {
            &&& wall_upgrade_spec(#[trigger] post.wall_px_at(x, y), pre.wall_px_at(x, y))
            &&& wall_upgrade_spec(post.wall_py_at(x, y), pre.wall_py_at(x, y))
            &&& cell_upgrade_spec(post.cell_at(x, y), pre.cell_at(x, y))
        } by {
            assert(post.cell_at(x, y) == post.cell_at(x, y));
            assert(post.wall_py_at(x, y) == post.wall_py_at(x, y));
            let dpx = px_sample_index(m, x, y);
            let dpy = py_sample_index(m, x, y);
            if 0 <= dpx < k {
                MazeMap::<N>::lemma_sample_in_map(m, dpx);
                assert(pre.spec_wall(sample_pos(m, dpx), m.direction) == Some(pre.wall_px_at(x, y)));
            }
            if 0 <= dpy < k {
                MazeMap::<N>::lemma_sample_in_map(m, dpy);
                assert(pre.spec_wall(sample_pos(m, dpy), m.direction) == Some(pre.wall_py_at(x, y)));
            }
        }
    }
}

impl<const N: usize> IsUpgradeable for MazeMap<N> {
    /// Whether every cell and stored wall of `self` refines the one of `base`.
    fn could_be_upgrade_of(&self, base: &Self) -> (r: bool)
        ensures
            r == self.upgrade_of(base),
    {
        let mut x: usize = 0;
        while x < N
            invariant
                x <= N,
                forall|i: int, j: int|
                    #![trigger self.cell_at(i, j)]
                    0 <= i < x && 0 <= j < N ==> {
                        &&& wall_upgrade_spec(self.wall_px_at(i, j), base.wall_px_at(i, j))
                        &&& wall_upgrade_spec(self.wall_py_at(i, j), base.wall_py_at(i, j))
                        &&& cell_upgrade_spec(self.cell_at(i, j), base.cell_at(i, j))
                    },
            decreases N - x,
        {
            let mut y: usize = 0;
            while y < N
                invariant
                    x < N,
                    y <= N,
                    forall|i: int, j: int|
                        #![trigger self.cell_at(i, j)]
                        ((0 <= i < x && 0 <= j < N) || (i == x && 0 <= j < y)) ==> {
                            &&& wall_upgrade_spec(self.wall_px_at(i, j), base.wall_px_at(i, j))
                            &&& wall_upgrade_spec(self.wall_py_at(i, j), base.wall_py_at(i, j))
                            &&& cell_upgrade_spec(self.cell_at(i, j), base.cell_at(i, j))
                        },
                decreases N - y,
            {
                let (sr, sd) = self.wall_discovery_status[x][y];
                let (br, bd) = base.wall_discovery_status[x][y];
                let cs = self.cell_discovery_status[x][y];
                let cb = base.cell_discovery_status[x][y];
                if !sr.could_be_upgrade_of(&br) || !sd.could_be_upgrade_of(&bd) || !cs.could_be_upgrade_of(&cb) {
                    assert(self.cell_at(x as int, y as int) == cs);
                    return false;
                }
                y = y + 1;
            }
            x = x + 1;
        }
        assert forall|i: int, j: int| in_map(N as int, i, j) implies {
            &&& wall_upgrade_spec(#[trigger] self.wall_px_at(i, j), base.wall_px_at(i, j))
            &&& wall_upgrade_spec(self.wall_py_at(i, j), base.wall_py_at(i, j))
            &&& cell_upgrade_spec(self.cell_at(i, j), base.cell_at(i, j))
        } by {
            assert(self.cell_at(i, j) == self.cell_at(i, j));
        }
        true
    }
}

impl<const N: usize> PotentiallyEq for MazeMap<N> {
    type Other = PartialMap<N>;

    /// Whether the walls of `self` could be those of the partially known map `other`
    /// (cells are not compared).
    fn potentially_eq(&self, other: &PartialMap<N>) -> (r: bool)
        ensures
            r == self.walls_potentially_eq(&other.0),
    {
        let inner_map = other.0;
        let mut x: usize = 0;
        while x < N
            invariant
                x <= N,
                inner_map == other.0,
                forall|i: int, j: int|
                    #![trigger self.wall_px_at(i, j)]
                    0 <= i < x && 0 <= j < N ==> {
                        &&& wall_potentially_eq_spec(self.wall_px_at(i, j), inner_map.wall_px_at(i, j))
                        &&& wall_potentially_eq_spec(self.wall_py_at(i, j), inner_map.wall_py_at(i, j))
                    },
            decreases N - x,
        {
            let mut y: usize = 0;
            while y < N
                invariant
                    x < N,
                    y <= N,
                    inner_map == other.0,
                    forall|i: int, j: int|
                        #![trigger self.wall_px_at(i, j)]
                        ((0 <= i < x && 0 <= j < N) || (i == x && 0 <= j < y)) ==> {
                            &&& wall_potentially_eq_spec(self.wall_px_at(i, j), inner_map.wall_px_at(i, j))
                            &&& wall_potentially_eq_spec(self.wall_py_at(i, j), inner_map.wall_py_at(i, j))
                        },
                decreases N - y,
            {
                let (a1, a2) = self.wall_discovery_status[x][y];
                let (b1, b2) = inner_map.wall_discovery_status[x][y];
                if !(a1.potentially_eq(&b1) && a2.potentially_eq(&b2)) {
                    assert(self.wall_px_at(x as int, y as int) == a1);
                    return false;
                }
                y = y + 1;
            }
            x = x + 1;
        }
        assert forall|i: int, j: int| in_map(N as int, i, j) implies {
            &&& wall_potentially_eq_spec(#[trigger] self.wall_px_at(i, j), other.0.wall_px_at(i, j))
            &&& wall_potentially_eq_spec(self.wall_py_at(i, j), other.0.wall_py_at(i, j))
        } by {
            assert(self.wall_px_at(i, j) == self.wall_px_at(i, j));
        }
        true
    }
}

impl<const N: usize> Union for MazeMap<N> {
    /// The map combining the knowledge of both maps; `None` if a stored wall of one
    /// contradicts the other.
    fn union(&self, other: &Self) -> (r: Option<Self>)
        ensures
            r is Some <==> MazeMap::union_defined(self, other),
            r matches Some(u) ==> u.is_union_of(self, other),
    {
        let mut union_map = MazeMap::<N>::new();
        let mut x: usize = 0;
        while x < N
            invariant
                x <= N,
                forall|i: int, j: int|
                    #![trigger union_map.cell_at(i, j)]
                    0 <= i < x && 0 <= j < N ==> {
                        &&& Some(union_map.wall_px_at(i, j)) == wall_union_spec(self.wall_px_at(i, j), other.wall_px_at(i, j))
                        &&& Some(union_map.wall_py_at(i, j)) == wall_union_spec(self.wall_py_at(i, j), other.wall_py_at(i, j))
                        &&& union_map.cell_at(i, j) == cell_union_spec(self.cell_at(i, j), other.cell_at(i, j))
                    },
            decreases N - x,
        {
            let mut y: usize = 0;
            while y < N
                invariant
                    x < N,
                    y <= N,
                    forall|i: int, j: int|
                        #![trigger union_map.cell_at(i, j)]
                        ((0 <= i < x && 0 <= j < N) || (i == x && 0 <= j < y)) ==> {
                            &&& Some(union_map.wall_px_at(i, j)) == wall_union_spec(self.wall_px_at(i, j), other.wall_px_at(i, j))
                            &&& Some(union_map.wall_py_at(i, j)) == wall_union_spec(self.wall_py_at(i, j), other.wall_py_at(i, j))
                            &&& union_map.cell_at(i, j) == cell_union_spec(self.cell_at(i, j), other.cell_at(i, j))
                        },
                decreases N - y,
            {
                let (sr, sd) = self.wall_discovery_status[x][y];
                let (or, od) = other.wall_discovery_status[x][y];
                let ghost xi = x as int;
                let ghost yi = y as int;
                assert(self.wall_px_at(xi, yi) == sr && other.wall_px_at(xi, yi) == or);
                assert(self.wall_py_at(xi, yi) == sd && other.wall_py_at(xi, yi) == od);
                let r0 = match sr.union(&or) {
                    Some(w) => w,
                    None => {
                        assert(!MazeMap::union_defined(self, other));
                        return None;
                    },
                };
                let r1 = match sd.union(&od) {
                    Some(w) => w,
                    None => {
                        assert(!MazeMap::union_defined(self, other));
                        return None;
                    },
                };
                let c = match self.cell_discovery_status[x][y].union(&other.cell_discovery_status[x][y]) {
                    Some(c) => c,
                    None => {
                        return None;
                    },
                };
                assert(self.cell_at(xi, yi) == self.cell_discovery_status[x as int][y as int]);
                union_map.set_entry(x, y, c, (r0, r1));
                y = y + 1;
            }
            x = x + 1;
        }
        assert(union_map.is_union_of(self, other)) by {
            assert forall|i: int, j: int| in_map(N as int, i, j) implies {
                &&& Some(#[trigger] union_map.wall_px_at(i, j)) == wall_union_spec(self.wall_px_at(i, j), other.wall_px_at(i, j))
                &&& Some(union_map.wall_py_at(i, j)) == wall_union_spec(self.wall_py_at(i, j), other.wall_py_at(i, j))
                &&& union_map.cell_at(i, j) == cell_union_spec(self.cell_at(i, j), other.cell_at(i, j))
            } by {
                assert(union_map.cell_at(i, j) == union_map.cell_at(i, j));
            }
        }
        proof {
            MazeMap::lemma_union_defined(union_map, *self, *other);
        }
        Some(union_map)
    }
}

impl<const N: usize> Intersect for MazeMap<N> {
    /// The map of what both maps know alike.
    fn intersect(&self, other: &Self) -> (r: Self)
        ensures
            r.is_intersection_of(self, other),
    {
        let mut intersect_map = MazeMap::<N>::new();
        let mut x: usize = 0;
        while x < N
            invariant
                x <= N,
                forall|i: int, j: int|
                    #![trigger intersect_map.cell_at(i, j)]
                    0 <= i < x && 0 <= j < N ==> {
                        &&& intersect_map.wall_px_at(i, j) == wall_intersect_spec(self.wall_px_at(i, j), other.wall_px_at(i, j))
                        &&& intersect_map.wall_py_at(i, j) == wall_intersect_spec(self.wall_py_at(i, j), other.wall_py_at(i, j))
                        &&& intersect_map.cell_at(i, j) == cell_intersect_spec(self.cell_at(i, j), other.cell_at(i, j))
                    },
            decreases N - x,
        {
            let mut y: usize = 0;
            while y < N
                invariant
                    x < N,
                    y <= N,
                    forall|i: int, j: int|
                        #![trigger intersect_map.cell_at(i, j)]
                        ((0 <= i < x && 0 <= j < N) || (i == x && 0 <= j < y)) ==> {
                            &&& intersect_map.wall_px_at(i, j) == wall_intersect_spec(self.wall_px_at(i, j), other.wall_px_at(i, j))
                            &&& intersect_map.wall_py_at(i, j) == wall_intersect_spec(self.wall_py_at(i, j), other.wall_py_at(i, j))
                            &&& intersect_map.cell_at(i, j) == cell_intersect_spec(self.cell_at(i, j), other.cell_at(i, j))
                        },
                decreases N - y,
            {
                let (sr, sd) = self.wall_discovery_status[x][y];
                let (or, od) = other.wall_discovery_status[x][y];
                let ghost xi = x as int;
                let ghost yi = y as int;
                assert(self.wall_px_at(xi, yi) == sr && other.wall_px_at(xi, yi) == or);
                assert(self.wall_py_at(xi, yi) == sd && other.wall_py_at(xi, yi) == od);
                let c = self.cell_discovery_status[x][y].intersect(&other.cell_discovery_status[x][y]);
                assert(self.cell_at(xi, yi) == self.cell_discovery_status[x as int][y as int]);
                intersect_map.set_entry(x, y, c, (sr.intersect(&or), sd.intersect(&od)));
                y = y + 1;
            }
            x = x + 1;
        }
        assert forall|i: int, j: int| in_map(N as int, i, j) implies {
            &&& #[trigger] intersect_map.wall_px_at(i, j) == wall_intersect_spec(self.wall_px_at(i, j), other.wall_px_at(i, j))
            &&& intersect_map.wall_py_at(i, j) == wall_intersect_spec(self.wall_py_at(i, j), other.wall_py_at(i, j))
            &&& intersect_map.cell_at(i, j) == cell_intersect_spec(self.cell_at(i, j), other.cell_at(i, j))
        } by {
            assert(intersect_map.cell_at(i, j) == intersect_map.cell_at(i, j));
        }
        intersect_map
    }
}


impl<const N: usize> MazeMap<N> {
    proof fn lemma_discoveries_from_samples(&self, m: Measurement, k: int)
        ensures
            forall|e: int|
                0 <= e < self.wall_discoveries_upto(m, k).len() ==> exists|d: int|
                    0 <= d < k && self.sample_wall_written(m, d) && #[trigger] self.wall_discoveries_upto(m, k)[e] == (WallDiscovery {
                        new_status: determined_at(m, d),
                        from_cell: sample_pos(m, d),
                        in_direction: m.direction,
                    }),
        decreases k,
    {
        if k > 0 {
            self.lemma_discoveries_from_samples(m, k - 1);
            let prev = self.wall_discoveries_upto(m, k - 1);
            let cur = self.wall_discoveries_upto(m, k);
            assert forall|e: int| 0 <= e < cur.len() implies exists|d: int|
                0 <= d < k && self.sample_wall_written(m, d) && #[trigger] cur[e] == (WallDiscovery {
                    new_status: determined_at(m, d),
                    from_cell: sample_pos(m, d),
                    in_direction: m.direction,
                }) by {
                if e < prev.len() {
                    assert(cur[e] == prev[e]);
                    let d = choose|d: int|
                        0 <= d < k - 1 && self.sample_wall_written(m, d) && #[trigger] prev[e] == (WallDiscovery {
                            new_status: determined_at(m, d),
                            from_cell: sample_pos(m, d),
                            in_direction: m.direction,
                        });
                    assert(0 <= d < k);
                } else {
                    assert(cur[e] == (WallDiscovery {
                        new_status: determined_at(m, k - 1),
                        from_cell: sample_pos(m, k - 1),
                        in_direction: m.direction,
                    }));
                }
            }
        }
    }

    proof fn lemma_written_sample_reads(after: MazeMap<N>, base: MazeMap<N>, m: Measurement, k: int, d: int)
        requires
            N <= u32::MAX,
            in_map(N as int, m.position.x as int, m.position.y as int),
            0 <= d < k <= samples_in_map(N as int, m),
            base.sample_wall_written(m, d),
            after.ray_applied(&base, m, k),
        ensures
            after.spec_wall(sample_pos(m, d), m.direction) == Some(determined_at(m, d)),
    {
        Self::lemma_sample_in_map(m, d);
        let p = sample_pos(m, d);
        assert(p.x as int == sample_x(m, d) && p.y as int == sample_y(m, d));
        match m.direction {
            Direction::PosX => {
                assert(px_sample_index(m, p.x as int, p.y as int) == d);
            },
            Direction::NegX => {
                assert(px_sample_index(m, p.x - 1, p.y as int) == d);
            },
            Direction::PosY => {
                assert(py_sample_index(m, p.x as int, p.y as int) == d);
            },
            Direction::NegY => {
                assert(py_sample_index(m, p.x as int, p.y - 1) == d);
            },
        }
    }
}

/// Cell `p` lies `d` cells along the ray of `m` from its measuring cell.
pub open spec fn lies_on_ray(m: Measurement, p: Position, d: int) -> bool {
    &&& 0 <= d
    &&& p.x == m.position.x + d * dir_dx(m.direction)
    &&& p.y == m.position.y + d * dir_dy(m.direction)
}

/// Every wall discovery that applying a measurement reports is true of the map afterwards and
/// lies on the ray: it is the wall in the measured direction of the cell `d` cells along the
/// ray from the measuring cell, for some `d`, and the map now holds the reported status
/// there. (Positions are `u32`, so the map has at most `u32::MAX` cells a side.)
pub proof fn wall_discoveries_hold_afterwards<const N: usize>(
    after: MazeMap<N>,
    base: MazeMap<N>,
    m: Measurement,
    r: Result<DiscoveryMessage, MapInconsistencyError>,
)
    requires
        N <= u32::MAX,
        after.apply_outcome(&base, m, r),
    ensures
        r matches Ok(dm) ==> forall|e: int|
            0 <= e < dm.wall_discoveries@.len() ==> {
                let w = #[trigger] dm.wall_discoveries@[e];
                &&& after.spec_wall(w.from_cell, w.in_direction) == Some(w.new_status)
                &&& w.in_direction == m.direction
                &&& exists|d: int| #[trigger] lies_on_ray(m, w.from_cell, d)
            },
{
    if let Ok(dm) = r {
        let depth = measurement_depth(m.value) as int;
        let k = depth + 1;
        base.lemma_discoveries_from_samples(m, k);
        assert forall|e: int| 0 <= e < dm.wall_discoveries@.len() implies {
            let w = #[trigger] dm.wall_discoveries@[e];
            &&& after.spec_wall(w.from_cell, w.in_direction) == Some(w.new_status)
            &&& w.in_direction == m.direction
            &&& exists|d: int| #[trigger] lies_on_ray(m, w.from_cell, d)
        } by {
            let d = choose|d: int|
                0 <= d < k && base.sample_wall_written(m, d) && #[trigger] base.wall_discoveries_upto(m, k)[e] == (WallDiscovery {
                    new_status: determined_at(m, d),
                    from_cell: sample_pos(m, d),
                    in_direction: m.direction,
                });
            MazeMap::<N>::lemma_written_sample_reads(after, base, m, k, d);
            MazeMap::<N>::lemma_sample_in_map(m, d);
            let w = dm.wall_discoveries@[e];
            assert(lies_on_ray(m, w.from_cell, d)) by {
                assert(d * 1 == d && d * 0 == 0 && d * -1 == -d) by (nonlinear_arith);
            }
        }
    }
}

} // verus!
