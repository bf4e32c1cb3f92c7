use vstd::prelude::*;

use crate::map::map::{cell_discovered, in_map, CellDiscoveryStatus, MazeMap, WallDiscoveryStatus};
use crate::transform::direction::Direction;
use crate::transform::position::Position;

verus! {

/// The wall between two neighbouring cells in a capsule map: blocked where the known area
/// ends (one cell discovered, the other not), blocked where it is unknown inside the known
/// area, and as it was otherwise.
pub open spec fn capsule_wall(here: CellDiscoveryStatus, there: CellDiscoveryStatus, w: WallDiscoveryStatus) -> WallDiscoveryStatus {
    if cell_discovered(here) != cell_discovered(there) {
        WallDiscoveryStatus::Exists(true)
    } else if cell_discovered(here) && w == WallDiscoveryStatus::Undiscovered {
        WallDiscoveryStatus::Exists(true)
    } else {
        w
    }
}

/// `r` is the capsule map of `m` up to column `cx` and, in that column, row `cy`: the walls of
/// the cells before it are as `capsule_wall` says, the others and all cells as in `m`.
pub open spec fn capsule_done<const N: usize>(r: MazeMap<N>, m: MazeMap<N>, cx: int, cy: int) -> bool {
    forall|x: int, y: int|
        #![trigger r.cell_at(x, y)]
        #![trigger r.wall_px_at(x, y)]
        #![trigger r.wall_py_at(x, y)]
        in_map(N as int, x, y) ==> {
            let done = x < cx || (x == cx && y < cy);
            &&& r.cell_at(x, y) == m.cell_at(x, y)
            &&& r.wall_px_at(x, y) == if done && x < N - 1 {
                capsule_wall(m.cell_at(x, y), m.cell_at(x + 1, y), m.wall_px_at(x, y))
            } else {
                m.wall_px_at(x, y)
            }
            &&& r.wall_py_at(x, y) == if done && y < N - 1 {
                capsule_wall(m.cell_at(x, y), m.cell_at(x, y + 1), m.wall_py_at(x, y))
            } else {
                m.wall_py_at(x, y)
            }
        }
}

/// The map with the boundary between the discovered and the undiscovered cells walled off, and
/// every unknown wall between two discovered cells taken to be there.
pub fn as_capsule_map<const N: usize>(map: &MazeMap<N>) -> (r: MazeMap<N>)
    requires
        N <= u32::MAX,
    ensures
        capsule_done(r, *map, N as int, 0),
{
    let mut r = *map;
    let mut x: usize = 0;
    while x < N
        invariant
            x <= N <= u32::MAX,
            capsule_done(r, *map, x as int, 0),
        decreases N - x,
    {
        let mut y: usize = 0;
        while y < N
            invariant
                x < N <= u32::MAX,
                y <= N,
                capsule_done(r, *map, x as int, y as int),
            decreases N - y,
        {
            let pos = Position { x: x as u32, y: y as u32 };
            let cell = *r.cell(&pos).unwrap();
            let ghost before = r;
            if x != N - 1 {
                let pos_right = Position { x: x as u32 + 1, y: y as u32 };
                let cell_right = *r.cell(&pos_right).unwrap();
                let wall = r.wall_mut(&pos, &Direction::PosX).unwrap();
                if cell.is_discovered() != cell_right.is_discovered() {
                    *wall = WallDiscoveryStatus::Exists(true);
                } else if cell.is_discovered() {
                    if *wall == WallDiscoveryStatus::Undiscovered {
                        *wall = WallDiscoveryStatus::Exists(true);
                    }
                }
            }
            let ghost mid = r;
            if y != N - 1 {
                let pos_down = Position { x: x as u32, y: y as u32 + 1 };
                let cell_down = *r.cell(&pos_down).unwrap();
                let wall = r.wall_mut(&pos, &Direction::PosY).unwrap();
                if cell.is_discovered() != cell_down.is_discovered() {
                    *wall = WallDiscoveryStatus::Exists(true);
                } else if cell.is_discovered() {
                    if *wall == WallDiscoveryStatus::Undiscovered {
                        *wall = WallDiscoveryStatus::Exists(true);
                    }
                }
            }
            proof {
                assert forall|a: int, b: int|
                    #![trigger r.cell_at(a, b)]
                    #![trigger r.wall_px_at(a, b)]
                    #![trigger r.wall_py_at(a, b)]
                    in_map(N as int, a, b) implies {
                    let done = a < x || (a == x && b < y + 1);
                    &&& r.cell_at(a, b) == map.cell_at(a, b)
                    &&& r.wall_px_at(a, b) == if done && a < N - 1 {
                        capsule_wall(map.cell_at(a, b), map.cell_at(a + 1, b), map.wall_px_at(a, b))
                    } else {
                        map.wall_px_at(a, b)
                    }
                    &&& r.wall_py_at(a, b) == if done && b < N - 1 {
                        capsule_wall(map.cell_at(a, b), map.cell_at(a, b + 1), map.wall_py_at(a, b))
                    } else {
                        map.wall_py_at(a, b)
                    }
                } by {
                    assert(before.cell_at(a, b) == map.cell_at(a, b));
                    assert(before.wall_px_at(a, b) == before.wall_px_at(a, b));
                    assert(before.wall_py_at(a, b) == before.wall_py_at(a, b));
                    assert(mid.wall_px_at(a, b) == mid.wall_px_at(a, b));
                    assert(mid.wall_py_at(a, b) == mid.wall_py_at(a, b));
                    assert(mid.cell_at(a, b) == mid.cell_at(a, b));
                    assert(before.cell_at(x as int, y as int) == map.cell_at(x as int, y as int));
                    if x < N - 1 {
                        assert(before.cell_at(x + 1, y as int) == map.cell_at(x + 1, y as int));
                    }
                    if y < N - 1 {
                        assert(before.cell_at(x as int, y + 1) == map.cell_at(x as int, y + 1));
                    }
                }
            }
            y = y + 1;
        }
        proof {
            assert forall|a: int, b: int|
                #![trigger r.cell_at(a, b)]
                #![trigger r.wall_px_at(a, b)]
                #![trigger r.wall_py_at(a, b)]
                in_map(N as int, a, b) implies {
                let done = a < x + 1 || (a == x + 1 && b < 0);
                &&& r.cell_at(a, b) == map.cell_at(a, b)
                &&& r.wall_px_at(a, b) == if done && a < N - 1 {
                    capsule_wall(map.cell_at(a, b), map.cell_at(a + 1, b), map.wall_px_at(a, b))
                } else {
                    map.wall_px_at(a, b)
                }
                &&& r.wall_py_at(a, b) == if done && b < N - 1 {
                    capsule_wall(map.cell_at(a, b), map.cell_at(a, b + 1), map.wall_py_at(a, b))
                } else {
                    map.wall_py_at(a, b)
                }
            } by {
                assert(r.cell_at(a, b) == r.cell_at(a, b));
                assert(r.wall_px_at(a, b) == r.wall_px_at(a, b));
                assert(r.wall_py_at(a, b) == r.wall_py_at(a, b));
            }
        }
        x = x + 1;
    }
    r
}

} // verus!
