use vstd::prelude::*;

use crate::map::check::wall_potentially_eq_spec;
use crate::map::map::{in_map, CellDiscoveryStatus, MazeMap, WallDiscoveryStatus};
use crate::map::map_set_op::{cell_intersect_spec, cell_union_spec, wall_intersect_spec, wall_union_spec};
use crate::map::upgrade::{cell_upgrade_spec, wall_upgrade_spec};

verus! {

/// Refinement of cell states is a partial order: reflexive, antisymmetric and transitive.
pub proof fn cell_upgrade_is_partial_order(a: CellDiscoveryStatus, b: CellDiscoveryStatus, c: CellDiscoveryStatus)
    ensures
        cell_upgrade_spec(a, a),
        cell_upgrade_spec(a, b) && cell_upgrade_spec(b, a) ==> a == b,
        cell_upgrade_spec(a, b) && cell_upgrade_spec(b, c) ==> cell_upgrade_spec(a, c),
{
}

/// Refinement of wall states is a partial order: reflexive, antisymmetric and transitive.
pub proof fn wall_upgrade_is_partial_order(a: WallDiscoveryStatus, b: WallDiscoveryStatus, c: WallDiscoveryStatus)
    ensures
        wall_upgrade_spec(a, a),
        wall_upgrade_spec(a, b) && wall_upgrade_spec(b, a) ==> a == b,
        wall_upgrade_spec(a, b) && wall_upgrade_spec(b, c) ==> wall_upgrade_spec(a, c),
{
}

/// Two wall states can be combined exactly when they could describe the same wall,
/// and "could describe the same wall" is symmetric and reflexive.
pub proof fn wall_union_defined_iff_potentially_eq(a: WallDiscoveryStatus, b: WallDiscoveryStatus)
    ensures
        wall_union_spec(a, b) is Some <==> wall_potentially_eq_spec(a, b),
        wall_potentially_eq_spec(a, b) == wall_potentially_eq_spec(b, a),
        wall_potentially_eq_spec(a, a),
{
}

/// The union of two wall states does not depend on their order, refines both, and is the
/// least state that refines both.
pub proof fn wall_union_is_least_upper_bound(a: WallDiscoveryStatus, b: WallDiscoveryStatus, c: WallDiscoveryStatus)
    ensures
        wall_union_spec(a, b) == wall_union_spec(b, a),
        wall_union_spec(a, b) matches Some(u) ==> wall_upgrade_spec(u, a) && wall_upgrade_spec(u, b),
        wall_union_spec(a, b) matches Some(u) ==> (wall_upgrade_spec(c, a) && wall_upgrade_spec(c, b)
            ==> wall_upgrade_spec(c, u)),
        wall_upgrade_spec(c, a) && wall_upgrade_spec(c, b) ==> wall_union_spec(a, b) is Some,
{
}

/// The union of two cell states does not depend on their order, refines both, and is the
/// least state that refines both.
pub proof fn cell_union_is_least_upper_bound(a: CellDiscoveryStatus, b: CellDiscoveryStatus, c: CellDiscoveryStatus)
    ensures
        cell_union_spec(a, b) == cell_union_spec(b, a),
        cell_upgrade_spec(cell_union_spec(a, b), a) && cell_upgrade_spec(cell_union_spec(a, b), b),
        cell_upgrade_spec(c, a) && cell_upgrade_spec(c, b) ==> cell_upgrade_spec(c, cell_union_spec(a, b)),
{
}

/// The intersection of two states does not depend on their order and is refined by both.
pub proof fn intersect_is_lower_bound(
    a: WallDiscoveryStatus,
    b: WallDiscoveryStatus,
    ca: CellDiscoveryStatus,
    cb: CellDiscoveryStatus,
)
    ensures
        wall_intersect_spec(a, b) == wall_intersect_spec(b, a),
        wall_upgrade_spec(a, wall_intersect_spec(a, b)) && wall_upgrade_spec(b, wall_intersect_spec(a, b)),
        cell_intersect_spec(ca, cb) == cell_intersect_spec(cb, ca),
        cell_upgrade_spec(ca, cell_intersect_spec(ca, cb)) && cell_upgrade_spec(cb, cell_intersect_spec(ca, cb)),
{
}

/// Refinement of whole maps is reflexive and transitive.
pub proof fn map_upgrade_is_preorder<const N: usize>(a: MazeMap<N>, b: MazeMap<N>, c: MazeMap<N>)
    ensures
        a.upgrade_of(&a),
        a.upgrade_of(&b) && b.upgrade_of(&c) ==> a.upgrade_of(&c),
{
    assert forall|x: int, y: int| in_map(N as int, x, y) implies {
        &&& wall_upgrade_spec(#[trigger] a.wall_px_at(x, y), a.wall_px_at(x, y))
        &&& wall_upgrade_spec(a.wall_py_at(x, y), a.wall_py_at(x, y))
        &&& cell_upgrade_spec(a.cell_at(x, y), a.cell_at(x, y))
    } by {}
    if a.upgrade_of(&b) && b.upgrade_of(&c) {
        assert forall|x: int, y: int| in_map(N as int, x, y) implies {
            &&& wall_upgrade_spec(#[trigger] a.wall_px_at(x, y), c.wall_px_at(x, y))
            &&& wall_upgrade_spec(a.wall_py_at(x, y), c.wall_py_at(x, y))
            &&& cell_upgrade_spec(a.cell_at(x, y), c.cell_at(x, y))
        } by {
            assert(b.cell_at(x, y) == b.cell_at(x, y));
            wall_upgrade_is_partial_order(a.wall_px_at(x, y), b.wall_px_at(x, y), c.wall_px_at(x, y));
            wall_upgrade_is_partial_order(a.wall_py_at(x, y), b.wall_py_at(x, y), c.wall_py_at(x, y));
            cell_upgrade_is_partial_order(a.cell_at(x, y), b.cell_at(x, y), c.cell_at(x, y));
        }
    }
}

/// The union of two maps does not depend on their order, and it refines both maps.
pub proof fn map_union_commutes_and_refines<const N: usize>(u: MazeMap<N>, a: MazeMap<N>, b: MazeMap<N>)
    requires
        u.is_union_of(&a, &b),
    ensures
        u.is_union_of(&b, &a),
        u.upgrade_of(&a),
        u.upgrade_of(&b),
        MazeMap::union_defined(&b, &a),
{
    assert forall|x: int, y: int| in_map(N as int, x, y) implies {
        &&& Some(#[trigger] u.wall_px_at(x, y)) == wall_union_spec(b.wall_px_at(x, y), a.wall_px_at(x, y))
        &&& Some(u.wall_py_at(x, y)) == wall_union_spec(b.wall_py_at(x, y), a.wall_py_at(x, y))
        &&& u.cell_at(x, y) == cell_union_spec(b.cell_at(x, y), a.cell_at(x, y))
        &&& wall_upgrade_spec(u.wall_px_at(x, y), a.wall_px_at(x, y))
        &&& wall_upgrade_spec(u.wall_py_at(x, y), a.wall_py_at(x, y))
        &&& cell_upgrade_spec(u.cell_at(x, y), a.cell_at(x, y))
        &&& wall_upgrade_spec(u.wall_px_at(x, y), b.wall_px_at(x, y))
        &&& wall_upgrade_spec(u.wall_py_at(x, y), b.wall_py_at(x, y))
        &&& cell_upgrade_spec(u.cell_at(x, y), b.cell_at(x, y))
        &&& wall_union_spec(b.wall_px_at(x, y), a.wall_px_at(x, y)) is Some
        &&& wall_union_spec(b.wall_py_at(x, y), a.wall_py_at(x, y)) is Some
    } by {
        assert(u.cell_at(x, y) == u.cell_at(x, y));
        wall_union_is_least_upper_bound(a.wall_px_at(x, y), b.wall_px_at(x, y), a.wall_px_at(x, y));
        wall_union_is_least_upper_bound(a.wall_py_at(x, y), b.wall_py_at(x, y), a.wall_py_at(x, y));
        cell_union_is_least_upper_bound(a.cell_at(x, y), b.cell_at(x, y), a.cell_at(x, y));
    }
    assert forall|x: int, y: int| in_map(N as int, x, y) implies {
        &&& wall_union_spec(#[trigger] b.wall_px_at(x, y), a.wall_px_at(x, y)) is Some
        &&& wall_union_spec(b.wall_py_at(x, y), a.wall_py_at(x, y)) is Some
    } by {
        let w = wall_union_spec(b.wall_px_at(x, y), a.wall_px_at(x, y));
        assert(Some(u.wall_px_at(x, y)) == w);
        assert(w is Some);
    }
}

} // verus!
