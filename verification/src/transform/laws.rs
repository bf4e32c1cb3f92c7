use vstd::prelude::*;

use crate::comm::micromouse_message::{max_step_count_spec, movement_at_step_spec, MovementType};
use crate::transform::direction::{
    direction_at_rotation_index, rotated_spec, rotation_index_spec, transform_by_spec, Direction,
    RelativeDirection,
};
use crate::transform::position::{moved_spec, signum, step_once_spec, step_pos_spec, MouseTransform};

verus! {

proof fn lemma_index_roundtrip(i: int)
    requires
        0 <= i < 4,
    ensures
        rotation_index_spec(direction_at_rotation_index(i)) == i,
{
}

/// Turning by `a` quarter turns and then by `b` is turning by `a + b`.
pub proof fn rotations_compose(d: Direction, a: int, b: int)
    ensures
        rotated_spec(rotated_spec(d, a), b) == rotated_spec(d, a + b),
{
    let r = rotation_index_spec(d);
    let i = (r + a) % 4;
    vstd::arithmetic::div_mod::lemma_mod_bound(r + a, 4);
    lemma_index_roundtrip(i);
    vstd::arithmetic::div_mod::lemma_add_mod_noop(r + a, b, 4);
    vstd::arithmetic::div_mod::lemma_mod_bound(b, 4);
    vstd::arithmetic::div_mod::lemma_add_mod_noop(i, b, 4);
    assert((i % 4 + b % 4) % 4 == (i + b) % 4);
    assert(i % 4 == i) by {
        vstd::arithmetic::div_mod::lemma_small_mod(i as nat, 4);
    }
}

/// A full turn, and no turn at all, leave the direction unchanged.
pub proof fn full_turn_is_identity(d: Direction)
    ensures
        rotated_spec(d, 4) == d,
        rotated_spec(d, 0) == d,
{
}

/// The right of the left of a direction is the direction itself, and the other way round.
pub proof fn left_and_right_cancel(d: Direction)
    ensures
        transform_by_spec(RelativeDirection::Right, transform_by_spec(RelativeDirection::Left, d)) == d,
        transform_by_spec(RelativeDirection::Left, transform_by_spec(RelativeDirection::Right, d)) == d,
        transform_by_spec(RelativeDirection::Forward, d) == d,
{
    rotations_compose(d, 1, -1);
    rotations_compose(d, -1, 1);
}

/// Driving `a` cells and then `b` cells is driving `a + b` cells, where the cells stay in the
/// non-negative quadrant and within the range of the coordinates.
pub proof fn moves_compose(t: MouseTransform, a: int, b: int)
    requires
        0 <= a,
        0 <= b,
        moved_spec(t, a + b) is Some,
        t.pos.x + a + b <= u32::MAX,
        t.pos.y + a + b <= u32::MAX,
    ensures
        moved_spec(t, a) is Some,
        moved_spec(moved_spec(t, a).unwrap(), b) == moved_spec(t, a + b),
{
    let dx = crate::transform::direction::dir_dx(t.dir);
    let dy = crate::transform::direction::dir_dy(t.dir);
    lemma_mul_unit(dx, a);
    lemma_mul_unit(dx, b);
    lemma_mul_unit(dx, a + b);
    lemma_mul_unit(dy, a);
    lemma_mul_unit(dy, b);
    lemma_mul_unit(dy, a + b);
}

proof fn lemma_mul_unit(c: int, k: int)
    requires
        -1 <= c <= 1,
    ensures
        c == 0 ==> c * k == 0,
        c == 1 ==> c * k == k,
        c == -1 ==> c * k == -k,
{
    assert(c == 0 ==> c * k == 0) by (nonlinear_arith);
    assert(c == 1 ==> c * k == k) by (nonlinear_arith);
    assert(c == -1 ==> c * k == -k) by (nonlinear_arith);
}

/// One step of a movement from where `n` steps of it lead is where `n + 1` steps lead: the
/// simulator's step-by-step execution and the enumeration of a movement agree.
pub proof fn step_once_follows_movement(start: MouseTransform, m: MovementType, n: int)
    requires
        0 <= n < max_step_count_spec(m),
        movement_at_step_spec(start, m, n + 1) is Some,
        start.pos.x + n + 1 <= u32::MAX,
        start.pos.y + n + 1 <= u32::MAX,
    ensures
        movement_at_step_spec(start, m, n) is Some,
        step_once_spec(movement_at_step_spec(start, m, n).unwrap(), m) == movement_at_step_spec(start, m, n + 1),
{
    match m {
        MovementType::Turn(i) => {
            let s = signum(i as int);
            rotations_compose(start.dir, s * n, s);
            assert(s * n + s == s * (n + 1)) by (nonlinear_arith);
        },
        MovementType::Move(_) => {
            moves_compose(start, n, 1);
        },
    }
}

} // verus!
