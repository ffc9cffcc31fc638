//! Where a block goes when a player uses an item on the face of a block.

use vstd::prelude::*;

verus! {

/// The hand that places blocks: the main hand.
pub const MAIN_HAND: i32 = 0;

/// The step from a block to its neighbour on face `face`: down, up, north,
/// south, west and east for the faces 0 to 5, and no step for any other.
pub open spec fn face_step(face: int) -> (int, int, int) {
    if face == 0 {
        (0, -1, 0)
    } else if face == 1 {
        (0, 1, 0)
    } else if face == 2 {
        (0, 0, -1)
    } else if face == 3 {
        (0, 0, 1)
    } else if face == 4 {
        (-1, 0, 0)
    } else if face == 5 {
        (1, 0, 0)
    } else {
        (0, 0, 0)
    }
}

/// The position that a block is placed at when `hand` uses an item on face
/// `face` of the block at `(x, y, z)`: the neighbour on that face for the
/// main hand, none for any other hand and none where the neighbour lies
/// outside of the coordinates.
pub open spec fn placed_at(hand: int, face: int, x: int, y: int, z: int) -> Option<(int, int, int)> {
    let step = face_step(face);
    let to = (x + step.0, y + step.1, z + step.2);
    if hand == MAIN_HAND && i32::MIN <= to.0 <= i32::MAX && i32::MIN <= to.1 <= i32::MAX && i32::MIN
        <= to.2 <= i32::MAX {
        Some(to)
    } else {
        None
    }
}

/// The step from a block to its neighbour on face `face`.
pub fn face_offset(face: i32) -> (step: (i32, i32, i32))
    ensures
        (step.0 as int, step.1 as int, step.2 as int) == face_step(face as int),
{
    match face {
        0 => (0, -1, 0),
        1 => (0, 1, 0),
        2 => (0, 0, -1),
        3 => (0, 0, 1),
        4 => (-1, 0, 0),
        5 => (1, 0, 0),
        _ => (0, 0, 0),
    }
}

/// The position that a block is placed at when `hand` uses an item on face
/// `face` of the block at `(x, y, z)`.
pub fn placement(hand: i32, face: i32, x: i32, y: i32, z: i32) -> (to: Option<(i32, i32, i32)>)
    ensures
        to is Some <==> placed_at(hand as int, face as int, x as int, y as int, z as int) is Some,
        to is Some ==> (to->Some_0.0 as int, to->Some_0.1 as int, to->Some_0.2 as int) == placed_at(
            hand as int,
            face as int,
            x as int,
            y as int,
            z as int,
        )->Some_0,
{
    if hand != MAIN_HAND {
        return None;
    }
    let (dx, dy, dz) = face_offset(face);
    match (x.checked_add(dx), y.checked_add(dy), z.checked_add(dz)) {
        (Some(tx), Some(ty), Some(tz)) => Some((tx, ty, tz)),
        _ => None,
    }
}

} // verus!
