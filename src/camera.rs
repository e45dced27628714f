use vstd::prelude::*;
use crate::projector::DEGREE;

verus! {

/// A full turn, in angle units (tenths of a degree).
pub const FULL_TURN: i32 = 3600;

/// A discrete camera movement asked for by the input.
#[derive(Clone, Copy, Debug, PartialEq, Eq, Structural)]
pub enum Intent {
    Forward,
    Backward,
    StrafeLeft,
    StrafeRight,
}

/// `heading + delta`, brought into `[0, FULL_TURN)`.
pub open spec fn turned(heading: int, delta: int) -> int {
    (heading + delta) % (FULL_TURN as int)
}

/// Turns a heading by `delta` angle units, counter-clockwise positive; the
/// result lies in `[0, FULL_TURN)`.
pub fn turn_heading(heading: i32, delta: i64) -> (r: i32)
    requires
        -0x4000_0000_0000_0000 <= delta <= 0x4000_0000_0000_0000,
    ensures
        r == turned(heading as int, delta as int),
        0 <= r < FULL_TURN,
{
    let m = (heading as i64 + delta) % FULL_TURN as i64;
    if m < 0 {
        (m + FULL_TURN as i64) as i32
    } else {
        m as i32
    }
}

/// The heading after the mouse moved `xrel` pixels sideways: half a degree
/// per pixel, clockwise for a move to the right.
pub fn rotate_heading(heading: i32, xrel: i32) -> (r: i32)
    ensures
        r == turned(heading as int, -(xrel as int) * DEGREE / 2),
        0 <= r < FULL_TURN,
{
    turn_heading(heading, -(xrel as i64) * (DEGREE as i64 / 2))
}

/// The offset from the heading along which an intent moves the camera.
pub open spec fn intent_offset(intent: Intent) -> int {
    match intent {
        Intent::Forward => 0,
        Intent::Backward => -180 * DEGREE,
        Intent::StrafeLeft => 90 * DEGREE,
        Intent::StrafeRight => -90 * DEGREE,
    }
}

/// The direction in which the camera moves for `intent`: ahead, behind,
/// to its left or to its right.
pub fn movement_heading(heading: i32, intent: Intent) -> (r: i32)
    ensures
        r == turned(heading as int, intent_offset(intent)),
        0 <= r < FULL_TURN,
{
    let offset: i64 = match intent {
        Intent::Forward => 0,
        Intent::Backward => -(180 * DEGREE as i64),
        Intent::StrafeLeft => 90 * DEGREE as i64,
        Intent::StrafeRight => -(90 * DEGREE as i64),
    };
    turn_heading(heading, offset)
}

} // verus!
