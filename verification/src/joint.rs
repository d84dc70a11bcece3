//! A single constrained point: position, facing direction and a size
//! parameter (link length in reaching mode, visual radius in follow mode).
//! Only the position and the facing ever change after construction.

use crate::vec2::{GVec, UNIT, Vec2, gzero, in_range};
use vstd::prelude::*;

verus! {

/// Largest link distance, joint size and follow speed the chain accepts.
pub const MAX_LINK: i64 = 0x1000000;

/// Executable joint.
#[derive(Clone, Copy, PartialEq, Eq, Structural, Debug)]
pub struct Joint {
    pub pos: Vec2,
    pub facing: Vec2,
    pub size: i64,
}

/// Ghost model of a joint.
pub ghost struct GJoint {
    pub pos: GVec,
    pub facing: GVec,
    pub size: int,
}

impl View for Joint {
    type V = GJoint;

    open spec fn view(&self) -> GJoint {
        GJoint { pos: self.pos@, facing: self.facing@, size: self.size as int }
    }
}

/// A facing is a non-zero direction vector of bounded magnitude; the
/// solvers keep it near length `UNIT`.
pub open spec fn facing_ok(f: GVec) -> bool {
    !gzero(f) && in_range(f, 4 * (UNIT as int))
}

/// Structural well-formedness of a joint: a usable facing and a size
/// within the accepted range.
pub open spec fn joint_ok(j: GJoint) -> bool {
    facing_ok(j.facing) && 0 <= j.size <= MAX_LINK as int
}

impl Joint {
    /// A joint at `(x, y)` facing along `facing` with the given size.
    pub fn new(x: i64, y: i64, facing: Vec2, size: i64) -> (r: Joint)
        ensures
            r@ == (GJoint {
                pos: GVec { x: x as int, y: y as int },
                facing: facing@,
                size: size as int,
            }),
    {
        Joint { pos: Vec2 { x, y }, facing, size }
    }
}

} // verus!
