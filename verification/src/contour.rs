//! Contour extraction: turns a chain pose into the ordered outline points
//! a periodic-spline renderer consumes. Each joint contributes one point
//! on either flank, at the joint's radius, perpendicular to its facing;
//! the head and the tail each contribute a five-point cap fan that bulges
//! outward, away from the body — the head cap along the head's facing
//! (its direction of travel), the tail cap along the tail's reversed
//! facing (the tail faces its predecessor). The output order is a
//! rendering contract: one flank from tip to head at offset facing−π/2
//! (the end points doubled), the head fan sweeping from facing−π/2 to
//! facing+π/2 (its end points doubled), the other flank from head to tip
//! at offset facing+π/2 (the end points doubled), the tail fan, and
//! finally the first three points repeated to close the curve for a
//! periodic spline. At each of the four cap junctions the adjacent points
//! coincide, so the closed outline never jumps across the body.

use crate::chain::{Chain, GChain, positions_within, wf};
use crate::follow::STEP_BOUND;
use crate::joint::{GJoint, joint_ok};
use crate::norm::{MAX_OFF, MAX_SCALE, scale_len, scale_to_length};
use crate::vec2::{GVec, Vec2, gadd, gneg, gperp, gzero, in_range};
use vstd::prelude::*;

verus! {

/// One of the five fan directions around `d`: `d` rotated by a quarter
/// turn clockwise, an eighth turn clockwise, nothing, an eighth turn
/// counter-clockwise, a quarter turn counter-clockwise (the eighth-turn
/// vectors are longer by a factor `sqrt(2)`; they are rescaled to the
/// radius anyway).
pub open spec fn fan_dir(d: GVec, t: int) -> GVec {
    if t <= 1 {
        GVec { x: d.y, y: -d.x }
    } else if t == 2 {
        GVec { x: d.x + d.y, y: d.y - d.x }
    } else if t == 3 {
        d
    } else if t == 4 {
        GVec { x: d.x - d.y, y: d.y + d.x }
    } else {
        GVec { x: -d.y, y: d.x }
    }
}

/// A point at the joint's radius from its position, in direction `d`.
pub open spec fn offset_spec(j: GJoint, d: GVec) -> GVec {
    gadd(j.pos, scale_len(d, j.size))
}

/// The outline point at output index `k`.
pub open spec fn contour_at(c: GChain, k: int) -> GVec
    decreases k,
{
    let n = c.joints.len() as int;
    if k < n + 2 {
        // first flank, tip to head at facing-90 degrees, both ends
        // doubled; its head point coincides with the head fan's first
        let i = if k <= 1 {
            n - 1
        } else if k >= n {
            0
        } else {
            n - k
        };
        offset_spec(c.joints[i], gneg(gperp(c.joints[i].facing)))
    } else if k < n + 9 {
        // head cap fan around the facing: the head faces the way it
        // moves, so the cap bulges beyond the head, away from the body
        let t = k - (n + 2);
        let sel = if t <= 1 {
            1
        } else if t >= 5 {
            5
        } else {
            t
        };
        offset_spec(c.joints[0], fan_dir(c.joints[0].facing, sel))
    } else if k < 2 * n + 11 {
        // second flank, head to tip at facing+90 degrees, both ends
        // doubled; its head point coincides with the head fan's last
        let r = k - (n + 9);
        let i = if r <= 1 {
            0
        } else if r >= n {
            n - 1
        } else {
            r - 1
        };
        offset_spec(c.joints[i], gperp(c.joints[i].facing))
    } else if k < 2 * n + 18 {
        // tail cap fan around the reversed facing: the tail faces its
        // predecessor, so the cap bulges beyond the tail, away from the
        // body
        let t = k - (2 * n + 11);
        let sel = if t <= 1 {
            1
        } else if t >= 5 {
            5
        } else {
            t
        };
        offset_spec(c.joints[n - 1], fan_dir(gneg(c.joints[n - 1].facing), sel))
    } else {
        // the first three points again, closing the periodic curve
        contour_at(c, k - (2 * n + 18))
    }
}

/// The full ordered outline.
pub open spec fn contour_spec(c: GChain) -> Seq<GVec> {
    Seq::new((2 * c.joints.len() + 21) as nat, |k: int| contour_at(c, k))
}

/// Executable offset point.
fn offset_point(pos: Vec2, d: Vec2, size: i64) -> (r: Vec2)
    requires
        !gzero(d@),
        in_range(d@, MAX_OFF as int),
        in_range(pos@, 0x200000000000),
        0 <= size <= MAX_SCALE,
    ensures
        r@ == gadd(pos@, scale_len(d@, size as int)),
{
    pos.plus(scale_to_length(d, size))
}

/// The outline point at output index `k`.
fn contour_point(chain: &Chain, k: usize) -> (r: Vec2)
    requires
        wf(chain@),
        positions_within(chain@, STEP_BOUND as int),
        k < 2 * chain@.joints.len() + 21,
    ensures
        r@ == contour_at(chain@, k as int),
    decreases k,
{
    let n = chain.len();
    proof {
        assert(1 <= n <= 4096);
    }
    if k < n + 2 {
        let i = if k <= 1 {
            n - 1
        } else if k >= n {
            0
        } else {
            n - k
        };
        let j = chain.joint_at(i);
        proof {
            assert(joint_ok(chain@.joints[i as int]));
            assert(in_range(chain@.joints[i as int].pos, STEP_BOUND as int));
            assert(!gzero(gneg(gperp(j@.facing))));
        }
        offset_point(j.pos, j.facing.perp_left().negated(), j.size)
    } else if k < n + 9 {
        let t = k - (n + 2);
        let sel = if t <= 1 {
            1
        } else if t >= 5 {
            5
        } else {
            t
        };
        let j = chain.joint_at(0);
        proof {
            assert(joint_ok(chain@.joints[0]));
            assert(in_range(chain@.joints[0].pos, STEP_BOUND as int));
        }
        let d = fan_vec(j.facing, sel);
        offset_point(j.pos, d, j.size)
    } else if k < 2 * n + 11 {
        let r = k - (n + 9);
        let i = if r <= 1 {
            0
        } else if r >= n {
            n - 1
        } else {
            r - 1
        };
        let j = chain.joint_at(i);
        proof {
            assert(joint_ok(chain@.joints[i as int]));
            assert(in_range(chain@.joints[i as int].pos, STEP_BOUND as int));
            assert(!gzero(gperp(j@.facing)));
        }
        offset_point(j.pos, j.facing.perp_left(), j.size)
    } else if k < 2 * n + 18 {
        let t = k - (2 * n + 11);
        let sel = if t <= 1 {
            1
        } else if t >= 5 {
            5
        } else {
            t
        };
        let j = chain.joint_at(n - 1);
        proof {
            assert(joint_ok(chain@.joints[n - 1]));
            assert(in_range(chain@.joints[n - 1].pos, STEP_BOUND as int));
        }
        let d = fan_vec(j.facing.negated(), sel);
        offset_point(j.pos, d, j.size)
    } else {
        contour_point(chain, k - (2 * n + 18))
    }
}

/// Executable fan direction; `sel` is clamped to `1..=5` by the callers.
fn fan_vec(d: Vec2, sel: usize) -> (r: Vec2)
    requires
        !gzero(d@),
        in_range(d@, 4096),
        1 <= sel <= 5,
    ensures
        r@ == fan_dir(d@, sel as int),
        !gzero(r@),
        in_range(r@, MAX_OFF as int),
{
    if sel <= 1 {
        Vec2 { x: d.y, y: -d.x }
    } else if sel == 2 {
        Vec2 { x: d.x + d.y, y: d.y - d.x }
    } else if sel == 3 {
        d
    } else if sel == 4 {
        Vec2 { x: d.x - d.y, y: d.y + d.x }
    } else {
        Vec2 { x: -d.y, y: d.x }
    }
}

/// The ordered outline of the chain, ready for a periodic spline.
pub fn contour(chain: &Chain) -> (r: Vec<Vec2>)
    requires
        wf(chain@),
        positions_within(chain@, STEP_BOUND as int),
    ensures
        r@.map_values(|p: Vec2| p@) == contour_spec(chain@),
        r@.len() == 2 * chain@.joints.len() + 21,
{
    let n = chain.len();
    let total = 2 * n + 21;
    let mut out: Vec<Vec2> = Vec::new();
    let mut k: usize = 0;
    while k < total
        invariant
            wf(chain@),
            positions_within(chain@, STEP_BOUND as int),
            n == chain@.joints.len(),
            total == 2 * n + 21,
            k <= total,
            out@.len() == k,
            forall|j: int| 0 <= j < k ==> #[trigger] out@[j]@ == contour_at(chain@, j),
        decreases total - k,
    {
        let p = contour_point(chain, k);
        out.push(p);
        k += 1;
    }
    proof {
        assert(out@.map_values(|p: Vec2| p@) =~= contour_spec(chain@));
    }
    out
}

} // verus!
