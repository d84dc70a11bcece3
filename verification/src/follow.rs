//! Constrained-follow solver. The head joint is driven externally: unless
//! the target sits inside a dead zone around it, it advances along the
//! movement vector at `speed` per second and faces the way it moves. Each
//! trailing joint then turns to face its predecessor, is pulled to its
//! link distance behind it, and — except for the last joint — receives a
//! bounded corrective rotation when its heading deviates from a straight
//! continuation of its predecessor's heading by more than the clamp
//! threshold (about a twelfth of a half turn).
//!
//! The corrective rotation per call is fixed-rate: it turns the offset by
//! the angle whose tangent is `dt / ROT_DEN` (`dt` in milliseconds), i.e.
//! about a hundredth of a radian per millisecond, regardless of how large
//! the deviation is, so sharp turns relax over several frames instead of
//! snapping.

use crate::chain::{Chain, GChain, MAX_JOINTS, POS_LIMIT, links_close, positions_within, wf};
use crate::fabrik::TARGET_LIMIT;
use crate::joint::{GJoint, Joint, MAX_LINK, facing_ok, joint_ok};
use crate::norm::{
    MAX_OFF, MAX_SCALE, PLACE_POS, close_to_length, dir_spec, lemma_dir_nonzero,
    lemma_place_props, lemma_scale_len_props, lemma_scale_len_zero_length, place_at,
    place_spec, dir_toward, scale_len, scale_to_length,
};
use crate::vec2::{GVec, UNIT, Vec2, gadd, gcross, gdist_sq, gdot, glen_sq, gneg, gsub, gzero,
    in_range};
use vstd::prelude::*;

verus! {

/// Largest frame time accepted, in milliseconds.
pub const DT_LIMIT: i64 = 0x10000;

/// The clamp threshold as a tangent: a deviation is tolerated while
/// `|tan|` of the deviation angle is at most `TAN_NUM / TAN_DEN`, about
/// `tan` of a twelfth of a half turn.
pub const TAN_NUM: i64 = 268;

/// Denominator of the clamp threshold tangent.
pub const TAN_DEN: i64 = 1000;

/// Time denominator of the corrective rotation: one call turns the offset
/// by the angle whose tangent is `dt / ROT_DEN`.
pub const ROT_DEN: i64 = 100;

/// Largest coordinate magnitude a position can reach after one step:
/// the input budget plus the head advance plus the chain's total reach.
pub const STEP_BOUND: i64 = 0x102080001000;

/// Head budget for an iterated frame loop: while the head stays within
/// this bound, one step keeps every position within `POS_LIMIT`, so the
/// stepped chain is again acceptable input for `step`
/// (`lemma_step_chainable`). It is `POS_LIMIT` minus the largest head
/// advance minus the chain's largest total reach.
pub const HEAD_LIMIT: i64 = 0xfdf7ffff000;

/// Which side of the clamp a joint's heading falls on, measured against a
/// straight continuation of its predecessor's heading.
pub enum Bend {
    /// Within the tolerated cone: no correction.
    Within,
    /// Too far counter-clockwise: rotate the offset one step clockwise.
    Ccw,
    /// Too far clockwise: rotate the offset one step counter-clockwise.
    Cw,
}

/// Classify the deviation of facing `v` from facing `u`. On the boundary
/// of the cone no correction is applied.
pub open spec fn bend_of(u: GVec, v: GVec) -> Bend {
    if gdot(u, v) > 0 && gcross(u, v) * gcross(u, v) * ((TAN_DEN as int) * (TAN_DEN as int))
        <= gdot(u, v) * gdot(u, v) * ((TAN_NUM as int) * (TAN_NUM as int)) {
        Bend::Within
    } else if gcross(u, v) >= 0 {
        Bend::Ccw
    } else {
        Bend::Cw
    }
}

/// The offset `w` rotated by the angle whose tangent is `s / ROT_DEN`
/// (counter-clockwise for positive `s`), scaled by an irrelevant positive
/// factor; the caller rescales it to the link length.
pub open spec fn rot_raw(w: GVec, s: int) -> GVec {
    GVec {
        x: (ROT_DEN as int) * w.x - s * w.y,
        y: (ROT_DEN as int) * w.y + s * w.x,
    }
}

/// The rotation is exactly one bounded step: the corrected offset keeps a
/// positive projection on the old one, its signed deviation has tangent
/// exactly `s / ROT_DEN`, and its raw length scales by `ROT_DEN^2 + s^2`.
pub proof fn lemma_rot_raw(w: GVec, s: int)
    ensures
        gdot(w, rot_raw(w, s)) == (ROT_DEN as int) * glen_sq(w),
        gcross(w, rot_raw(w, s)) == s * glen_sq(w),
        glen_sq(rot_raw(w, s)) == ((ROT_DEN as int) * (ROT_DEN as int) + s * s) * glen_sq(w),
{
    let r = rot_raw(w, s);
    let d = ROT_DEN as int;
    assert(w.x * (d * w.x - s * w.y) + w.y * (d * w.y + s * w.x) == d * (w.x * w.x + w.y
        * w.y)) by (nonlinear_arith);
    assert(w.x * (d * w.y + s * w.x) - w.y * (d * w.x - s * w.y) == s * (w.x * w.x + w.y
        * w.y)) by (nonlinear_arith);
    let a = d * w.x - s * w.y;
    let b = d * w.y + s * w.x;
    assert(a * a == 10000 * (w.x * w.x) - 2 * (100 * s) * (w.x * w.y) + s * s * (w.y * w.y))
        by (nonlinear_arith)
        requires
            a == 100 * w.x - s * w.y,
    ;
    assert(b * b == 10000 * (w.y * w.y) + 2 * (100 * s) * (w.x * w.y) + s * s * (w.x * w.x))
        by (nonlinear_arith)
        requires
            b == 100 * w.y + s * w.x,
    ;
    assert(a * a + b * b == (10000 + s * s) * (w.x * w.x + w.y * w.y)) by (nonlinear_arith)
        requires
            a * a == 10000 * (w.x * w.x) - 2 * (100 * s) * (w.x * w.y) + s * s * (w.y * w.y),
            b * b == 10000 * (w.y * w.y) + 2 * (100 * s) * (w.x * w.y) + s * s * (w.x * w.x),
    ;
}

/// The head joint after one step.
pub open spec fn head_spec(
    c: GChain,
    target: GVec,
    movement: GVec,
    dt: int,
    speed: int,
    dead: int,
) -> GJoint {
    let h = c.joints[0];
    if gdist_sq(target, h.pos) <= dead * dead {
        h
    } else if gzero(movement) {
        h
    } else {
        GJoint {
            pos: gadd(h.pos, scale_len(movement, speed * dt / 1000)),
            facing: scale_len(movement, UNIT as int),
            size: h.size,
        }
    }
}

/// Joint `i` after one step: the head is driven, every later joint faces
/// its (already advanced) predecessor, is pulled to its link distance
/// behind it, and all but the last receive at most one clamp rotation.
pub open spec fn step_joint(
    c: GChain,
    target: GVec,
    movement: GVec,
    dt: int,
    speed: int,
    dead: int,
    i: int,
) -> GJoint
    decreases i,
{
    if i <= 0 {
        head_spec(c, target, movement, dt, speed, dead)
    } else {
        let h = step_joint(c, target, movement, dt, speed, dead, i - 1);
        let t = c.joints[i];
        let f = dir_spec(t.pos, h.pos, t.facing);
        let j1 = GJoint {
            pos: place_spec(h.pos, t.pos, c.link[i], gneg(f)),
            facing: f,
            size: t.size,
        };
        if i == c.joints.len() - 1 || dt == 0 {
            j1
        } else {
            let s = match bend_of(h.facing, f) {
                Bend::Within => 0,
                Bend::Ccw => -dt,
                Bend::Cw => dt,
            };
            let w = gsub(j1.pos, h.pos);
            if s == 0 || gzero(w) {
                j1
            } else {
                GJoint {
                    pos: gadd(h.pos, scale_len(rot_raw(w, s), c.link[i])),
                    facing: f,
                    size: t.size,
                }
            }
        }
    }
}

/// The whole chain after one step.
pub open spec fn step_spec(
    c: GChain,
    target: GVec,
    movement: GVec,
    dt: int,
    speed: int,
    dead: int,
) -> GChain {
    GChain {
        joints: Seq::new(
            c.joints.len(),
            |i: int| step_joint(c, target, movement, dt, speed, dead, i),
        ),
        link: c.link,
    }
}

/// Inputs `step` accepts.
pub open spec fn step_pre(
    c: GChain,
    target: GVec,
    movement: GVec,
    dt: int,
    speed: int,
    dead: int,
) -> bool {
    &&& wf(c)
    &&& positions_within(c, POS_LIMIT as int)
    &&& in_range(target, TARGET_LIMIT as int)
    &&& in_range(movement, MAX_OFF as int)
    &&& 0 <= dt <= DT_LIMIT as int
    &&& 0 <= speed <= MAX_LINK as int
    &&& 0 <= dead <= MAX_LINK as int
}

/// Per-joint facts about one step: sizes are kept, facings stay usable,
/// positions stay within the step budget, and every trailing joint ends
/// at its link distance from its predecessor up to the rounding band.
pub proof fn lemma_step_joint(
    c: GChain,
    target: GVec,
    movement: GVec,
    dt: int,
    speed: int,
    dead: int,
    i: int,
)
    requires
        step_pre(c, target, movement, dt, speed, dead),
        0 <= i < c.joints.len(),
    ensures
        in_range(
            step_joint(c, target, movement, dt, speed, dead, i).pos,
            POS_LIMIT as int + 0x80000000 + (i + 1) * (2 * (MAX_LINK as int) + 1),
        ),
        facing_ok(step_joint(c, target, movement, dt, speed, dead, i).facing),
        step_joint(c, target, movement, dt, speed, dead, i).size == c.joints[i].size,
        i >= 1 ==> close_to_length(
            gdist_sq(
                step_joint(c, target, movement, dt, speed, dead, i).pos,
                step_joint(c, target, movement, dt, speed, dead, i - 1).pos,
            ),
            c.link[i],
        ),
        i == 0 ==> in_range(
            gsub(step_joint(c, target, movement, dt, speed, dead, 0).pos, c.joints[0].pos),
            0x80000000,
        ),
        i >= 1 ==> in_range(
            gsub(
                step_joint(c, target, movement, dt, speed, dead, i).pos,
                step_joint(c, target, movement, dt, speed, dead, i - 1).pos,
            ),
            2 * (MAX_LINK as int) + 1,
        ),
    decreases i,
{
    let stretch = 2 * (MAX_LINK as int) + 1;
    if i == 0 {
        let h = c.joints[0];
        let hj = head_spec(c, target, movement, dt, speed, dead);
        assert(joint_ok(h));
        assert(0 <= 1 * stretch) by (nonlinear_arith)
            requires
                stretch == 0x2000001,
        ;
        if gdist_sq(target, h.pos) <= dead * dead {
        } else if gzero(movement) {
        } else {
            let adv = speed * dt / 1000;
            assert(0 <= speed * dt <= 0x10000000000) by (nonlinear_arith)
                requires
                    0 <= speed <= 0x1000000,
                    0 <= dt <= 0x10000,
            ;
            assert(0 <= adv <= 0x80000000) by {
                vstd::arithmetic::div_mod::lemma_div_pos_is_pos(speed * dt, 1000);
                vstd::arithmetic::div_mod::lemma_div_is_ordered(speed * dt, 0x10000000000, 1000);
            };
            lemma_scale_len_props(movement, adv);
            lemma_scale_len_props(movement, UNIT as int);
            lemma_dir_nonzero(scale_len(movement, UNIT as int));
            assert(facing_ok(hj.facing));
            assert(in_range(hj.pos, POS_LIMIT as int + 0x80000000));
        }
    } else {
        lemma_step_joint(c, target, movement, dt, speed, dead, i - 1);
        assert(i * stretch <= (MAX_JOINTS as int) * stretch && 0 <= i * stretch && (i + 1)
            * stretch == i * stretch + stretch) by (nonlinear_arith)
            requires
                0 <= i <= MAX_JOINTS as int,
                stretch == 0x2000001,
        ;
        let h = step_joint(c, target, movement, dt, speed, dead, i - 1);
        let t = c.joints[i];
        assert(joint_ok(t));
        assert(in_range(h.pos, PLACE_POS as int));
        assert(in_range(t.pos, PLACE_POS as int));
        let f = dir_spec(t.pos, h.pos, t.facing);
        if gzero(gsub(h.pos, t.pos)) {
            assert(f == t.facing);
        } else {
            lemma_scale_len_props(gsub(h.pos, t.pos), UNIT as int);
            lemma_dir_nonzero(f);
        }
        assert(facing_ok(f));
        assert(!gzero(gneg(f)) && in_range(gneg(f), MAX_OFF as int));
        lemma_place_props(h.pos, t.pos, c.link[i], gneg(f));
        let j1pos = place_spec(h.pos, t.pos, c.link[i], gneg(f));
        assert(in_range(gsub(j1pos, h.pos), stretch));
        let res = step_joint(c, target, movement, dt, speed, dead, i);
        if i == c.joints.len() - 1 || dt == 0 {
        } else {
            let s = match bend_of(h.facing, f) {
                Bend::Within => 0,
                Bend::Ccw => -dt,
                Bend::Cw => dt,
            };
            let w = gsub(j1pos, h.pos);
            if s == 0 || gzero(w) {
            } else {
                let r = rot_raw(w, s);
                lemma_rot_raw(w, s);
                assert(-0x80000000000 <= s * w.y <= 0x80000000000 && -0x80000000000 <= s
                    * w.x <= 0x80000000000) by (nonlinear_arith)
                    requires
                        -0x10000 <= s <= 0x10000,
                        in_range(w, 0x2000001),
                ;
                assert(in_range(r, MAX_OFF as int));
                assert(!gzero(r)) by {
                    if r.x == 0 && r.y == 0 {
                        assert(glen_sq(r) == 0) by (nonlinear_arith)
                            requires
                                r.x == 0,
                                r.y == 0,
                        ;
                        assert(glen_sq(w) >= 1) by (nonlinear_arith)
                            requires
                                !(w.x == 0 && w.y == 0),
                                glen_sq(w) == w.x * w.x + w.y * w.y,
                        ;
                        assert(((ROT_DEN as int) * (ROT_DEN as int) + s * s) * glen_sq(w)
                            >= 10000) by (nonlinear_arith)
                            requires
                                glen_sq(w) >= 1,
                        ;
                    }
                };
                lemma_scale_len_props(r, c.link[i]);
                assert(close_to_length(gdist_sq(res.pos, h.pos), c.link[i])) by {
                    assert(gsub(res.pos, h.pos) == scale_len(r, c.link[i]));
                };
                assert(in_range(gsub(res.pos, h.pos), stretch));
            }
        }
    }
}

/// Every stepped joint stays within the head's old position plus the
/// head advance plus the reach accumulated up to it.
proof fn lemma_step_joint_near_head(
    c: GChain,
    target: GVec,
    movement: GVec,
    dt: int,
    speed: int,
    dead: int,
    i: int,
)
    requires
        step_pre(c, target, movement, dt, speed, dead),
        in_range(c.joints[0].pos, HEAD_LIMIT as int),
        0 <= i < c.joints.len(),
    ensures
        in_range(
            step_joint(c, target, movement, dt, speed, dead, i).pos,
            HEAD_LIMIT as int + 0x80000000 + i * (2 * (MAX_LINK as int) + 1),
        ),
    decreases i,
{
    let stretch = 2 * (MAX_LINK as int) + 1;
    lemma_step_joint(c, target, movement, dt, speed, dead, i);
    if i == 0 {
        assert(0 * stretch == 0) by (nonlinear_arith);
    } else {
        lemma_step_joint_near_head(c, target, movement, dt, speed, dead, i - 1);
        assert((i - 1) * stretch + stretch == i * stretch) by (nonlinear_arith);
    }
}

/// A verified frame loop can iterate `step`: while the head stays within
/// `HEAD_LIMIT`, the stepped chain's positions are again within
/// `POS_LIMIT`, so together with `step`'s other ensures the result
/// satisfies `step_pre` for the next frame.
pub proof fn lemma_step_chainable(
    c: GChain,
    target: GVec,
    movement: GVec,
    dt: int,
    speed: int,
    dead: int,
)
    requires
        step_pre(c, target, movement, dt, speed, dead),
        in_range(c.joints[0].pos, HEAD_LIMIT as int),
    ensures
        positions_within(step_spec(c, target, movement, dt, speed, dead), POS_LIMIT as int),
{
    let stretch = 2 * (MAX_LINK as int) + 1;
    assert forall|i: int| 0 <= i < c.joints.len() implies in_range(
        #[trigger] step_spec(c, target, movement, dt, speed, dead).joints[i].pos,
        POS_LIMIT as int,
    ) by {
        lemma_step_joint_near_head(c, target, movement, dt, speed, dead, i);
        assert(0 <= i * stretch <= (MAX_JOINTS as int) * stretch) by (nonlinear_arith)
            requires
                0 <= i <= MAX_JOINTS as int,
                stretch == 0x2000001,
        ;
    }
}

/// With `dt == 0`, one joint of a settled chain does not move: the head
/// advance is zero, a link already inside the rounding band is kept, and
/// no clamp rotation is applied.
pub proof fn lemma_step_joint_dt_zero(
    c: GChain,
    target: GVec,
    movement: GVec,
    speed: int,
    dead: int,
    i: int,
)
    requires
        step_pre(c, target, movement, 0, speed, dead),
        links_close(c),
        0 <= i < c.joints.len(),
    ensures
        step_joint(c, target, movement, 0, speed, dead, i).pos == c.joints[i].pos,
    decreases i,
{
    if i == 0 {
        let h = c.joints[0];
        if gdist_sq(target, h.pos) <= dead * dead {
        } else if gzero(movement) {
        } else {
            assert(speed * 0 == 0) by (nonlinear_arith);
            assert(0int / 1000 == 0) by {
                vstd::arithmetic::div_mod::lemma_div_multiples_vanish(0, 1000);
                assert(1000 * 0 == 0) by (nonlinear_arith);
            };
            lemma_scale_len_zero_length(movement);
            assert(head_spec(c, target, movement, 0, speed, dead).pos == gadd(
                h.pos,
                GVec { x: 0, y: 0 },
            ));
        }
    } else {
        lemma_step_joint_dt_zero(c, target, movement, speed, dead, i - 1);
        let h = step_joint(c, target, movement, 0, speed, dead, i - 1);
        let t = c.joints[i];
        assert(h.pos == c.joints[i - 1].pos);
        let off = gsub(t.pos, h.pos);
        assert(close_to_length(gdist_sq(c.joints[i].pos, c.joints[i - 1].pos), c.link[i]));
        assert(glen_sq(off) == gdist_sq(c.joints[i].pos, c.joints[i - 1].pos));
        let f = dir_spec(t.pos, h.pos, t.facing);
        assert(place_spec(h.pos, t.pos, c.link[i], gneg(f)) == t.pos);
    }
}

/// Degenerate frame time: a step with `dt == 0` leaves every position of
/// a settled chain unchanged (facings may still be refreshed).
pub proof fn lemma_step_dt_zero(c: GChain, target: GVec, movement: GVec, speed: int, dead: int)
    requires
        step_pre(c, target, movement, 0, speed, dead),
        links_close(c),
    ensures
        forall|i: int|
            0 <= i < c.joints.len() ==> #[trigger] step_spec(
                c,
                target,
                movement,
                0,
                speed,
                dead,
            ).joints[i].pos == c.joints[i].pos,
{
    assert forall|i: int| 0 <= i < c.joints.len() implies #[trigger] step_spec(
        c,
        target,
        movement,
        0,
        speed,
        dead,
    ).joints[i].pos == c.joints[i].pos by {
        lemma_step_joint_dt_zero(c, target, movement, speed, dead, i);
    }
}

/// Classify the deviation of facing `v` from facing `u`.
pub fn bend_check(u: Vec2, v: Vec2) -> (r: Bend)
    requires
        in_range(u@, 4 * (UNIT as int)),
        in_range(v@, 4 * (UNIT as int)),
    ensures
        r == bend_of(u@, v@),
{
    proof {
        assert(-0x1000000 <= (u@.x) * (v@.x) <= 0x1000000 && -0x1000000 <= (u@.y) * (v@.y)
            <= 0x1000000 && -0x1000000 <= (u@.x) * (v@.y) <= 0x1000000 && -0x1000000 <= (
        u@.y) * (v@.x) <= 0x1000000) by (nonlinear_arith)
            requires
                in_range(u@, 4096),
                in_range(v@, 4096),
        ;
    }
    let dot: i64 = u.x * v.x + u.y * v.y;
    let cross: i64 = u.x * v.y - u.y * v.x;
    let d128 = dot as i128;
    let c128 = cross as i128;
    proof {
        assert(dot as int == gdot(u@, v@) && cross as int == gcross(u@, v@)
            && -0x4000000 <= dot <= 0x4000000 && -0x4000000 <= cross <= 0x4000000);
        assert(0 <= c128 * c128 <= 0x10000000000000 && 0 <= d128 * d128
            <= 0x10000000000000) by (nonlinear_arith)
            requires
                -0x4000000 <= d128 <= 0x4000000,
                -0x4000000 <= c128 <= 0x4000000,
        ;
        assert(c128 * c128 * (1000i128 * 1000) <= 0x10000000000000000000 && d128 * d128 * (
        268i128 * 268) <= 0x10000000000000000000 && c128 * c128 * (1000i128 * 1000)
            == gcross(u@, v@) * gcross(u@, v@) * ((TAN_DEN as int) * (TAN_DEN as int))
            && d128 * d128 * (268i128 * 268) == gdot(u@, v@) * gdot(u@, v@) * ((TAN_NUM
            as int) * (TAN_NUM as int))) by (nonlinear_arith)
            requires
                0 <= c128 * c128 <= 0x10000000000000,
                0 <= d128 * d128 <= 0x10000000000000,
                d128 as int == gdot(u@, v@),
                c128 as int == gcross(u@, v@),
        ;
    }
    if dot > 0 && c128 * c128 * (1000i128 * 1000) <= d128 * d128 * (268i128 * 268) {
        Bend::Within
    } else if cross >= 0 {
        Bend::Ccw
    } else {
        Bend::Cw
    }
}

/// One follow step. The head advances under external control; every
/// trailing joint ends at its link distance from its predecessor up to
/// the rounding band, whatever `dt` is.
pub fn step(
    chain: &mut Chain,
    target: Vec2,
    movement: Vec2,
    dt: i64,
    speed: i64,
    dead_zone: i64,
)
    requires
        step_pre(old(chain)@, target@, movement@, dt as int, speed as int, dead_zone as int),
    ensures
        final(chain)@ == step_spec(
            old(chain)@,
            target@,
            movement@,
            dt as int,
            speed as int,
            dead_zone as int,
        ),
        wf(final(chain)@),
        positions_within(final(chain)@, STEP_BOUND as int),
        links_close(final(chain)@),
        final(chain)@.link == old(chain)@.link,
        final(chain)@.joints.len() == old(chain)@.joints.len(),
{
    let ghost c0 = chain@;
    let ghost tg = target@;
    let ghost mv = movement@;
    let ghost sdt = dt as int;
    let ghost ssp = speed as int;
    let ghost sdz = dead_zone as int;
    let n = chain.joints.len();
    // head update
    let h = chain.joints[0];
    proof {
        assert(chain@.joints[0] == chain.joints@[0]@);
        assert(h@ == c0.joints[0]);
        assert(joint_ok(c0.joints[0]));
        assert(in_range(c0.joints[0].pos, POS_LIMIT as int));
    }
    let dd = target.dist_sq(h.pos);
    proof {
        assert(0 <= (dead_zone as i128) * (dead_zone as i128) <= 0x1000000000000 && (
        dead_zone as i128) * (dead_zone as i128) == sdz * sdz) by (nonlinear_arith)
            requires
                0 <= dead_zone <= 0x1000000,
                sdz == dead_zone as int,
        ;
    }
    if dd <= (dead_zone as i128) * (dead_zone as i128) {
        // head stays; nothing to do
    } else if movement.x == 0 && movement.y == 0 {
        // no drive: head stays
    } else {
        proof {
            assert(0 <= speed * dt <= 0x10000000000) by (nonlinear_arith)
                requires
                    0 <= speed <= 0x1000000,
                    0 <= dt <= 0x10000,
            ;
            assert(0 <= (speed * dt) / 1000 <= 0x80000000) by {
                vstd::arithmetic::div_mod::lemma_div_pos_is_pos(speed as int * dt as int, 1000);
                vstd::arithmetic::div_mod::lemma_div_is_ordered(
                    speed as int * dt as int,
                    0x10000000000,
                    1000,
                );
            };
        }
        let adv = speed * dt / 1000;
        let ghost pre = chain@.joints;
        let ghost pres = chain.joints@;
        let step_off = scale_to_length(movement, adv);
        let f = scale_to_length(movement, UNIT);
        chain.joints.set(0, Joint { pos: h.pos.plus(step_off), facing: f, size: h.size });
        proof {
            assert forall|k: int| 0 <= k < n && k != 0 implies #[trigger] chain@.joints[k]
                == pre[k] by {
                assert(chain.joints@[k] == pres[k]);
                assert(chain@.joints[k] == chain.joints@[k]@);
                assert(pre[k] == pres[k]@);
            }
        }
    }
    proof {
        assert(chain@.joints[0] == head_spec(c0, tg, mv, sdt, ssp, sdz));
        assert(chain@.joints[0] == step_joint(c0, tg, mv, sdt, ssp, sdz, 0));
    }
    // trailing joints
    let mut i: usize = 1;
    while i < n
        invariant
            step_pre(c0, tg, mv, sdt, ssp, sdz),
            n == c0.joints.len(),
            chain@.joints.len() == n,
            chain@.link == c0.link,
            chain.link_distance@.len() == n,
            tg == target@,
            mv == movement@,
            sdt == dt as int,
            ssp == speed as int,
            sdz == dead_zone as int,
            0 <= dt,
            1 <= i <= n,
            forall|k: int|
                0 <= k < i ==> #[trigger] chain@.joints[k] == step_joint(
                    c0,
                    tg,
                    mv,
                    sdt,
                    ssp,
                    sdz,
                    k,
                ),
            forall|k: int| i <= k < n ==> #[trigger] chain@.joints[k] == c0.joints[k],
        decreases n - i,
    {
        proof {
            lemma_step_joint(c0, tg, mv, sdt, ssp, sdz, i - 1);
            let stretch = 2 * (MAX_LINK as int) + 1;
            assert(0 <= (i as int) * stretch <= (MAX_JOINTS as int) * stretch)
                by (nonlinear_arith)
                requires
                    0 <= i as int <= MAX_JOINTS as int,
                    stretch == 0x2000001,
            ;
            assert(joint_ok(c0.joints[i as int]));
        }
        let hj = chain.joints[i - 1];
        let t = chain.joints[i];
        proof {
            assert(chain@.joints[i - 1] == chain.joints@[i - 1]@);
            assert(chain@.joints[i as int] == chain.joints@[i as int]@);
            assert(hj@ == step_joint(c0, tg, mv, sdt, ssp, sdz, i - 1));
            assert(t@ == c0.joints[i as int]);
            assert(in_range(hj@.pos, PLACE_POS as int));
            assert(in_range(t@.pos, PLACE_POS as int));
        }
        let f = dir_toward(t.pos, hj.pos, t.facing);
        let l = chain.link_distance[i];
        proof {
            assert(l as int == c0.link[i as int]);
            assert(in_range(f@, MAX_OFF as int) && !gzero(f@)) by {
                assert(facing_ok(t@.facing));
            };
        }
        let fb = f.negated();
        let p1 = place_at(hj.pos, t.pos, l, fb);
        let ghost j1 = GJoint { pos: p1@, facing: f@, size: t@.size };
        let mut newj = Joint { pos: p1, facing: f, size: t.size };
        if i != n - 1 && dt != 0 {
            let b = bend_check(hj.facing, f);
            proof {
                assert(facing_ok(hj@.facing)) by {
                    lemma_step_joint(c0, tg, mv, sdt, ssp, sdz, i - 1);
                };
            }
            let s: i64 = match b {
                Bend::Within => 0,
                Bend::Ccw => -dt,
                Bend::Cw => dt,
            };
            let w = p1.minus(hj.pos);
            if s != 0 && !(w.x == 0 && w.y == 0) {
                proof {
                    assert(in_range(w@, 2 * (l as int) + 1));
                    assert(in_range(w@, 0x2000001));
                    lemma_rot_raw(w@, s as int);
                    assert(!gzero(rot_raw(w@, s as int))) by {
                        let r = rot_raw(w@, s as int);
                        if r.x == 0 && r.y == 0 {
                            assert(glen_sq(r) == 0) by (nonlinear_arith)
                                requires
                                    r.x == 0,
                                    r.y == 0,
                            ;
                            assert(glen_sq(w@) >= 1) by (nonlinear_arith)
                                requires
                                    !(w@.x == 0 && w@.y == 0),
                                    glen_sq(w@) == w@.x * w@.x + w@.y * w@.y,
                            ;
                            assert(((ROT_DEN as int) * (ROT_DEN as int) + (s as int) * (s
                                as int)) * glen_sq(w@) >= 10000) by (nonlinear_arith)
                                requires
                                    glen_sq(w@) >= 1,
                            ;
                        }
                    };
                    assert(100 * w@.x - (s as int) * w@.y == (ROT_DEN as int) * w@.x - (s
                        as int) * w@.y);
                    assert(-0x80000000000 <= (s as int) * w@.y <= 0x80000000000
                        && -0x80000000000 <= (s as int) * w@.x <= 0x80000000000)
                        by (nonlinear_arith)
                        requires
                            -0x10000 <= s as int <= 0x10000,
                            in_range(w@, 0x2000001),
                    ;
                }
                let rot = Vec2 { x: 100 * w.x - s * w.y, y: 100 * w.y + s * w.x };
                proof {
                    assert(rot@ == rot_raw(w@, s as int));
                    assert(in_range(rot@, MAX_OFF as int));
                }
                let rp = hj.pos.plus(scale_to_length(rot, l));
                newj = Joint { pos: rp, facing: f, size: t.size };
            }
        }
        let ghost pre = chain@.joints;
        let ghost pres = chain.joints@;
        chain.joints.set(i, newj);
        proof {
            assert(chain@.joints[i as int] == step_joint(c0, tg, mv, sdt, ssp, sdz, i as int));
            assert forall|k: int| 0 <= k < n && k != i as int implies #[trigger] chain@.joints[k]
                == pre[k] by {
                assert(chain.joints@[k] == pres[k]);
                assert(chain@.joints[k] == chain.joints@[k]@);
                assert(pre[k] == pres[k]@);
            }
        }
        i += 1;
    }
    proof {
        assert(chain@.joints =~= step_spec(c0, tg, mv, sdt, ssp, sdz).joints);
        assert(chain@ =~= step_spec(c0, tg, mv, sdt, ssp, sdz));
        assert forall|k: int| 0 <= k < n implies joint_ok(#[trigger] chain@.joints[k]) by {
            lemma_step_joint(c0, tg, mv, sdt, ssp, sdz, k);
            assert(0 <= c0.joints[k].size <= MAX_LINK as int);
        }
        assert forall|k: int| 0 <= k < n implies in_range(
            #[trigger] chain@.joints[k].pos,
            STEP_BOUND as int,
        ) by {
            lemma_step_joint(c0, tg, mv, sdt, ssp, sdz, k);
            let stretch = 2 * (MAX_LINK as int) + 1;
            assert((k + 1) * stretch <= (MAX_JOINTS as int) * stretch) by (nonlinear_arith)
                requires
                    0 <= k < c0.joints.len() <= MAX_JOINTS as int,
                    stretch == 0x2000001,
            ;
        }
        assert forall|k: int|
            1 <= k < n implies close_to_length(
            #[trigger] gdist_sq(chain@.joints[k].pos, chain@.joints[k - 1].pos),
            chain@.link[k],
        ) by {
            lemma_step_joint(c0, tg, mv, sdt, ssp, sdz, k);
        }
    }
}

} // verus!
