//! Two-pass reaching solver. One call performs a head-to-tip pass that
//! drags every joint behind the target, then a tip-to-head pass that
//! re-anchors each joint on its successor and recomputes its facing. The
//! head (joint 0) owes no distance to anything, so it lands on the target
//! exactly; every other joint ends at its link distance from its
//! predecessor, up to the rounding band `close_to_length`.
//!
//! The solver runs exactly one double pass per call: convergence emerges
//! from repeated per-frame calls, keeping motion continuous.

use crate::chain::{Chain, GChain, MAX_JOINTS, POS_LIMIT, links_close, positions_within, wf};
use crate::joint::{GJoint, Joint, MAX_LINK, facing_ok, joint_ok};
use crate::norm::{
    MAX_OFF, MAX_SCALE, PLACE_POS, close_to_length, dir_spec, lemma_dir_nonzero,
    lemma_place_props, lemma_scale_len_props, place_at, place_spec, dir_toward,
};
use crate::vec2::{GVec, UNIT, Vec2, gadd, gdist_sq, glen_sq, gsub, gzero, in_range};
use vstd::prelude::*;

verus! {

/// Largest coordinate magnitude of a target the solver accepts.
pub const TARGET_LIMIT: i64 = 0x80000000000;

/// Position of joint `i` after the first pass: joint 0 is pulled onto the
/// target (its link distance is 0), and each later joint is placed at its
/// link distance from the joint before it.
pub open spec fn back_pos(c: GChain, target: GVec, i: int) -> GVec
    decreases i,
{
    if i <= 0 {
        place_spec(target, c.joints[0].pos, c.link[0], c.joints[0].facing)
    } else {
        place_spec(back_pos(c, target, i - 1), c.joints[i].pos, c.link[i], c.joints[i].facing)
    }
}

/// Joint `i` after the second pass: the tip keeps its first-pass position
/// and facing; every other joint takes its facing from the direction of
/// its successor toward it and is re-anchored on its successor; the head
/// keeps its first-pass position (the target) and only refreshes facing.
pub open spec fn fwd_joint(c: GChain, target: GVec, i: int) -> GJoint
    decreases c.joints.len() - i,
{
    let n = c.joints.len() as int;
    if i >= n - 1 {
        GJoint {
            pos: back_pos(c, target, i),
            facing: c.joints[i].facing,
            size: c.joints[i].size,
        }
    } else {
        let anchor = fwd_joint(c, target, i + 1).pos;
        let f = dir_spec(anchor, back_pos(c, target, i), c.joints[i].facing);
        if i <= 0 {
            GJoint { pos: back_pos(c, target, 0), facing: f, size: c.joints[0].size }
        } else {
            GJoint {
                pos: place_spec(anchor, back_pos(c, target, i), c.link[i + 1], f),
                facing: f,
                size: c.joints[i].size,
            }
        }
    }
}

/// The whole chain after one solver call.
pub open spec fn solve_spec(c: GChain, target: GVec) -> GChain {
    GChain {
        joints: Seq::new(c.joints.len(), |i: int| fwd_joint(c, target, i)),
        link: c.link,
    }
}

/// Inputs `solve` accepts: a well-formed chain whose positions and target
/// are within the coordinate budget.
pub open spec fn solve_pre(c: GChain, target: GVec) -> bool {
    &&& wf(c)
    &&& positions_within(c, POS_LIMIT as int)
    &&& in_range(target, TARGET_LIMIT as int)
}

/// First-pass facts: the head lands on the target exactly, every joint
/// ends within the coordinate budget, and every link holds its distance up
/// to the rounding band.
pub proof fn lemma_back_pos(c: GChain, target: GVec, i: int)
    requires
        solve_pre(c, target),
        0 <= i < c.joints.len(),
    ensures
        in_range(back_pos(c, target, i), TARGET_LIMIT as int + (i + 1) * (2 * (MAX_LINK
            as int) + 1)),
        i == 0 ==> back_pos(c, target, i) == target,
        i >= 1 ==> close_to_length(
            gdist_sq(back_pos(c, target, i), back_pos(c, target, i - 1)),
            c.link[i],
        ),
    decreases i,
{
    if i == 0 {
        let p0 = c.joints[0].pos;
        let f0 = c.joints[0].facing;
        lemma_place_props(target, p0, 0, f0);
        let off = gsub(p0, target);
        if close_to_length(glen_sq(off), 0) {
            assert(glen_sq(off) * ((UNIT as int) * (UNIT as int)) <= 0);
            assert(glen_sq(off) == 0) by (nonlinear_arith)
                requires
                    glen_sq(off) * ((UNIT as int) * (UNIT as int)) <= 0,
                    glen_sq(off) == off.x * off.x + off.y * off.y,
                    UNIT as int == 1024,
            ;
            assert(off.x == 0 && off.y == 0) by (nonlinear_arith)
                requires
                    off.x * off.x + off.y * off.y == 0,
            ;
            assert(back_pos(c, target, 0) == p0);
            assert(p0 == target);
        } else if gzero(off) {
            // unreachable: a zero offset has squared length 0, and the
            // band for link distance 0 contains 0
            assert(glen_sq(off) == 0) by (nonlinear_arith)
                requires
                    off.x == 0,
                    off.y == 0,
                    glen_sq(off) == off.x * off.x + off.y * off.y,
            ;
            crate::norm::lemma_exact_is_close(0);
            assert(false);
        } else {
            crate::norm::lemma_scale_len_zero_length(off);
            assert(back_pos(c, target, 0) == target);
        }
        assert(back_pos(c, target, 0) == target);
        assert(0 <= 1 * (2 * (MAX_LINK as int) + 1)) by (nonlinear_arith);
    } else {
        lemma_back_pos(c, target, i - 1);
        let stretch = 2 * (MAX_LINK as int) + 1;
        assert((i - 1 + 1) * stretch == i * stretch);
        assert(i * stretch <= (MAX_JOINTS as int) * stretch && 0 <= i * stretch && (i + 1)
            * stretch == i * stretch + stretch) by (nonlinear_arith)
            requires
                0 <= i <= MAX_JOINTS as int,
                stretch == 0x2000001,
        ;
        let anchor = back_pos(c, target, i - 1);
        let cur = c.joints[i].pos;
        let fb = c.joints[i].facing;
        assert(in_range(anchor, TARGET_LIMIT as int + i * stretch));
        assert(in_range(anchor, PLACE_POS as int));
        assert(in_range(cur, PLACE_POS as int));
        lemma_place_props(anchor, cur, c.link[i], fb);
        let r = back_pos(c, target, i);
        assert(in_range(gsub(r, anchor), stretch));
    }
}

/// Every first-pass position stays inside the coordinate budget.
pub proof fn lemma_back_pos_budget(c: GChain, target: GVec, i: int)
    requires
        solve_pre(c, target),
        0 <= i < c.joints.len(),
    ensures
        in_range(back_pos(c, target, i), POS_LIMIT as int),
        in_range(back_pos(c, target, i), PLACE_POS as int),
{
    lemma_back_pos(c, target, i);
    let stretch = 2 * (MAX_LINK as int) + 1;
    assert(0 <= (i + 1) * stretch <= (MAX_JOINTS as int) * stretch) by (nonlinear_arith)
        requires
            0 <= i + 1 <= MAX_JOINTS as int,
            stretch == 0x2000001,
    ;
    assert(in_range(back_pos(c, target, i), TARGET_LIMIT as int + (i + 1) * stretch));
}

/// Second-pass facts: every position is exactly its first-pass position
/// (a freshly constrained link is already inside the rounding band, so the
/// second pass only refreshes facings), sizes are kept, facings stay
/// usable.
pub proof fn lemma_fwd_joint(c: GChain, target: GVec, i: int)
    requires
        solve_pre(c, target),
        0 <= i < c.joints.len(),
    ensures
        fwd_joint(c, target, i).pos == back_pos(c, target, i),
        fwd_joint(c, target, i).size == c.joints[i].size,
        facing_ok(fwd_joint(c, target, i).facing),
    decreases c.joints.len() - i,
{
    let n = c.joints.len() as int;
    lemma_back_pos(c, target, i);
    if i >= n - 1 {
        assert(joint_ok(c.joints[i]));
    } else {
        lemma_fwd_joint(c, target, i + 1);
        lemma_back_pos(c, target, i + 1);
        let anchor = fwd_joint(c, target, i + 1).pos;
        assert(anchor == back_pos(c, target, i + 1));
        let bp = back_pos(c, target, i);
        // the link constraint established by the first pass, seen from the
        // other end
        let off = gsub(bp, anchor);
        assert(glen_sq(off) == gdist_sq(back_pos(c, target, i + 1), bp)) by (nonlinear_arith)
            requires
                off.x == bp.x - back_pos(c, target, i + 1).x,
                off.y == bp.y - back_pos(c, target, i + 1).y,
                anchor == back_pos(c, target, i + 1),
        ;
        assert(close_to_length(glen_sq(off), c.link[i + 1]));
        let f = dir_spec(anchor, bp, c.joints[i].facing);
        if gzero(gsub(bp, anchor)) {
            assert(f == c.joints[i].facing);
            assert(facing_ok(f));
        } else {
            lemma_scale_len_props(gsub(bp, anchor), UNIT as int);
            lemma_dir_nonzero(f);
            assert(facing_ok(f));
        }
        if i > 0 {
            assert(fwd_joint(c, target, i).pos == place_spec(anchor, bp, c.link[i + 1], f));
            assert(fwd_joint(c, target, i).pos == bp);
        }
    }
}

/// Everything one solver call guarantees, stated of the spec-level result:
/// the solved chain is again acceptable input for the solver, every link
/// holds its distance up to the rounding band, and the head sits on the
/// target.
pub proof fn lemma_solve_spec_props(c: GChain, target: GVec)
    requires
        solve_pre(c, target),
    ensures
        solve_pre(solve_spec(c, target), target),
        links_close(solve_spec(c, target)),
        solve_spec(c, target).joints[0].pos == target,
        solve_spec(c, target).link == c.link,
        solve_spec(c, target).joints.len() == c.joints.len(),
        forall|k: int|
            0 <= k < c.joints.len() ==> #[trigger] solve_spec(c, target).joints[k] == fwd_joint(
                c,
                target,
                k,
            ),
{
    let s = solve_spec(c, target);
    let n = c.joints.len() as int;
    assert forall|k: int| 0 <= k < n implies joint_ok(#[trigger] s.joints[k]) by {
        lemma_fwd_joint(c, target, k);
        assert(0 <= fwd_joint(c, target, k).size <= MAX_LINK as int);
    }
    assert forall|k: int| 0 <= k < n implies in_range(
        #[trigger] s.joints[k].pos,
        POS_LIMIT as int,
    ) by {
        lemma_fwd_joint(c, target, k);
        lemma_back_pos_budget(c, target, k);
    }
    lemma_back_pos(c, target, 0);
    lemma_fwd_joint(c, target, 0);
    assert(s.joints[0].pos == target);
    assert forall|k: int|
        1 <= k < n implies close_to_length(
        #[trigger] gdist_sq(s.joints[k].pos, s.joints[k - 1].pos),
        s.link[k],
    ) by {
        lemma_fwd_joint(c, target, k);
        lemma_fwd_joint(c, target, k - 1);
        lemma_back_pos(c, target, k);
    }
}

/// On a settled chain (head on the target, every link inside the band) the
/// first pass moves nothing.
pub proof fn lemma_back_pos_settled(c: GChain, target: GVec, i: int)
    requires
        solve_pre(c, target),
        links_close(c),
        c.joints[0].pos == target,
        0 <= i < c.joints.len(),
    ensures
        back_pos(c, target, i) == c.joints[i].pos,
    decreases i,
{
    if i == 0 {
        let off = gsub(c.joints[0].pos, target);
        assert(glen_sq(off) == 0) by (nonlinear_arith)
            requires
                off.x == 0,
                off.y == 0,
                glen_sq(off) == off.x * off.x + off.y * off.y,
        ;
        assert(close_to_length(0, c.link[0]));
    } else {
        lemma_back_pos_settled(c, target, i - 1);
        let off = gsub(c.joints[i].pos, c.joints[i - 1].pos);
        assert(close_to_length(gdist_sq(c.joints[i].pos, c.joints[i - 1].pos), c.link[i]));
        assert(glen_sq(off) == gdist_sq(c.joints[i].pos, c.joints[i - 1].pos));
    }
}

/// On the chain a solver call produced, the second pass reproduces every
/// joint exactly.
pub proof fn lemma_fwd_settled(c: GChain, target: GVec, i: int)
    requires
        solve_pre(c, target),
        0 <= i < c.joints.len(),
    ensures
        fwd_joint(solve_spec(c, target), target, i) == solve_spec(c, target).joints[i],
    decreases c.joints.len() - i,
{
    let c1 = solve_spec(c, target);
    let n = c.joints.len() as int;
    lemma_solve_spec_props(c, target);
    lemma_back_pos_settled(c1, target, i);
    lemma_fwd_joint(c, target, i);
    assert(c1.joints[i] == fwd_joint(c, target, i));
    if i >= n - 1 {
        assert(fwd_joint(c1, target, i) == c1.joints[i]);
    } else {
        lemma_fwd_settled(c, target, i + 1);
        lemma_back_pos_settled(c1, target, i + 1);
        lemma_fwd_joint(c, target, i + 1);
        let anchor = fwd_joint(c1, target, i + 1).pos;
        assert(anchor == c1.joints[i + 1].pos);
        assert(c1.joints[i + 1].pos == back_pos(c, target, i + 1));
        assert(c1.joints[i].pos == back_pos(c, target, i));
        // the facing recomputed from identical positions is the facing the
        // first call stored
        let off2 = gsub(back_pos(c1, target, i), anchor);
        let off1 = gsub(back_pos(c, target, i), fwd_joint(c, target, i + 1).pos);
        assert(off1 == off2);
        let f2 = dir_spec(anchor, back_pos(c1, target, i), c1.joints[i].facing);
        assert(c1.joints[i].facing == dir_spec(
            fwd_joint(c, target, i + 1).pos,
            back_pos(c, target, i),
            c.joints[i].facing,
        ));
        assert(f2 == c1.joints[i].facing);
        if i > 0 {
            // the link constraint already holds, so placement keeps the point
            let offp = gsub(back_pos(c1, target, i), anchor);
            assert(close_to_length(
                gdist_sq(c1.joints[i + 1].pos, c1.joints[i].pos),
                c1.link[i + 1],
            ));
            assert(glen_sq(offp) == gdist_sq(c1.joints[i + 1].pos, c1.joints[i].pos))
                by (nonlinear_arith)
                requires
                    offp.x == c1.joints[i].pos.x - c1.joints[i + 1].pos.x,
                    offp.y == c1.joints[i].pos.y - c1.joints[i + 1].pos.y,
            ;
            assert(place_spec(anchor, back_pos(c1, target, i), c1.link[i + 1], f2)
                == back_pos(c1, target, i));
            assert(fwd_joint(c1, target, i) == c1.joints[i]);
        } else {
            assert(fwd_joint(c1, target, i) == c1.joints[i]);
        }
    }
}

/// Total link distance of joints 1 through `i`: how far joint `i` can sit
/// from the head.
pub open spec fn reach(c: GChain, i: int) -> int
    decreases i,
{
    if i <= 0 {
        0
    } else {
        reach(c, i - 1) + c.link[i]
    }
}

/// The chain lies on the target's horizontal line, to its left, with each
/// joint strictly beyond where the first pass puts its predecessor (by
/// more than the rounding band around its link distance).
pub open spec fn colinear_beyond(c: GChain, target: GVec) -> bool {
    forall|i: int|
        1 <= i < c.joints.len() ==> (#[trigger] c.joints[i].pos.y == target.y
            && c.joints[i].pos.x < target.x - reach(c, i - 1) - (c.link[i] + c.link[i] / (
        UNIT as int) + 1))
}

/// The chain's reach grows by at most one link distance per joint.
pub proof fn lemma_reach_bound(c: GChain, i: int)
    requires
        wf(c),
        0 <= i < c.joints.len(),
    ensures
        0 <= reach(c, i) <= (MAX_JOINTS as int) * (MAX_LINK as int),
        0 <= reach(c, i) <= i * (MAX_LINK as int),
    decreases i,
{
    if i == 0 {
        assert(0 * (MAX_LINK as int) == 0) by (nonlinear_arith);
    } else {
        lemma_reach_bound(c, i - 1);
        assert((i - 1) * (MAX_LINK as int) + (MAX_LINK as int) == i * (MAX_LINK as int))
            by (nonlinear_arith);
    }
    assert(i * (MAX_LINK as int) <= (MAX_JOINTS as int) * (MAX_LINK as int))
        by (nonlinear_arith)
        requires
            0 <= i <= MAX_JOINTS as int,
    ;
}

/// On such a chain the first pass is exact: joint `i` lands on the line at
/// distance `reach(c, i)` from the target.
pub proof fn lemma_back_pos_colinear(c: GChain, target: GVec, i: int)
    requires
        solve_pre(c, target),
        colinear_beyond(c, target),
        0 <= i < c.joints.len(),
    ensures
        back_pos(c, target, i) == (GVec { x: target.x - reach(c, i), y: target.y }),
    decreases i,
{
    lemma_back_pos(c, target, i);
    if i == 0 {
    } else {
        lemma_back_pos_colinear(c, target, i - 1);
        lemma_reach_bound(c, i - 1);
        let anchor = back_pos(c, target, i - 1);
        let cur = c.joints[i].pos;
        let l = c.link[i];
        let off = gsub(cur, anchor);
        assert(in_range(cur, POS_LIMIT as int));
        assert(in_range(off, MAX_OFF as int));
        assert(off.y == 0);
        assert(off.x < -(l + l / (UNIT as int) + 1));
        assert(!gzero(off));
        assert(glen_sq(off) == off.x * off.x);
        crate::norm::lemma_beyond_band(-off.x, l);
        assert((-off.x) * (-off.x) == off.x * off.x) by (nonlinear_arith);
        assert(!close_to_length(glen_sq(off), l));
        crate::norm::lemma_scale_len_axis(off, l);
        assert(back_pos(c, target, i) == gadd(anchor, GVec { x: -l, y: 0 }));
    }
}

/// An unreachable target on the chain's line fully extends the chain into
/// a straight line toward it, without length violation: after one call
/// joint `i` sits exactly `reach(c, i)` before the target, on the line.
/// (From a bent pose a single call does not straighten the chain; it
/// converges there over repeated calls.)
pub proof fn lemma_solve_extends(c: GChain, target: GVec)
    requires
        solve_pre(c, target),
        colinear_beyond(c, target),
    ensures
        forall|i: int|
            0 <= i < c.joints.len() ==> #[trigger] solve_spec(c, target).joints[i].pos == (GVec {
                x: target.x - reach(c, i),
                y: target.y,
            }),
{
    assert forall|i: int| 0 <= i < c.joints.len() implies #[trigger] solve_spec(
        c,
        target,
    ).joints[i].pos == (GVec { x: target.x - reach(c, i), y: target.y }) by {
        lemma_fwd_joint(c, target, i);
        lemma_back_pos_colinear(c, target, i);
    }
}

/// Idempotence near convergence: a second solver call with the same target
/// leaves the chain exactly as the first call left it, positions and
/// facings alike.
pub proof fn lemma_solve_idempotent(c: GChain, target: GVec)
    requires
        solve_pre(c, target),
    ensures
        solve_spec(solve_spec(c, target), target) == solve_spec(c, target),
{
    let c1 = solve_spec(c, target);
    lemma_solve_spec_props(c, target);
    let n = c.joints.len() as int;
    assert forall|k: int| 0 <= k < n implies #[trigger] solve_spec(c1, target).joints[k]
        == c1.joints[k] by {
        lemma_fwd_settled(c, target, k);
    }
    assert(solve_spec(c1, target).joints =~= c1.joints);
    assert(solve_spec(c1, target) =~= c1);
}

/// One solver call. The head tracks the target exactly; every link ends
/// inside the rounding band; positions stay within the coordinate budget;
/// the chain stays well-formed.
pub fn solve(chain: &mut Chain, target: Vec2)
    requires
        solve_pre(old(chain)@, target@),
    ensures
        final(chain)@ == solve_spec(old(chain)@, target@),
        wf(final(chain)@),
        positions_within(final(chain)@, POS_LIMIT as int),
        final(chain)@.joints[0].pos == target@,
        links_close(final(chain)@),
        final(chain)@.link == old(chain)@.link,
        final(chain)@.joints.len() == old(chain)@.joints.len(),
{
    let ghost c0 = chain@;
    let ghost tg = target@;
    let n = chain.joints.len();
    proof {
        assert(n == c0.joints.len());
    }
    // first pass: head to tip
    let mut i: usize = 0;
    while i < n
        invariant
            solve_pre(c0, tg),
            n == c0.joints.len(),
            chain@.joints.len() == n,
            chain@.link == c0.link,
            chain.link_distance@.len() == n,
            tg == target@,
            0 <= i <= n,
            forall|k: int|
                0 <= k < i ==> #[trigger] chain@.joints[k] == (GJoint {
                    pos: back_pos(c0, tg, k),
                    facing: c0.joints[k].facing,
                    size: c0.joints[k].size,
                }),
            forall|k: int| i <= k < n ==> #[trigger] chain@.joints[k] == c0.joints[k],
        decreases n - i,
    {
        let l = chain.link_distance[i];
        let anchor: Vec2 = if i == 0 {
            target
        } else {
            chain.joints[i - 1].pos
        };
        proof {
            assert(chain@.joints[i as int] == c0.joints[i as int]);
            assert(joint_ok(c0.joints[i as int]));
            assert(l as int == c0.link[i as int]);
            if i > 0 {
                lemma_back_pos(c0, tg, i - 1);
                lemma_back_pos_budget(c0, tg, i - 1);
                assert(chain@.joints[i - 1] == chain.joints@[i - 1]@);
                assert(chain@.joints[i - 1].pos == back_pos(c0, tg, i - 1));
                assert(anchor@ == chain.joints@[i - 1]@.pos);
                assert(anchor@ == back_pos(c0, tg, i - 1));
            }
            assert(in_range(anchor@, PLACE_POS as int));
            assert(in_range(chain@.joints[i as int].pos, PLACE_POS as int));
        }
        let j = chain.joints[i];
        let ghost pre = chain@.joints;
        let ghost pres = chain.joints@;
        let newpos = place_at(anchor, j.pos, l, j.facing);
        chain.joints.set(i, Joint { pos: newpos, facing: j.facing, size: j.size });
        proof {
            assert(newpos@ == back_pos(c0, tg, i as int));
            assert(chain@.joints[i as int] == (GJoint {
                pos: back_pos(c0, tg, i as int),
                facing: c0.joints[i as int].facing,
                size: c0.joints[i as int].size,
            }));
            assert forall|k: int| 0 <= k < n && k != i as int implies #[trigger] chain@.joints[k]
                == pre[k] by {
                assert(chain.joints@[k] == pres[k]);
                assert(chain@.joints[k] == chain.joints@[k]@);
                assert(pre[k] == pres[k]@);
            }
        }
        i += 1;
    }
    // second pass: tip to head
    let mut done: usize = 1;
    while done < n
        invariant
            solve_pre(c0, tg),
            n == c0.joints.len(),
            chain@.joints.len() == n,
            chain@.link == c0.link,
            chain.link_distance@.len() == n,
            tg == target@,
            1 <= done <= n,
            forall|k: int|
                n - done <= k < n ==> #[trigger] chain@.joints[k] == fwd_joint(c0, tg, k),
            forall|k: int|
                0 <= k < n - done ==> #[trigger] chain@.joints[k] == (GJoint {
                    pos: back_pos(c0, tg, k),
                    facing: c0.joints[k].facing,
                    size: c0.joints[k].size,
                }),
        decreases n - done,
    {
        let u = n - 1 - done;
        proof {
            lemma_fwd_joint(c0, tg, u + 1);
            lemma_back_pos(c0, tg, u as int);
            lemma_back_pos(c0, tg, u + 1);
            lemma_back_pos_budget(c0, tg, u as int);
            lemma_back_pos_budget(c0, tg, u + 1);
            assert(chain@.joints[u + 1] == fwd_joint(c0, tg, u + 1));
            assert(chain@.joints[u as int].pos == back_pos(c0, tg, u as int));
            assert(joint_ok(c0.joints[u as int]));
            assert(in_range(back_pos(c0, tg, u + 1), PLACE_POS as int));
            assert(in_range(back_pos(c0, tg, u as int), PLACE_POS as int));
        }
        let anchor = chain.joints[u + 1].pos;
        let jj = chain.joints[u];
        let ghost pre = chain@.joints;
        let ghost pres = chain.joints@;
        proof {
            assert(anchor@ == back_pos(c0, tg, u + 1));
            assert(jj@ == (GJoint {
                pos: back_pos(c0, tg, u as int),
                facing: c0.joints[u as int].facing,
                size: c0.joints[u as int].size,
            }));
        }
        let f = dir_toward(anchor, jj.pos, jj.facing);
        if u == 0 {
            chain.joints.set(0, Joint { pos: jj.pos, facing: f, size: jj.size });
        } else {
            let l = chain.link_distance[u + 1];
            proof {
                assert(l as int == c0.link[u + 1]);
            }
            let newpos = place_at(anchor, jj.pos, l, f);
            chain.joints.set(u, Joint { pos: newpos, facing: f, size: jj.size });
        }
        proof {
            assert(chain@.joints[u as int] == fwd_joint(c0, tg, u as int));
            assert forall|k: int| 0 <= k < n && k != u as int implies #[trigger] chain@.joints[k]
                == pre[k] by {
                assert(chain.joints@[k] == pres[k]);
                assert(chain@.joints[k] == chain.joints@[k]@);
                assert(pre[k] == pres[k]@);
            }
        }
        done += 1;
    }
    proof {
        assert forall|k: int| 0 <= k < n implies #[trigger] chain@.joints[k] == fwd_joint(
            c0,
            tg,
            k,
        ) by {
            if n == 1 {
                assert(chain@.joints[0] == (GJoint {
                    pos: back_pos(c0, tg, 0),
                    facing: c0.joints[0].facing,
                    size: c0.joints[0].size,
                }));
                assert(fwd_joint(c0, tg, 0) == chain@.joints[0]);
            }
        }
        assert(chain@.joints =~= solve_spec(c0, tg).joints);
        assert(chain@.link =~= solve_spec(c0, tg).link);
        assert(chain@ =~= solve_spec(c0, tg));
        assert forall|k: int| 0 <= k < n implies joint_ok(#[trigger] chain@.joints[k]) by {
            lemma_fwd_joint(c0, tg, k);
            assert(0 <= fwd_joint(c0, tg, k).size <= MAX_LINK as int);
        }
        assert forall|k: int| 0 <= k < n implies in_range(
            #[trigger] chain@.joints[k].pos,
            POS_LIMIT as int,
        ) by {
            lemma_fwd_joint(c0, tg, k);
            lemma_back_pos(c0, tg, k);
            assert((k + 1) * (2 * (MAX_LINK as int) + 1) <= (MAX_JOINTS as int) * (2 * (
            MAX_LINK as int) + 1)) by (nonlinear_arith)
                requires
                    0 <= k < c0.joints.len() <= MAX_JOINTS as int,
            ;
        }
        lemma_back_pos(c0, tg, 0);
        lemma_fwd_joint(c0, tg, 0);
        assert(chain@.joints[0].pos == tg);
        assert forall|k: int|
            1 <= k < n implies close_to_length(
            #[trigger] gdist_sq(chain@.joints[k].pos, chain@.joints[k - 1].pos),
            chain@.link[k],
        ) by {
            lemma_fwd_joint(c0, tg, k);
            lemma_fwd_joint(c0, tg, k - 1);
            lemma_back_pos(c0, tg, k);
        }
    }
}

} // verus!
