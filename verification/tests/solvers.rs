use linkage::chain::Chain;
use linkage::fabrik::solve;
use linkage::follow::{step, Bend, bend_check};
use linkage::joint::Joint;
use linkage::vec2::Vec2;

fn east() -> Vec2 {
    Vec2 { x: 1024, y: 0 }
}

fn three_joint_chain(xs: [i64; 3], sizes: [i64; 3], links: [i64; 3]) -> Chain {
    let joints = vec![
        Joint::new(xs[0], 0, east(), sizes[0]),
        Joint::new(xs[1], 0, east(), sizes[1]),
        Joint::new(xs[2], 0, east(), sizes[2]),
    ];
    Chain::new(joints, links.to_vec()).expect("well-formed chain")
}

fn positions(c: &Chain) -> Vec<(i64, i64)> {
    let mut out = Vec::new();
    for i in 0..c.len() {
        let j = c.joint_at(i);
        out.push((j.pos.x, j.pos.y));
    }
    out
}

fn dist_sq(a: (i64, i64), b: (i64, i64)) -> i128 {
    let dx = (a.0 - b.0) as i128;
    let dy = (a.1 - b.1) as i128;
    dx * dx + dy * dy
}

/// The squared distance lies in the solver's rounding band for length l.
fn in_band(d_sq: i128, l: i128) -> bool {
    l * l - 4 * l <= d_sq && d_sq * 1024 * 1024 <= l * l * 1025 * 1025
}

#[test]
fn reachable_target_fully_extends() {
    // three joints at x = 0, 20, 40; target (100, 0): one call must give
    // exactly (100,0), (80,0), (60,0)
    let mut c = three_joint_chain([0, 20, 40], [20, 20, 20], [0, 20, 20]);
    solve(&mut c, Vec2 { x: 100, y: 0 });
    assert_eq!(positions(&c), vec![(100, 0), (80, 0), (60, 0)]);
}

#[test]
fn unreachable_near_target_keeps_invariants() {
    // target (10, 0) is closer than the chain's reach; the head must sit
    // on it exactly and every link must keep its distance
    let mut c = three_joint_chain([0, 20, 40], [20, 20, 20], [0, 20, 20]);
    solve(&mut c, Vec2 { x: 10, y: 0 });
    let p = positions(&c);
    assert_eq!(p[0], (10, 0));
    assert_eq!(p, vec![(10, 0), (30, 0), (50, 0)]);
    assert!(in_band(dist_sq(p[0], p[1]), 20));
    assert!(in_band(dist_sq(p[1], p[2]), 20));
}

#[test]
fn far_target_straightens_chain() {
    // a target far beyond the total reach pulls the chain into a straight
    // line toward it
    let mut c = three_joint_chain([0, 20, 40], [20, 20, 20], [0, 20, 20]);
    solve(&mut c, Vec2 { x: 200, y: 0 });
    assert_eq!(positions(&c), vec![(200, 0), (180, 0), (160, 0)]);
}

#[test]
fn solve_links_stay_in_band_off_axis() {
    let mut c = three_joint_chain([0, 20, 40], [20, 20, 20], [0, 20, 20]);
    solve(&mut c, Vec2 { x: 37, y: -113 });
    let p = positions(&c);
    assert_eq!(p[0], (37, -113));
    assert!(in_band(dist_sq(p[0], p[1]), 20));
    assert!(in_band(dist_sq(p[1], p[2]), 20));
}

#[test]
fn repeated_solve_settles() {
    // idempotence near convergence: a second call with the same target
    // changes nothing
    let mut c = three_joint_chain([0, 20, 40], [20, 20, 20], [0, 20, 20]);
    let target = Vec2 { x: 37, y: -113 };
    solve(&mut c, target);
    let first = positions(&c);
    solve(&mut c, target);
    assert_eq!(positions(&c), first);
    solve(&mut c, target);
    assert_eq!(positions(&c), first);
}

#[test]
fn target_on_joint_is_stable() {
    // the degenerate zero-length direction must not corrupt the pose
    let mut c = three_joint_chain([0, 20, 40], [20, 20, 20], [0, 20, 20]);
    solve(&mut c, Vec2 { x: 0, y: 0 });
    let p = positions(&c);
    assert_eq!(p[0], (0, 0));
    assert!(in_band(dist_sq(p[0], p[1]), 20));
    assert!(in_band(dist_sq(p[1], p[2]), 20));
}

#[test]
fn zero_length_links_are_legal() {
    let mut c = three_joint_chain([0, 0, 20], [20, 20, 20], [0, 0, 20]);
    solve(&mut c, Vec2 { x: 5, y: 0 });
    let p = positions(&c);
    assert_eq!(p, vec![(5, 0), (5, 0), (25, 0)]);
}

#[test]
fn step_advances_head_and_pulls_chain() {
    let mut c = three_joint_chain([0, -20, -40], [20, 20, 20], [0, 20, 20]);
    // speed 300 per second, 16 ms: the head advances by 4 units east
    step(&mut c, Vec2 { x: 500, y: 0 }, Vec2 { x: 100, y: 0 }, 16, 300, 30);
    assert_eq!(positions(&c), vec![(4, 0), (-16, 0), (-36, 0)]);
}

#[test]
fn step_keeps_distance_for_any_dt() {
    for dt in [0i64, 1, 7, 16, 200, 5000] {
        let mut c = three_joint_chain([0, -20, -40], [20, 20, 20], [0, 20, 20]);
        step(&mut c, Vec2 { x: 500, y: -300 }, Vec2 { x: 90, y: -55 }, dt, 300, 30);
        let p = positions(&c);
        assert!(in_band(dist_sq(p[0], p[1]), 20), "dt {} p {:?}", dt, p);
        assert!(in_band(dist_sq(p[1], p[2]), 20), "dt {} p {:?}", dt, p);
    }
}

#[test]
fn step_zero_dt_keeps_positions() {
    // a settled chain, a live target and movement, but dt == 0: no
    // position may change
    let mut c = three_joint_chain([0, -20, -40], [20, 20, 20], [0, 20, 20]);
    let before = positions(&c);
    step(&mut c, Vec2 { x: 500, y: 120 }, Vec2 { x: 100, y: 30 }, 0, 300, 30);
    assert_eq!(positions(&c), before);
}

#[test]
fn step_dead_zone_freezes_head() {
    // the target sits within the dead zone: the head must not move at all
    let mut c = three_joint_chain([0, -20, -40], [20, 20, 20], [0, 20, 20]);
    let before = positions(&c);
    step(&mut c, Vec2 { x: 20, y: 10 }, Vec2 { x: 100, y: 30 }, 16, 300, 30);
    assert_eq!(positions(&c)[0], before[0]);
}

#[test]
fn step_zero_movement_freezes_head() {
    let mut c = three_joint_chain([0, -20, -40], [20, 20, 20], [0, 20, 20]);
    let before = positions(&c);
    step(&mut c, Vec2 { x: 500, y: 0 }, Vec2 { x: 0, y: 0 }, 16, 300, 30);
    assert_eq!(positions(&c), before);
}

#[test]
fn clamp_rotates_by_one_bounded_step() {
    // joint 1 doubles straight back over the head: deviation is a half
    // turn, far beyond the clamp cone. One step with dt = 100 (tangent
    // 100/100, an eighth of a turn) must rotate the offset by exactly
    // that step, not snap it straight.
    let mut c = three_joint_chain([0, 20, 40], [20, 20, 20], [0, 20, 20]);
    // head within dead zone so only the trailing joints move
    step(&mut c, Vec2 { x: 0, y: 0 }, Vec2 { x: 0, y: 0 }, 100, 300, 30);
    let p = positions(&c);
    assert_eq!(p[0], (0, 0));
    // offset rotated from (20, 0) by -45 degrees and rescaled to 20
    assert_eq!(p[1], (14, -14));
    assert!(in_band(dist_sq(p[0], p[1]), 20));
    // the deviation did not jump to straight in one frame
    assert_ne!(p[1].1, 0);
}

#[test]
fn clamp_within_cone_leaves_joint() {
    // a chain trailing straight behind the head needs no correction
    let mut c = three_joint_chain([0, -20, -40], [20, 20, 20], [0, 20, 20]);
    step(&mut c, Vec2 { x: 500, y: 0 }, Vec2 { x: 100, y: 0 }, 16, 300, 30);
    let p = positions(&c);
    assert_eq!(p[1].1, 0);
    assert_eq!(p[2].1, 0);
}

#[test]
fn solve_faces_joints_along_links() {
    // after one call every non-tip joint faces from its successor toward
    // itself, at the unit scale
    let mut c = three_joint_chain([0, 20, 40], [20, 20, 20], [0, 20, 20]);
    solve(&mut c, Vec2 { x: 100, y: 0 });
    let f0 = c.joint_at(0).facing;
    let f1 = c.joint_at(1).facing;
    assert_eq!((f0.x, f0.y), (1024, 0));
    assert_eq!((f1.x, f1.y), (1024, 0));
}

#[test]
fn repeated_steps_keep_invariants() {
    // a short walk: the band must hold after every frame
    let mut c = three_joint_chain([0, -20, -40], [20, 20, 20], [0, 20, 20]);
    for frame in 0i64..50 {
        let target = Vec2 { x: 40 + 9 * frame, y: 3 * frame };
        let head = c.joint_at(0).pos;
        let movement = Vec2 { x: target.x - head.x, y: target.y - head.y };
        step(&mut c, target, movement, 16, 300, 30);
        let p = positions(&c);
        assert!(in_band(dist_sq(p[0], p[1]), 20), "frame {} p {:?}", frame, p);
        assert!(in_band(dist_sq(p[1], p[2]), 20), "frame {} p {:?}", frame, p);
    }
}

#[test]
fn bend_classification_matches_threshold() {
    let u = Vec2 { x: 1024, y: 0 };
    assert!(matches!(bend_check(u, Vec2 { x: 1000, y: 260 }), Bend::Within));
    assert!(matches!(bend_check(u, Vec2 { x: 1000, y: 280 }), Bend::Ccw));
    assert!(matches!(bend_check(u, Vec2 { x: 1000, y: -280 }), Bend::Cw));
    // anti-aligned: a half-turn deviation, corrected clockwise
    assert!(matches!(bend_check(u, Vec2 { x: -1024, y: 0 }), Bend::Ccw));
}
