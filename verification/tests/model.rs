use linkage::chain::Chain;
use linkage::contour::contour;
use linkage::joint::Joint;
use linkage::num::isqrt;
use linkage::vec2::Vec2;

fn east() -> Vec2 {
    Vec2 { x: 1024, y: 0 }
}

#[test]
fn isqrt_small_values() {
    assert_eq!(isqrt(0), 0);
    assert_eq!(isqrt(1), 1);
    assert_eq!(isqrt(3), 1);
    assert_eq!(isqrt(4), 2);
    assert_eq!(isqrt(8), 2);
    assert_eq!(isqrt(9), 3);
    assert_eq!(isqrt(1_000_000), 1000);
    assert_eq!(isqrt(999_999), 999);
}

#[test]
fn isqrt_large_values() {
    let n: u128 = (1u128 << 64) - 1;
    let r = isqrt(n * n);
    assert_eq!(r, n);
    assert_eq!(isqrt(n * n + 2 * n), n);
    assert_eq!(isqrt(u128::MAX), (1u128 << 64) - 1);
}

#[test]
fn chain_rejects_bad_inputs() {
    // length mismatch
    assert!(Chain::new(vec![Joint::new(0, 0, east(), 10)], vec![0, 20]).is_none());
    // empty
    assert!(Chain::new(vec![], vec![]).is_none());
    // the head owes no distance
    assert!(Chain::new(vec![Joint::new(0, 0, east(), 10)], vec![5]).is_none());
    // zero facing
    assert!(
        Chain::new(vec![Joint::new(0, 0, Vec2 { x: 0, y: 0 }, 10)], vec![0]).is_none()
    );
    // negative link distance
    assert!(
        Chain::new(
            vec![Joint::new(0, 0, east(), 10), Joint::new(20, 0, east(), 10)],
            vec![0, -1],
        )
        .is_none()
    );
    // negative size
    assert!(Chain::new(vec![Joint::new(0, 0, east(), -1)], vec![0]).is_none());
}

#[test]
fn chain_accepts_good_inputs() {
    let c = Chain::new(
        vec![Joint::new(0, 0, east(), 10), Joint::new(20, 0, east(), 12)],
        vec![0, 20],
    )
    .expect("well-formed");
    assert_eq!(c.len(), 2);
    assert_eq!(c.joint_at(1).pos.x, 20);
    assert_eq!(c.joint_at(1).size, 12);
    assert_eq!(c.link_at(1), 20);
}

#[test]
fn contour_of_single_joint() {
    // one joint at (100, 200), radius 10, facing east. The outline is
    // 2*1 + 21 = 23 points: the south flank, the head fan bulging east
    // beyond the head, the north flank, the tail fan bulging west beyond
    // the tail, and the first three points again; at every cap junction
    // the adjacent points coincide.
    let c = Chain::new(vec![Joint::new(100, 200, east(), 10)], vec![0]).unwrap();
    let pts: Vec<(i64, i64)> = contour(&c).iter().map(|p| (p.x, p.y)).collect();
    assert_eq!(pts.len(), 23);
    let expected = vec![
        // first flank at facing-90 degrees, tip to head, doubled ends
        // (n = 1: three equal points)
        (100, 190),
        (100, 190),
        (100, 190),
        // head cap fan around the facing, sweeping from facing-90 to
        // facing+90 degrees, end points doubled
        (100, 190),
        (100, 190),
        (107, 193),
        (110, 200),
        (107, 207),
        (100, 210),
        (100, 210),
        // second flank at facing+90 degrees, head to tip, doubled ends
        (100, 210),
        (100, 210),
        (100, 210),
        // tail cap fan around the reversed facing, end points doubled
        (100, 210),
        (100, 210),
        (93, 207),
        (90, 200),
        (93, 193),
        (100, 190),
        (100, 190),
        // first three points repeated to close the curve
        (100, 190),
        (100, 190),
        (100, 190),
    ];
    assert_eq!(pts, expected);
}

#[test]
fn contour_orders_sides_for_two_joints() {
    let c = Chain::new(
        vec![Joint::new(0, 0, east(), 10), Joint::new(-20, 0, east(), 8)],
        vec![0, 20],
    )
    .unwrap();
    let pts: Vec<(i64, i64)> = contour(&c).iter().map(|p| (p.x, p.y)).collect();
    assert_eq!(pts.len(), 25);
    // south flank first: the tail joint (tip to head), then the head
    assert_eq!(pts[0], (-20, -8));
    assert_eq!(pts[1], (-20, -8));
    assert_eq!(pts[2], (0, -10));
    assert_eq!(pts[3], (0, -10));
    // north flank runs head to tip
    assert_eq!(pts[11], (0, 10));
    assert_eq!(pts[13], (-20, 8));
    // both caps bulge outward, away from the body: the head cap's
    // central point lies beyond the head along its facing, the tail
    // cap's beyond the tail away from its predecessor
    assert_eq!(pts[7], (10, 0));
    assert_eq!(pts[18], (-28, 0));
    // the outline is continuous at all four cap junctions
    assert_eq!(pts[3], pts[4]);
    assert_eq!(pts[10], pts[11]);
    assert_eq!(pts[14], pts[15]);
    assert_eq!(pts[21], pts[22]);
    // the closing points repeat the first three
    assert_eq!(pts[22], pts[0]);
    assert_eq!(pts[23], pts[1]);
    assert_eq!(pts[24], pts[2]);
}

#[test]
fn vector_ops_are_exact() {
    let a = Vec2 { x: 3, y: -4 };
    let b = Vec2 { x: -1, y: 2 };
    let s = a.plus(b);
    assert_eq!((s.x, s.y), (2, -2));
    let d = a.minus(b);
    assert_eq!((d.x, d.y), (4, -6));
    let p = a.perp_left();
    assert_eq!((p.x, p.y), (4, 3));
    assert_eq!(a.len_sq(), 25);
    assert_eq!(a.dist_sq(b), 16 + 36);
}
