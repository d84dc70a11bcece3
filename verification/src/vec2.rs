//! 2-D points and offsets in integer coordinates, with a ghost model in
//! unbounded integers. Every executable operation is exact; contracts are
//! stated over the ghost model `GVec`.

use vstd::prelude::*;

verus! {

/// Fixed-point scale of normalised direction vectors: a facing vector has
/// length close to `UNIT`, and normalisation computes with `UNIT` sub-steps
/// of precision.
pub const UNIT: i64 = 1024;

/// Executable 2-D vector (a point or an offset).
#[derive(Clone, Copy, PartialEq, Eq, Structural, Debug)]
pub struct Vec2 {
    pub x: i64,
    pub y: i64,
}

/// Ghost model of a 2-D vector, over unbounded integers.
pub ghost struct GVec {
    pub x: int,
    pub y: int,
}

impl View for Vec2 {
    type V = GVec;

    open spec fn view(&self) -> GVec {
        GVec { x: self.x as int, y: self.y as int }
    }
}

pub open spec fn gadd(a: GVec, b: GVec) -> GVec {
    GVec { x: a.x + b.x, y: a.y + b.y }
}

pub open spec fn gsub(a: GVec, b: GVec) -> GVec {
    GVec { x: a.x - b.x, y: a.y - b.y }
}

pub open spec fn gneg(a: GVec) -> GVec {
    GVec { x: -a.x, y: -a.y }
}

/// Rotation by a quarter turn, counter-clockwise in mathematical orientation.
pub open spec fn gperp(a: GVec) -> GVec {
    GVec { x: -a.y, y: a.x }
}

pub open spec fn gdot(a: GVec, b: GVec) -> int {
    a.x * b.x + a.y * b.y
}

pub open spec fn gcross(a: GVec, b: GVec) -> int {
    a.x * b.y - a.y * b.x
}

pub open spec fn glen_sq(a: GVec) -> int {
    a.x * a.x + a.y * a.y
}

/// Squared distance between two points.
pub open spec fn gdist_sq(a: GVec, b: GVec) -> int {
    glen_sq(gsub(a, b))
}

pub open spec fn gzero(a: GVec) -> bool {
    a.x == 0 && a.y == 0
}

pub open spec fn gabs(a: int) -> int {
    if a < 0 {
        -a
    } else {
        a
    }
}

/// Both coordinates lie in `[-m, m]`.
pub open spec fn in_range(a: GVec, m: int) -> bool {
    -m <= a.x <= m && -m <= a.y <= m
}

impl Vec2 {
    pub fn new(x: i64, y: i64) -> (r: Vec2)
        ensures
            r@ == (GVec { x: x as int, y: y as int }),
    {
        Vec2 { x, y }
    }

    pub fn plus(self, o: Vec2) -> (r: Vec2)
        requires
            in_range(gadd(self@, o@), 0x4000000000000000),
        ensures
            r@ == gadd(self@, o@),
    {
        Vec2 { x: self.x + o.x, y: self.y + o.y }
    }

    pub fn minus(self, o: Vec2) -> (r: Vec2)
        requires
            in_range(gsub(self@, o@), 0x4000000000000000),
        ensures
            r@ == gsub(self@, o@),
    {
        Vec2 { x: self.x - o.x, y: self.y - o.y }
    }

    pub fn negated(self) -> (r: Vec2)
        requires
            in_range(self@, 0x4000000000000000),
        ensures
            r@ == gneg(self@),
    {
        Vec2 { x: -self.x, y: -self.y }
    }

    pub fn perp_left(self) -> (r: Vec2)
        requires
            in_range(self@, 0x4000000000000000),
        ensures
            r@ == gperp(self@),
    {
        Vec2 { x: -self.y, y: self.x }
    }

    /// Squared length, computed in 128-bit arithmetic.
    pub fn len_sq(self) -> (r: i128)
        requires
            in_range(self@, 0x100000000000000),
        ensures
            r as int == glen_sq(self@),
    {
        let x = self.x as i128;
        let y = self.y as i128;
        proof {
            assert(x * x == self@.x * self@.x && y * y == self@.y * self@.y
                && 0 <= x * x <= 0x10000000000000000000000000000
                && 0 <= y * y <= 0x10000000000000000000000000000) by (nonlinear_arith)
                requires
                    x == self@.x,
                    y == self@.y,
                    -0x100000000000000 <= x <= 0x100000000000000,
                    -0x100000000000000 <= y <= 0x100000000000000,
            ;
        }
        x * x + y * y
    }

    /// Squared distance to another point, computed in 128-bit arithmetic.
    pub fn dist_sq(self, o: Vec2) -> (r: i128)
        requires
            in_range(self@, 0x80000000000000),
            in_range(o@, 0x80000000000000),
        ensures
            r as int == gdist_sq(self@, o@),
    {
        let d = Vec2 { x: self.x - o.x, y: self.y - o.y };
        d.len_sq()
    }
}

} // verus!
