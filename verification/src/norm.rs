//! Normalisation of integer vectors: rescaling a non-zero offset to a
//! required length. This is the one place the solvers do any non-trivial
//! arithmetic; everything else is exact addition and subtraction.
//!
//! `scale_to_length(v, l)` returns an integer vector pointing the way `v`
//! points whose length is `l` up to a small, precisely bounded rounding
//! error: its squared length lies between `l*l - 4*l` and
//! `l*l * (UNIT+1)^2 / UNIT^2`. The predicate `close_to_length` names that
//! band, and the solvers treat an offset inside the band as already
//! satisfying its link constraint, so a settled chain does not jitter.

use crate::num::{is_sqrt, lemma_sqrt_of, sqrt_of, isqrt};
use crate::vec2::{GVec, Vec2, UNIT, gabs, gadd, gdist_sq, glen_sq, gsub, gzero, in_range};
use vstd::arithmetic::div_mod::{
    lemma_div_is_ordered, lemma_div_multiples_vanish, lemma_div_pos_is_pos,
    lemma_fundamental_div_mod, lemma_mod_bound,
};
use vstd::prelude::*;

verus! {

/// Largest coordinate magnitude `scale_to_length` accepts.
pub const MAX_OFF: i64 = 0x400000000000;

/// Largest target length `scale_to_length` accepts.
pub const MAX_SCALE: i64 = 0x100000000;

/// One coordinate of the rescaled vector: `UNIT * l * |c| / m` with the
/// sign of `c`, where `m` is the length of the input at scale `UNIT`.
pub open spec fn scale_coord(c: int, l: int, m: int) -> int {
    if c < 0 {
        -(((UNIT as int) * l * (-c)) / m)
    } else {
        ((UNIT as int) * l * c) / m
    }
}

/// The vector pointing the way `v` points, with length `l` up to the
/// rounding band `close_to_length`.
pub open spec fn scale_len(v: GVec, l: int) -> GVec {
    let m = sqrt_of((UNIT as int) * (UNIT as int) * glen_sq(v));
    GVec { x: scale_coord(v.x, l, m), y: scale_coord(v.y, l, m) }
}

/// `d_sq` is the squared length of a vector whose length equals `l` up to
/// the solver's rounding tolerance: at scale `UNIT = 1024` the length is
/// within roughly 2 units of `l`.
pub open spec fn close_to_length(d_sq: int, l: int) -> bool {
    &&& l * l - 4 * l <= d_sq
    &&& d_sq * ((UNIT as int) * (UNIT as int)) <= l * l * ((UNIT as int) + 1) * ((UNIT
        as int) + 1)
}

/// A squared length that is exactly `l*l` lies inside the band.
pub proof fn lemma_exact_is_close(l: int)
    requires
        0 <= l,
    ensures
        close_to_length(l * l, l),
{
    assert(l * l * ((UNIT as int) * (UNIT as int)) <= l * l * ((UNIT as int) + 1) * ((
    UNIT as int) + 1)) by (nonlinear_arith)
        requires
            0 <= l,
    ;
    assert(l * l - 4 * l <= l * l) by (nonlinear_arith)
        requires
            0 <= l,
    ;
}

/// Rescaling by `l == 0` gives the zero vector.
pub proof fn lemma_scale_len_zero_length(v: GVec)
    requires
        !gzero(v),
        in_range(v, MAX_OFF as int),
    ensures
        scale_len(v, 0) == (GVec { x: 0, y: 0 }),
{
    let k = UNIT as int;
    let q = glen_sq(v);
    assert(1 <= q) by (nonlinear_arith)
        requires
            q == v.x * v.x + v.y * v.y,
            !(v.x == 0 && v.y == 0),
    ;
    assert(k * k <= k * k * q) by (nonlinear_arith)
        requires
            1 <= q,
    ;
    lemma_sqrt_of(k * k * q);
    let m = sqrt_of(k * k * q);
    assert(1 <= m) by (nonlinear_arith)
        requires
            m * m <= k * k * q,
            k * k * q < (m + 1) * (m + 1),
            0 <= m,
            k * k <= k * k * q,
            k == 1024,
    ;
    assert(k * 0 * gabs(v.x) == 0) by (nonlinear_arith);
    assert(k * 0 * gabs(v.y) == 0) by (nonlinear_arith);
    assert(k * 0 * (-v.x) == 0) by (nonlinear_arith);
    assert(k * 0 * (-v.y) == 0) by (nonlinear_arith);
    assert(k * 0 * v.x == 0) by (nonlinear_arith);
    assert(k * 0 * v.y == 0) by (nonlinear_arith);
    assert(0int / m == 0) by {
        lemma_div_multiples_vanish(0, m);
        assert(m * 0 == 0) by (nonlinear_arith);
    };
    assert(scale_coord(v.x, 0, m) == 0);
    assert(scale_coord(v.y, 0, m) == 0);
}

/// On an axis-aligned vector the rescaling is exact.
pub proof fn lemma_scale_len_axis(v: GVec, l: int)
    requires
        v.y == 0,
        v.x != 0,
        in_range(v, MAX_OFF as int),
        0 <= l <= MAX_SCALE as int,
    ensures
        scale_len(v, l) == (GVec { x: if v.x < 0 { -l } else { l }, y: 0 }),
{
    let k = UNIT as int;
    let ax = gabs(v.x);
    let q = glen_sq(v);
    assert(q == ax * ax && 1 <= ax) by (nonlinear_arith)
        requires
            ax == gabs(v.x),
            v.x != 0,
            v.y == 0,
            q == v.x * v.x + v.y * v.y,
    ;
    let m = k * ax;
    assert(is_sqrt(k * k * q, m)) by (nonlinear_arith)
        requires
            q == ax * ax,
            m == k * ax,
            1 <= ax,
            k == 1024,
    ;
    lemma_sqrt_of(k * k * q);
    crate::num::lemma_sqrt_unique(k * k * q, m, sqrt_of(k * k * q));
    assert(k * l * ax == m * l) by (nonlinear_arith)
        requires
            m == k * ax,
    ;
    lemma_div_multiples_vanish(l, m);
    assert((k * l * ax) / m == l);
    assert(k * l * 0 == 0) by (nonlinear_arith);
    assert(0int / m == 0) by {
        lemma_div_multiples_vanish(0, m);
        assert(m * 0 == 0) by (nonlinear_arith);
    };
    assert(scale_coord(v.y, l, m) == 0);
    assert(scale_coord(v.x, l, m) == (if v.x < 0 { -l } else { l as int }));
}

/// A squared length beyond `(l + l/UNIT + 1)^2` lies outside the band.
pub proof fn lemma_beyond_band(x: int, l: int)
    requires
        x >= l + l / (UNIT as int) + 1,
        0 <= l <= MAX_SCALE as int,
    ensures
        !close_to_length(x * x, l),
{
    let k = UNIT as int;
    lemma_fundamental_div_mod(l, k);
    lemma_mod_bound(l, k);
    assert(k * (l / k) >= l - k + 1);
    assert(k * x >= k * l + k * (l / k) + k) by (nonlinear_arith)
        requires
            x >= l + l / k + 1,
            1 <= k,
    ;
    assert(k * x > l * (k + 1));
    assert((k * x) * (k * x) > (l * (k + 1)) * (l * (k + 1))) by (nonlinear_arith)
        requires
            k * x > l * (k + 1),
            0 <= l * (k + 1),
    ;
    assert(x * x * (k * k) > l * l * (k + 1) * (k + 1)) by (nonlinear_arith)
        requires
            (k * x) * (k * x) > (l * (k + 1)) * (l * (k + 1)),
    ;
}

/// The main property of `scale_len`: the result stays within `l` in each
/// coordinate and its squared length lies in the `close_to_length` band.
pub proof fn lemma_scale_len_props(v: GVec, l: int)
    requires
        !gzero(v),
        in_range(v, MAX_OFF as int),
        0 <= l <= MAX_SCALE as int,
    ensures
        in_range(scale_len(v, l), l),
        close_to_length(glen_sq(scale_len(v, l)), l),
{
    let k = UNIT as int;
    let q = glen_sq(v);
    let n = k * k * q;
    let ax = gabs(v.x);
    let ay = gabs(v.y);
    assert(q == ax * ax + ay * ay && 1 <= q && 0 <= ax && 0 <= ay) by (nonlinear_arith)
        requires
            ax == gabs(v.x),
            ay == gabs(v.y),
            q == v.x * v.x + v.y * v.y,
            !(v.x == 0 && v.y == 0),
    ;
    assert(k * k <= n) by (nonlinear_arith)
        requires
            1 <= q,
            n == k * k * q,
            k == 1024,
    ;
    lemma_sqrt_of(n);
    let m = sqrt_of(n);
    assert(m * m <= n < (m + 1) * (m + 1) && 0 <= m);
    assert(k <= m) by (nonlinear_arith)
        requires
            m * m <= n,
            n < (m + 1) * (m + 1),
            0 <= m,
            k * k <= n,
            k == 1024,
    ;
    // each coordinate of v, scaled by k, is at most the length m
    assert(k * ax <= m && k * ay <= m) by (nonlinear_arith)
        requires
            0 <= ax,
            0 <= ay,
            q == ax * ax + ay * ay,
            n == k * k * q,
            n < (m + 1) * (m + 1),
            0 <= m,
            k == 1024,
    ;
    let na = k * l * ax;
    let nb = k * l * ay;
    assert(0 <= na && 0 <= nb && na <= l * m && nb <= l * m) by (nonlinear_arith)
        requires
            na == k * l * ax,
            nb == k * l * ay,
            0 <= l,
            0 <= ax,
            0 <= ay,
            k * ax <= m,
            k * ay <= m,
            0 <= k,
    ;
    let sa = na / m;
    let sb = nb / m;
    lemma_div_pos_is_pos(na, m);
    lemma_div_pos_is_pos(nb, m);
    lemma_div_is_ordered(na, l * m, m);
    lemma_div_is_ordered(nb, l * m, m);
    lemma_div_multiples_vanish(l, m);
    assert(l * m == m * l) by (nonlinear_arith);
    assert(sa <= l && sb <= l);
    let s = scale_len(v, l);
    assert(s.x == scale_coord(v.x, l, m) && s.y == scale_coord(v.y, l, m));
    assert(gabs(s.x) == sa && gabs(s.y) == sb);
    assert(in_range(s, l));
    let d = glen_sq(s);
    assert(d == sa * sa + sb * sb) by (nonlinear_arith)
        requires
            d == s.x * s.x + s.y * s.y,
            gabs(s.x) == sa,
            gabs(s.y) == sb,
            sa == if s.x < 0 { -s.x } else { s.x },
            sb == if s.y < 0 { -s.y } else { s.y },
    ;
    // remainders of the two divisions
    lemma_fundamental_div_mod(na, m);
    lemma_fundamental_div_mod(nb, m);
    lemma_mod_bound(na, m);
    lemma_mod_bound(nb, m);
    assert(na - m <= m * sa <= na && nb - m <= m * sb <= nb);
    assert(0 <= m * sa && 0 <= m * sb) by (nonlinear_arith)
        requires
            0 <= m,
            0 <= sa,
            0 <= sb,
    ;
    // squared, each coordinate loses at most 2*n*m from the ideal square
    assert(na * na - 2 * na * m <= (m * sa) * (m * sa) <= na * na) by (nonlinear_arith)
        requires
            na - m <= m * sa <= na,
            0 <= m * sa,
            0 <= na,
            0 <= m,
    ;
    assert(nb * nb - 2 * nb * m <= (m * sb) * (m * sb) <= nb * nb) by (nonlinear_arith)
        requires
            nb - m <= m * sb <= nb,
            0 <= m * sb,
            0 <= nb,
            0 <= m,
    ;
    assert((m * sa) * (m * sa) == m * m * (sa * sa)) by (nonlinear_arith);
    assert((m * sb) * (m * sb) == m * m * (sb * sb)) by (nonlinear_arith);
    assert(m * m * d == m * m * (sa * sa) + m * m * (sb * sb)) by (nonlinear_arith)
        requires
            d == sa * sa + sb * sb,
    ;
    assert(m * m * d == (m * sa) * (m * sa) + (m * sb) * (m * sb));
    let kl = k * l;
    assert(na == kl * ax && nb == kl * ay) by (nonlinear_arith)
        requires
            na == k * l * ax,
            nb == k * l * ay,
            kl == k * l,
    ;
    assert(na * na == kl * kl * (ax * ax)) by (nonlinear_arith)
        requires
            na == kl * ax,
    ;
    assert(nb * nb == kl * kl * (ay * ay)) by (nonlinear_arith)
        requires
            nb == kl * ay,
    ;
    assert(kl * kl == l * l * (k * k)) by (nonlinear_arith)
        requires
            kl == k * l,
    ;
    assert(na * na + nb * nb == l * l * n) by (nonlinear_arith)
        requires
            na * na == l * l * (k * k) * (ax * ax),
            nb * nb == l * l * (k * k) * (ay * ay),
            q == ax * ax + ay * ay,
            n == k * k * q,
    ;
    // upper bound
    assert(l * l * n <= l * l * (m + 1) * (m + 1)) by (nonlinear_arith)
        requires
            n < (m + 1) * (m + 1),
            0 <= l,
    ;
    assert(m * m * d <= l * l * (m + 1) * (m + 1));
    let pk = (m + 1) * k;
    let pm = (k + 1) * m;
    assert(0 <= pk <= pm) by (nonlinear_arith)
        requires
            pk == (m + 1) * k,
            pm == (k + 1) * m,
            k <= m,
            1 <= k,
    ;
    assert(pk * pk <= pm * pm) by (nonlinear_arith)
        requires
            0 <= pk <= pm,
    ;
    assert(l * l * (pk * pk) <= l * l * (pm * pm)) by (nonlinear_arith)
        requires
            pk * pk <= pm * pm,
    ;
    assert(m * m * d * (k * k) <= l * l * (m + 1) * (m + 1) * (k * k)) by (nonlinear_arith)
        requires
            m * m * d <= l * l * (m + 1) * (m + 1),
            1 <= k,
    ;
    assert(l * l * (m + 1) * (m + 1) * (k * k) == l * l * (pk * pk)) by (nonlinear_arith)
        requires
            pk == (m + 1) * k,
    ;
    assert(l * l * (pm * pm) == l * l * (k + 1) * (k + 1) * (m * m)) by (nonlinear_arith)
        requires
            pm == (k + 1) * m,
    ;
    assert(d * (k * k) <= l * l * (k + 1) * (k + 1)) by (nonlinear_arith)
        requires
            m * m * d * (k * k) <= l * l * (k + 1) * (k + 1) * (m * m),
            1 <= m,
            0 <= d,
            0 <= l,
    ;
    // lower bound
    assert(m * m * d >= l * l * n - 2 * na * m - 2 * nb * m);
    assert(l * l * n >= l * l * (m * m)) by (nonlinear_arith)
        requires
            m * m <= n,
            0 <= l,
    ;
    assert(2 * na * m + 2 * nb * m <= 4 * l * (m * m)) by (nonlinear_arith)
        requires
            na <= l * m,
            nb <= l * m,
            0 <= m,
            0 <= na,
            0 <= nb,
    ;
    assert(m * m * d >= (l * l - 4 * l) * (m * m)) by (nonlinear_arith)
        requires
            m * m * d >= l * l * (m * m) - (2 * na * m + 2 * nb * m),
            2 * na * m + 2 * nb * m <= 4 * l * (m * m),
    ;
    assert(d >= l * l - 4 * l) by (nonlinear_arith)
        requires
            m * m * d >= (l * l - 4 * l) * (m * m),
            1 <= m,
    ;
}

/// Rescale a non-zero vector so that its length is `l` up to the rounding
/// band; the direction is kept.
pub fn scale_to_length(v: Vec2, l: i64) -> (r: Vec2)
    requires
        !gzero(v@),
        in_range(v@, MAX_OFF as int),
        0 <= l <= MAX_SCALE,
    ensures
        r@ == scale_len(v@, l as int),
        in_range(r@, l as int),
        close_to_length(glen_sq(r@), l as int),
{
    proof {
        lemma_scale_len_props(v@, l as int);
    }
    let ax: u128 = (if v.x < 0 {
        -v.x
    } else {
        v.x
    }) as u128;
    let ay: u128 = (if v.y < 0 {
        -v.y
    } else {
        v.y
    }) as u128;
    proof {
        assert(ax as int == gabs(v@.x) && ay as int == gabs(v@.y));
        assert(ax * ax == v@.x * v@.x && ay * ay == v@.y * v@.y && ax * ax
            <= 0x1000000000000000000000000 && ay * ay <= 0x1000000000000000000000000)
            by (nonlinear_arith)
            requires
                ax as int == gabs(v@.x),
                ay as int == gabs(v@.y),
                ax <= 0x400000000000,
                ay <= 0x400000000000,
        ;
    }
    let q: u128 = ax * ax + ay * ay;
    let n: u128 = (UNIT as u128) * (UNIT as u128) * q;
    let m: u128 = isqrt(n);
    proof {
        assert(n as int == (UNIT as int) * (UNIT as int) * glen_sq(v@)) by (nonlinear_arith)
            requires
                q as int == glen_sq(v@),
                n as int == 1024 * 1024 * (q as int),
                UNIT as int == 1024,
        ;
        assert(1 <= q) by (nonlinear_arith)
            requires
                q as int == v@.x * v@.x + v@.y * v@.y,
                !(v@.x == 0 && v@.y == 0),
        ;
        assert(1024 * 1024 <= n) by (nonlinear_arith)
            requires
                1 <= q,
                n as int == 1024 * 1024 * (q as int),
        ;
        assert(1 <= m) by (nonlinear_arith)
            requires
                (m as int) * (m as int) <= n as int,
                (n as int) < ((m as int) + 1) * ((m as int) + 1),
                1024 * 1024 <= n as int,
        ;
        assert((UNIT as u128) * (l as u128) * ax <= 0x100000000000000000000000) by (nonlinear_arith)
            requires
                ax <= 0x400000000000,
                l as u128 <= 0x100000000,
                UNIT as u128 == 1024,
        ;
        assert((UNIT as u128) * (l as u128) * ay <= 0x100000000000000000000000) by (nonlinear_arith)
            requires
                ay <= 0x400000000000,
                l as u128 <= 0x100000000,
                UNIT as u128 == 1024,
        ;
    }
    let sx: u128 = (UNIT as u128) * (l as u128) * ax / m;
    let sy: u128 = (UNIT as u128) * (l as u128) * ay / m;
    proof {
        let k = UNIT as int;
        let mi = m as int;
        assert((UNIT as u128) * (l as u128) * ax == (k * (l as int) * (ax as int)) as u128)
            by (nonlinear_arith)
            requires
                (UNIT as u128) as int == k,
                (l as u128) as int == l as int,
                0 <= k * (l as int) * (ax as int) <= 0x100000000000000000000000,
        ;
        assert((UNIT as u128) * (l as u128) * ay == (k * (l as int) * (ay as int)) as u128)
            by (nonlinear_arith)
            requires
                (UNIT as u128) as int == k,
                (l as u128) as int == l as int,
                0 <= k * (l as int) * (ay as int) <= 0x100000000000000000000000,
        ;
        assert(sx as int == (k * (l as int) * gabs(v@.x)) / mi);
        assert(sy as int == (k * (l as int) * gabs(v@.y)) / mi);
        assert(sx as int == gabs(scale_coord(v@.x, l as int, mi)) && sy as int == gabs(
            scale_coord(v@.y, l as int, mi))) by {
            lemma_div_pos_is_pos(k * (l as int) * gabs(v@.x), mi);
            lemma_div_pos_is_pos(k * (l as int) * gabs(v@.y), mi);
        };
        assert(in_range(scale_len(v@, l as int), l as int));
        assert(sx <= l as u128 && sy <= l as u128);
    }
    let rx: i64 = if v.x < 0 {
        -(sx as i64)
    } else {
        sx as i64
    };
    let ry: i64 = if v.y < 0 {
        -(sy as i64)
    } else {
        sy as i64
    };
    Vec2 { x: rx, y: ry }
}

/// A vector whose squared length lies in the band for `l` has coordinates
/// bounded by `2*l + 1`.
pub proof fn lemma_close_in_range(off: GVec, l: int)
    requires
        close_to_length(glen_sq(off), l),
        0 <= l,
    ensures
        in_range(off, 2 * l + 1),
{
    let k = UNIT as int;
    let d = glen_sq(off);
    assert(off.x * off.x <= d && off.y * off.y <= d && 0 <= d) by (nonlinear_arith)
        requires
            d == off.x * off.x + off.y * off.y,
    ;
    assert(l * l * (k + 1) * (k + 1) <= ((2 * l + 1) * k) * ((2 * l + 1) * k))
        by (nonlinear_arith)
        requires
            0 <= l,
            k == 1024,
    ;
    assert((off.x * k) * (off.x * k) <= d * (k * k)) by (nonlinear_arith)
        requires
            off.x * off.x <= d,
            k == 1024,
    ;
    assert((off.y * k) * (off.y * k) <= d * (k * k)) by (nonlinear_arith)
        requires
            off.y * off.y <= d,
            k == 1024,
    ;
    assert(-(2 * l + 1) <= off.x <= 2 * l + 1) by (nonlinear_arith)
        requires
            (off.x * k) * (off.x * k) <= ((2 * l + 1) * k) * ((2 * l + 1) * k),
            0 <= l,
            k == 1024,
    ;
    assert(-(2 * l + 1) <= off.y <= 2 * l + 1) by (nonlinear_arith)
        requires
            (off.y * k) * (off.y * k) <= ((2 * l + 1) * k) * ((2 * l + 1) * k),
            0 <= l,
            k == 1024,
    ;
}

/// Largest coordinate magnitude of a point handed to `place_at` and
/// `dir_toward`.
pub const PLACE_POS: i64 = 0x200000000000;

/// The point at which a constrained joint comes to stand: `cur` pulled to
/// distance `l` from `anchor` along its current direction. An offset whose
/// length is already inside the rounding band is kept as it is, so settled
/// chains do not drift. If `cur` coincides with `anchor`, the fallback
/// direction `fb` is used instead.
pub open spec fn place_spec(anchor: GVec, cur: GVec, l: int, fb: GVec) -> GVec {
    let off = gsub(cur, anchor);
    if close_to_length(glen_sq(off), l) {
        cur
    } else if gzero(off) {
        if gzero(fb) {
            anchor
        } else {
            gadd(anchor, scale_len(fb, l))
        }
    } else {
        gadd(anchor, scale_len(off, l))
    }
}

/// The direction from `from` to `to` at scale `UNIT`, or `keep` when the
/// two points coincide.
pub open spec fn dir_spec(from: GVec, to: GVec, keep: GVec) -> GVec {
    let off = gsub(to, from);
    if gzero(off) {
        keep
    } else {
        scale_len(off, UNIT as int)
    }
}

/// Everything `place_spec` guarantees, at the spec level: the placed point
/// is at distance `l` from the anchor up to the rounding band, and within
/// `2*l + 1` of it in each coordinate.
pub proof fn lemma_place_props(anchor: GVec, cur: GVec, l: int, fb: GVec)
    requires
        !gzero(fb),
        in_range(fb, MAX_OFF as int),
        in_range(anchor, PLACE_POS as int),
        in_range(cur, PLACE_POS as int),
        0 <= l <= MAX_SCALE as int,
    ensures
        close_to_length(gdist_sq(place_spec(anchor, cur, l, fb), anchor), l),
        in_range(gsub(place_spec(anchor, cur, l, fb), anchor), 2 * l + 1),
{
    let off = gsub(cur, anchor);
    let r = place_spec(anchor, cur, l, fb);
    if close_to_length(glen_sq(off), l) {
        assert(gsub(r, anchor) == off);
        assert(gdist_sq(r, anchor) == glen_sq(off));
        lemma_close_in_range(off, l);
    } else if gzero(off) {
        lemma_scale_len_props(fb, l);
        assert(gsub(r, anchor) == scale_len(fb, l));
        lemma_close_in_range(gsub(r, anchor), l);
    } else {
        lemma_scale_len_props(off, l);
        assert(gsub(r, anchor) == scale_len(off, l));
        lemma_close_in_range(gsub(r, anchor), l);
    }
}

/// Whether `d_sq` (a squared length, below `2^100`) lies in the rounding
/// band for `l`.
pub fn close_check(d_sq: i128, l: i64) -> (r: bool)
    requires
        0 <= d_sq < 0x10000000000000000000000000,
        0 <= l <= MAX_SCALE,
    ensures
        r == close_to_length(d_sq as int, l as int),
{
    let li = l as i128;
    proof {
        assert(li * li <= 0x10000000000000000 && 4 * li <= 0x400000001
            && li * li * 1025 * 1025 < 0x80000000000000000000000000000000
            && d_sq * (1024i128 * 1024) < 0x80000000000000000000000000000000)
            by (nonlinear_arith)
            requires
                0 <= li <= 0x100000000,
                0 <= d_sq < 0x10000000000000000000000000,
        ;
    }
    li * li - 4 * li <= d_sq && d_sq * (1024i128 * 1024) <= li * li * 1025 * 1025
}

/// Executable `place_spec`.
pub fn place_at(anchor: Vec2, cur: Vec2, l: i64, fb: Vec2) -> (r: Vec2)
    requires
        !gzero(fb@),
        in_range(fb@, MAX_OFF as int),
        in_range(anchor@, PLACE_POS as int),
        in_range(cur@, PLACE_POS as int),
        0 <= l <= MAX_SCALE,
    ensures
        r@ == place_spec(anchor@, cur@, l as int, fb@),
        close_to_length(gdist_sq(r@, anchor@), l as int),
        in_range(gsub(r@, anchor@), 2 * (l as int) + 1),
{
    proof {
        lemma_place_props(anchor@, cur@, l as int, fb@);
    }
    let off = cur.minus(anchor);
    let d_sq = off.len_sq();
    proof {
        assert(0 <= d_sq < 0x10000000000000000000000000) by (nonlinear_arith)
            requires
                d_sq as int == off@.x * off@.x + off@.y * off@.y,
                in_range(off@, 0x400000000000),
        ;
    }
    if close_check(d_sq, l) {
        cur
    } else if off.x == 0 && off.y == 0 {
        anchor.plus(scale_to_length(fb, l))
    } else {
        anchor.plus(scale_to_length(off, l))
    }
}

/// Executable `dir_spec`. The result is never zero and fits in `UNIT`
/// unless it is the kept fallback.
pub fn dir_toward(from: Vec2, to: Vec2, keep: Vec2) -> (r: Vec2)
    requires
        !gzero(keep@),
        in_range(keep@, MAX_OFF as int),
        in_range(from@, PLACE_POS as int),
        in_range(to@, PLACE_POS as int),
    ensures
        r@ == dir_spec(from@, to@, keep@),
        !gzero(r@),
        r@ == keep@ || in_range(r@, UNIT as int),
{
    let off = to.minus(from);
    if off.x == 0 && off.y == 0 {
        keep
    } else {
        let r = scale_to_length(off, UNIT);
        proof {
            lemma_dir_nonzero(r@);
        }
        r
    }
}

/// A vector in the band for `UNIT` is not the zero vector.
pub proof fn lemma_dir_nonzero(r: GVec)
    requires
        close_to_length(glen_sq(r), UNIT as int),
    ensures
        !gzero(r),
{
    if gzero(r) {
        assert(glen_sq(r) == 0) by (nonlinear_arith)
            requires
                r.x == 0,
                r.y == 0,
        ;
    }
}

} // verus!
