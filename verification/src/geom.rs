//! Basic plane geometry: integer points, squared distances, bounding rects.

use vstd::prelude::*;

verus! {

/// Exclusive upper bound on the side length of any pixel grid the library
/// handles.  Keeping every coordinate below this bound lets all squared
/// distances and their sums over a grid fit comfortably in `u64`.
pub const MAX_SIDE: usize = 8192;

/// An integer pixel position (or local curve coordinate).
#[derive(Clone, Copy, PartialEq, Eq, Structural, Debug)]
pub struct Point {
    pub x: usize,
    pub y: usize,
}

/// Squared Euclidean distance between `(px, py)` and `(qx, qy)`.
pub open spec fn sq_dist(px: int, py: int, qx: int, qy: int) -> int {
    (px - qx) * (px - qx) + (py - qy) * (py - qy)
}

/// Squared distance between two points.
pub open spec fn pt_sq_dist(p: Point, q: Point) -> int {
    sq_dist(p.x as int, p.y as int, q.x as int, q.y as int)
}

pub proof fn lemma_sq_dist_nonneg(px: int, py: int, qx: int, qy: int)
    ensures
        sq_dist(px, py, qx, qy) >= 0,
        (px == qx && py == qy) <==> sq_dist(px, py, qx, qy) == 0,
{
    let dx = px - qx;
    let dy = py - qy;
    assert(dx * dx >= 0 && dy * dy >= 0) by (nonlinear_arith);
    assert(dx != 0 ==> dx * dx > 0) by (nonlinear_arith);
    assert(dy != 0 ==> dy * dy > 0) by (nonlinear_arith);
}

pub proof fn lemma_sq_dist_bound(px: int, py: int, qx: int, qy: int)
    requires
        0 <= px <= MAX_SIDE,
        0 <= py <= MAX_SIDE,
        0 <= qx <= MAX_SIDE,
        0 <= qy <= MAX_SIDE,
    ensures
        sq_dist(px, py, qx, qy) <= 2 * (MAX_SIDE as int) * (MAX_SIDE as int),
{
    let dx = px - qx;
    let dy = py - qy;
    assert(dx * dx <= (MAX_SIDE as int) * (MAX_SIDE as int)) by (nonlinear_arith)
        requires -(MAX_SIDE as int) <= dx <= MAX_SIDE as int;
    assert(dy * dy <= (MAX_SIDE as int) * (MAX_SIDE as int)) by (nonlinear_arith)
        requires -(MAX_SIDE as int) <= dy <= MAX_SIDE as int;
}

/// Computes the squared distance between two in-range points.
pub fn sq_dist_u64(p: Point, q: Point) -> (r: u64)
    requires
        p.x <= MAX_SIDE,
        p.y <= MAX_SIDE,
        q.x <= MAX_SIDE,
        q.y <= MAX_SIDE,
    ensures
        r == pt_sq_dist(p, q),
        r <= 2 * (MAX_SIDE as int) * (MAX_SIDE as int),
{
    proof {
        lemma_sq_dist_nonneg(p.x as int, p.y as int, q.x as int, q.y as int);
        lemma_sq_dist_bound(p.x as int, p.y as int, q.x as int, q.y as int);
    }
    let dx: i64 = p.x as i64 - q.x as i64;
    let dy: i64 = p.y as i64 - q.y as i64;
    proof {
        let m = MAX_SIDE as int;
        assert(0 <= dx * dx <= m * m) by (nonlinear_arith)
            requires -m <= dx <= m;
        assert(0 <= dy * dy <= m * m) by (nonlinear_arith)
            requires -m <= dy <= m;
    }
    (dx * dx + dy * dy) as u64
}

/// The bounding rectangle of a set of pixels; `min_* <= max_*` always holds.
#[derive(Clone, Copy, PartialEq, Eq, Structural, Debug)]
pub struct BoundingRect {
    pub min_x: usize,
    pub min_y: usize,
    pub max_x: usize,
    pub max_y: usize,
}

impl BoundingRect {
    /// Basic shape invariant: ordered bounds, confined to a grid of side `s`.
    pub open spec fn wf(self, s: int) -> bool {
        &&& self.min_x <= self.max_x < s
        &&& self.min_y <= self.max_y < s
    }
}

} // verus!
