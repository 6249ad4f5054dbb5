//! Corner location: the boundary pixel nearest a reference point.
//!
//! Corner search scans the border pixels, skipping jag-flagged ones, and
//! returns the pixel with the minimum squared distance to a reference
//! corner of the canvas; taking the nearest real pixel rather than a
//! theoretical geometric point absorbs segmentation noise.  Ties go to
//! the first pixel in row-major order, so the result is a function of
//! the mask and the reference point.

use vstd::prelude::*;
use crate::geom::{Point, MAX_SIDE, pt_sq_dist, sq_dist_u64};
use crate::flood::in_grid;
use crate::mask::{Mask, PixelClass, cgrid};

verus! {

/// A cell eligible for corner search: border, not jag-flagged.
pub open spec fn corner_cand(m: Mask, x: int, y: int) -> bool {
    m.at(x, y) == PixelClass::Border && !m.jag_at(x, y)
}

/// `p` is the first (row-major) eligible cell with minimal squared
/// distance to `target`.
pub open spec fn nearest_rel(m: Mask, target: Point, p: Point) -> bool {
    &&& in_grid(m.s as int, p.x as int, p.y as int)
    &&& corner_cand(m, p.x as int, p.y as int)
    &&& forall|x: int, y: int|
        in_grid(m.s as int, x, y) && #[trigger] corner_cand(m, x, y) ==> pt_sq_dist(target, p)
            <= pt_sq_dist(target, Point { x: x as usize, y: y as usize })
    &&& forall|x: int, y: int|
        in_grid(m.s as int, x, y) && #[trigger] corner_cand(m, x, y) && (y < p.y || (y == p.y && x
            < p.x)) ==> pt_sq_dist(target, p) < pt_sq_dist(
            target,
            Point { x: x as usize, y: y as usize },
        )
}

/// Finds the first eligible boundary pixel nearest the target, or `None`
/// when the boundary has no eligible pixel at all.
pub fn nearest_border(mask: &Mask, target: Point) -> (r: Option<Point>)
    requires
        mask.wf(),
        target.x <= MAX_SIDE,
        target.y <= MAX_SIDE,
    ensures
        match r {
            Some(p) => nearest_rel(*mask, target, p),
            None => forall|x: int, y: int|
                in_grid(mask.s as int, x, y) ==> !(#[trigger] corner_cand(*mask, x, y)),
        },
{
    let s = mask.s;
    let mut best: Point = Point { x: 0, y: 0 };
    let mut best_d: u64 = 0;
    let mut found = false;
    let mut y: usize = 0;
    while y < s
        invariant
            mask.wf(),
            s == mask.s,
            target.x <= MAX_SIDE,
            target.y <= MAX_SIDE,
            0 <= y <= s,
            !found ==> forall|x2: int, y2: int|
                0 <= y2 < y && 0 <= x2 < s ==> !(#[trigger] corner_cand(*mask, x2, y2)),
            found ==> in_grid(s as int, best.x as int, best.y as int) && corner_cand(
                *mask,
                best.x as int,
                best.y as int,
            ) && best_d == pt_sq_dist(target, best) && best.y < y,
            found ==> forall|x2: int, y2: int|
                0 <= y2 < y && 0 <= x2 < s && #[trigger] corner_cand(*mask, x2, y2) ==> best_d
                    <= pt_sq_dist(target, Point { x: x2 as usize, y: y2 as usize }),
            found ==> forall|x2: int, y2: int|
                0 <= y2 < y && 0 <= x2 < s && #[trigger] corner_cand(*mask, x2, y2) && (y2
                    < best.y || (y2 == best.y && x2 < best.x)) ==> best_d < pt_sq_dist(
                    target,
                    Point { x: x2 as usize, y: y2 as usize },
                ),
        decreases s - y,
    {
        let mut x: usize = 0;
        while x < s
            invariant
                mask.wf(),
                s == mask.s,
                target.x <= MAX_SIDE,
                target.y <= MAX_SIDE,
                y < s,
                0 <= x <= s,
                !found ==> forall|x2: int, y2: int|
                    ((0 <= y2 < y && 0 <= x2 < s) || (y2 == y && 0 <= x2 < x)) ==> !(
                    #[trigger] corner_cand(*mask, x2, y2)),
                found ==> in_grid(s as int, best.x as int, best.y as int) && corner_cand(
                    *mask,
                    best.x as int,
                    best.y as int,
                ) && best_d == pt_sq_dist(target, best) && (best.y < y || (best.y == y && best.x
                    < x)),
                found ==> forall|x2: int, y2: int|
                    ((0 <= y2 < y && 0 <= x2 < s) || (y2 == y && 0 <= x2 < x))
                        && #[trigger] corner_cand(*mask, x2, y2) ==> best_d <= pt_sq_dist(
                        target,
                        Point { x: x2 as usize, y: y2 as usize },
                    ),
                found ==> forall|x2: int, y2: int|
                    ((0 <= y2 < y && 0 <= x2 < s) || (y2 == y && 0 <= x2 < x))
                        && #[trigger] corner_cand(*mask, x2, y2) && (y2 < best.y || (y2 == best.y
                        && x2 < best.x)) ==> best_d < pt_sq_dist(
                        target,
                        Point { x: x2 as usize, y: y2 as usize },
                    ),
            decreases s - x,
        {
            let c = mask.get(x, y);
            let j = mask.get_jag(x, y);
            if matches!(c, PixelClass::Border) && !j {
                let p = Point { x, y };
                let d = sq_dist_u64(target, p);
                if !found || d < best_d {
                    best = p;
                    best_d = d;
                    found = true;
                }
            }
            x += 1;
        }
        y += 1;
    }
    if found {
        Some(best)
    } else {
        None
    }
}

/// The two reference corners fail when the pruned boundary is empty.
#[derive(Clone, Copy, PartialEq, Eq, Structural, Debug)]
pub struct CornerError {
    pub side: usize,
}

/// Locates the two reference corners: the eligible boundary pixel
/// nearest the canvas origin (top) and the one nearest `(0, s)`
/// (bottom).  Fails exactly when no eligible boundary pixel remains.
pub fn find_corners(mask: &Mask) -> (r: Result<(Point, Point), CornerError>)
    requires
        mask.wf(),
    ensures
        match r {
            Ok(pair) => nearest_rel(*mask, Point { x: 0, y: 0 }, pair.0) && nearest_rel(
                *mask,
                Point { x: 0, y: mask.s },
                pair.1,
            ),
            Err(e) => e.side == mask.s && forall|x: int, y: int|
                in_grid(mask.s as int, x, y) ==> !(#[trigger] corner_cand(*mask, x, y)),
        },
{
    let top = nearest_border(mask, Point { x: 0, y: 0 });
    match top {
        None => Err(CornerError { side: mask.s }),
        Some(t) => {
            let bottom = nearest_border(mask, Point { x: 0, y: mask.s });
            match bottom {
                None => {
                    // Unreachable: the top search already found an
                    // eligible pixel, so the bottom search must too.
                    proof {
                        assert(false);
                    }
                    Err(CornerError { side: mask.s })
                },
                Some(b) => Ok((t, b)),
            }
        },
    }
}

} // verus!
