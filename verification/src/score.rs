//! Edge comparison scores, as mathematical definitions.
//!
//! Two edges are compared by flipping one 180 degrees about its own
//! bounding box and summing, over every flipped point, the minimum squared
//! distance to any point of the other edge.  `diff_spec` is that
//! one-directional sum; `score_spec` is the symmetric sum of both
//! directions.  The lemmas here state the algebraic laws of these
//! definitions: invariance under point-order permutation, symmetry of the
//! match score, and the exact-mirror zero score.

use vstd::prelude::*;
use vstd::seq_lib::lemma_fold_left_permutation;
use vstd::seq_lib::commutative_foldl;
use crate::geom::{Point, MAX_SIDE, sq_dist, lemma_sq_dist_nonneg, lemma_sq_dist_bound};
use crate::edge::{EdgeCurve, max_x_of, max_y_of, lemma_max_of_props, flip_seq, flip_pt};

verus! {

/// Minimum of two integers.
pub open spec fn imin(a: int, b: int) -> int {
    if a <= b {
        a
    } else {
        b
    }
}

/// A distance value larger than any squared distance between points the
/// library can represent; the neutral element of the running minimum.
pub open spec fn far_dist() -> int {
    0x10000000000000000int * 0x10000000000000000int * 0x1000int
}

/// Any squared distance between a moderately bounded query point and a
/// machine-representable point stays below `far_dist()`.
pub proof fn lemma_sq_dist_lt_far(qx: int, qy: int, px: int, py: int)
    requires
        -0x10000000000000000int <= qx <= 0x10000000000000000int,
        -0x10000000000000000int <= qy <= 0x10000000000000000int,
        0 <= px < 0x10000000000000000int,
        0 <= py < 0x10000000000000000int,
    ensures
        sq_dist(qx, qy, px, py) < far_dist(),
{
    let w: int = 0x10000000000000000;
    let dx = qx - px;
    let dy = qy - py;
    assert(dx * dx <= (2 * w) * (2 * w)) by (nonlinear_arith)
        requires -2 * w <= dx <= 2 * w;
    assert(dy * dy <= (2 * w) * (2 * w)) by (nonlinear_arith)
        requires -2 * w <= dy <= 2 * w;
    assert((2 * w) * (2 * w) * 2 < w * w * 0x1000) by (nonlinear_arith)
        requires w == 0x10000000000000000;
}

/// The folding step of the running minimum of squared distances to
/// `(qx, qy)`.
pub open spec fn min_step(qx: int, qy: int) -> spec_fn(int, Point) -> int {
    |m: int, p: Point| imin(m, sq_dist(qx, qy, p.x as int, p.y as int))
}

/// Minimum squared distance from `(qx, qy)` to any point of `pts`
/// (`far_dist()` when `pts` is empty).
pub open spec fn min_d2(qx: int, qy: int, pts: Seq<Point>) -> int {
    pts.fold_left(far_dist(), min_step(qx, qy))
}

/// The folding step of the one-directional comparison sum: each point of
/// the first curve is flipped about `(mx, my)` and charged its minimum
/// squared distance to the second curve `b`.
pub open spec fn sum_step(mx: int, my: int, b: Seq<Point>) -> spec_fn(int, Point) -> int {
    |s: int, p: Point| s + min_d2(mx - p.x, my - p.y, b)
}

/// One-directional comparison: the first point list, flipped about
/// `(mx, my)`, summed against the second point list.
pub open spec fn one_way(apts: Seq<Point>, mx: int, my: int, b: Seq<Point>) -> int {
    apts.fold_left(0, sum_step(mx, my, b))
}

/// `compareEdges(a, b)`: a's points, flipped about a's own bounding box,
/// summed against b's points.
pub open spec fn diff_spec(a: EdgeCurve, b: EdgeCurve) -> int {
    one_way(a.pts@, a.max_x as int, a.max_y as int, b.pts@)
}

/// The symmetric match score of two edges.
pub open spec fn score_spec(a: EdgeCurve, b: EdgeCurve) -> int {
    diff_spec(a, b) + diff_spec(b, a)
}

/// Largest value `diff_spec` can take on well-formed curves.
pub open spec fn diff_bound() -> int {
    (MAX_SIDE as int) * (MAX_SIDE as int) * (2 * (MAX_SIDE as int) * (MAX_SIDE as int))
}

/// The running minimum attains a distance to one of the points, bounds all
/// of them from below, and stays within `[0, far_dist()]`.
pub proof fn lemma_min_d2_props(qx: int, qy: int, pts: Seq<Point>)
    requires
        -0x10000000000000000int <= qx <= 0x10000000000000000int,
        -0x10000000000000000int <= qy <= 0x10000000000000000int,
    ensures
        0 <= min_d2(qx, qy, pts) <= far_dist(),
        forall|i: int|
            0 <= i < pts.len() ==> min_d2(qx, qy, pts) <= sq_dist(
                qx,
                qy,
                (#[trigger] pts[i]).x as int,
                pts[i].y as int,
            ),
        pts.len() > 0 ==> exists|i: int|
            0 <= i < pts.len() && min_d2(qx, qy, pts) == sq_dist(
                qx,
                qy,
                (#[trigger] pts[i]).x as int,
                pts[i].y as int,
            ),
    decreases pts.len(),
{
    if pts.len() == 0 {
    } else {
        let rest = pts.drop_last();
        lemma_min_d2_props(qx, qy, rest);
        let p = pts.last();
        lemma_sq_dist_nonneg(qx, qy, p.x as int, p.y as int);
        lemma_sq_dist_lt_far(qx, qy, p.x as int, p.y as int);
        assert(min_d2(qx, qy, pts) == imin(
            min_d2(qx, qy, rest),
            sq_dist(qx, qy, p.x as int, p.y as int),
        ));
        assert(forall|i: int| 0 <= i < pts.len() - 1 ==> pts[i] == rest[i]);
        assert(pts[pts.len() - 1] == p);
        assert forall|i: int| 0 <= i < pts.len() implies min_d2(qx, qy, pts) <= sq_dist(
            qx,
            qy,
            (#[trigger] pts[i]).x as int,
            pts[i].y as int,
        ) by {
            if i < pts.len() - 1 {
                assert(rest[i] == pts[i]);
                assert(min_d2(qx, qy, rest) <= sq_dist(
                    qx,
                    qy,
                    rest[i].x as int,
                    rest[i].y as int,
                ));
            }
        }
        if min_d2(qx, qy, pts) == sq_dist(qx, qy, p.x as int, p.y as int) {
            assert(min_d2(qx, qy, pts) == sq_dist(
                qx,
                qy,
                (pts[pts.len() - 1]).x as int,
                pts[pts.len() - 1].y as int,
            ));
        } else {
            if rest.len() > 0 {
                let j = choose|j: int|
                    0 <= j < rest.len() && min_d2(qx, qy, rest) == sq_dist(
                        qx,
                        qy,
                        (#[trigger] rest[j]).x as int,
                        rest[j].y as int,
                    );
                assert(min_d2(qx, qy, pts) == sq_dist(
                    qx,
                    qy,
                    (pts[j]).x as int,
                    pts[j].y as int,
                ));
            }
        }
    }
}

/// The running minimum only depends on which points occur, not on their
/// order: permuting the point list leaves it unchanged.
pub proof fn lemma_min_d2_perm(qx: int, qy: int, b1: Seq<Point>, b2: Seq<Point>)
    requires
        b1.to_multiset() == b2.to_multiset(),
    ensures
        min_d2(qx, qy, b1) == min_d2(qx, qy, b2),
{
    assert(commutative_foldl(min_step(qx, qy)));
    lemma_fold_left_permutation(b1, b2, min_step(qx, qy), far_dist());
}

/// If `(qx, qy)` is itself one of the points, the minimum distance is 0.
pub proof fn lemma_min_d2_zero(p: Point, pts: Seq<Point>)
    requires
        pts.contains(p),
    ensures
        min_d2(p.x as int, p.y as int, pts) == 0,
{
    lemma_min_d2_props(p.x as int, p.y as int, pts);
    let i = choose|i: int| 0 <= i < pts.len() && pts[i] == p;
    lemma_sq_dist_nonneg(p.x as int, p.y as int, pts[i].x as int, pts[i].y as int);
    assert(min_d2(p.x as int, p.y as int, pts) <= 0);
}

/// The one-directional sum is non-negative, and bounded once the target
/// list is nonempty with grid-bounded coordinates and the flip box is
/// grid-bounded.
pub proof fn lemma_one_way_props(apts: Seq<Point>, mx: int, my: int, b: Seq<Point>)
    requires
        b.len() > 0,
        forall|i: int| 0 <= i < b.len() ==> (#[trigger] b[i]).x < MAX_SIDE && b[i].y < MAX_SIDE,
        0 <= mx < MAX_SIDE,
        0 <= my < MAX_SIDE,
        forall|i: int| 0 <= i < apts.len() ==> (#[trigger] apts[i]).x <= mx && apts[i].y <= my,
    ensures
        0 <= one_way(apts, mx, my, b) <= apts.len() * (2 * (MAX_SIDE as int) * (MAX_SIDE as int)),
    decreases apts.len(),
{
    let m2 = 2 * (MAX_SIDE as int) * (MAX_SIDE as int);
    if apts.len() == 0 {
    } else {
        let rest = apts.drop_last();
        assert(forall|i: int| 0 <= i < rest.len() ==> rest[i] == apts[i]);
        lemma_one_way_props(rest, mx, my, b);
        let p = apts.last();
        let qx = mx - p.x;
        let qy = my - p.y;
        assert(one_way(apts, mx, my, b) == one_way(rest, mx, my, b) + min_d2(qx, qy, b));
        lemma_min_d2_props(qx, qy, b);
        lemma_sq_dist_bound(qx, qy, b[0].x as int, b[0].y as int);
        assert(min_d2(qx, qy, b) <= sq_dist(qx, qy, b[0].x as int, b[0].y as int));
        assert(rest.len() * m2 + m2 == apts.len() * m2) by (nonlinear_arith)
            requires rest.len() == apts.len() - 1, apts.len() >= 1;
    }
}

/// If every flipped point of the first list occurs in the second list,
/// the one-directional sum is exactly 0.
pub proof fn lemma_one_way_zero(apts: Seq<Point>, mx: int, my: int, b: Seq<Point>)
    requires
        0 <= mx < MAX_SIDE,
        0 <= my < MAX_SIDE,
        forall|i: int| 0 <= i < apts.len() ==> (#[trigger] apts[i]).x <= mx && apts[i].y <= my,
        forall|i: int| 0 <= i < apts.len() ==> b.contains(flip_pt(#[trigger] apts[i], mx, my)),
    ensures
        one_way(apts, mx, my, b) == 0,
    decreases apts.len(),
{
    if apts.len() == 0 {
    } else {
        let rest = apts.drop_last();
        assert(forall|i: int| 0 <= i < rest.len() ==> rest[i] == apts[i]);
        lemma_one_way_zero(rest, mx, my, b);
        let p = apts.last();
        assert(p == apts[apts.len() - 1]);
        let fp = flip_pt(p, mx, my);
        assert(b.contains(fp));
        lemma_min_d2_zero(fp, b);
        assert(fp.x as int == mx - p.x && fp.y as int == my - p.y);
        assert(one_way(apts, mx, my, b) == one_way(rest, mx, my, b) + min_d2(
            mx - p.x,
            my - p.y,
            b,
        ));
    }
}

/// Two well-formed curves carrying the same points have the same bounding
/// box: the stored maxima are determined by the point multiset alone.
pub proof fn lemma_same_points_same_box(a1: EdgeCurve, a2: EdgeCurve)
    requires
        a1.wf(),
        a2.wf(),
        a1.pts@.to_multiset() == a2.pts@.to_multiset(),
    ensures
        a1.max_x == a2.max_x,
        a1.max_y == a2.max_y,
{
    broadcast use vstd::seq_lib::group_to_multiset_ensures;

    lemma_max_of_props(a1.pts@);
    lemma_max_of_props(a2.pts@);
    let px = choose|i: int|
        0 <= i < a1.pts@.len() && (#[trigger] a1.pts@[i]).x == max_x_of(a1.pts@);
    lemma_multiset_carries(a1.pts@, a2.pts@, a1.pts@[px]);
    let py = choose|i: int|
        0 <= i < a1.pts@.len() && (#[trigger] a1.pts@[i]).y == max_y_of(a1.pts@);
    lemma_multiset_carries(a1.pts@, a2.pts@, a1.pts@[py]);
    let qx = choose|i: int|
        0 <= i < a2.pts@.len() && (#[trigger] a2.pts@[i]).x == max_x_of(a2.pts@);
    lemma_multiset_carries(a2.pts@, a1.pts@, a2.pts@[qx]);
    let qy = choose|i: int|
        0 <= i < a2.pts@.len() && (#[trigger] a2.pts@[i]).y == max_y_of(a2.pts@);
    lemma_multiset_carries(a2.pts@, a1.pts@, a2.pts@[qy]);
}

/// A point contained in one of two multiset-equal sequences is contained
/// in the other.
proof fn lemma_multiset_carries(s1: Seq<Point>, s2: Seq<Point>, p: Point)
    requires
        s1.to_multiset() == s2.to_multiset(),
        s1.contains(p),
    ensures
        s2.contains(p),
{
    broadcast use vstd::seq_lib::group_to_multiset_ensures;

    assert(s1.to_multiset().count(p) > 0);
    assert(s2.to_multiset().count(p) > 0);
}

/// `compareEdges` is invariant to the order in which either curve's
/// points were listed: curves carrying the same point multisets compare
/// identically.
pub proof fn lemma_compare_perm(a1: EdgeCurve, b1: EdgeCurve, a2: EdgeCurve, b2: EdgeCurve)
    requires
        a1.wf(),
        a2.wf(),
        b1.wf(),
        b2.wf(),
        a1.pts@.to_multiset() == a2.pts@.to_multiset(),
        b1.pts@.to_multiset() == b2.pts@.to_multiset(),
    ensures
        diff_spec(a1, b1) == diff_spec(a2, b2),
{
    lemma_same_points_same_box(a1, a2);
    let mx = a1.max_x as int;
    let my = a1.max_y as int;
    let f1 = sum_step(mx, my, b1.pts@);
    let f2 = sum_step(mx, my, b2.pts@);
    assert forall|s: int, p: Point| #[trigger] f1(s, p) == f2(s, p) by {
        lemma_min_d2_perm(mx - p.x, my - p.y, b1.pts@, b2.pts@);
    }
    assert(f1 =~= f2);
    assert(commutative_foldl(f2));
    lemma_fold_left_permutation(a1.pts@, a2.pts@, f2, 0);
    assert(diff_spec(a1, b1) == a1.pts@.fold_left(0, f1));
    assert(diff_spec(a2, b2) == a2.pts@.fold_left(0, f2));
}

/// The match score is symmetric in its two edges.
pub proof fn lemma_score_symmetric(a: EdgeCurve, b: EdgeCurve)
    ensures
        score_spec(a, b) == score_spec(b, a),
{
}

/// Comparing a curve against its own 180-degree flip gives exactly 0:
/// every flipped point lands on a point of the flipped curve.
pub proof fn lemma_flip_diff_zero(a: EdgeCurve, f: EdgeCurve)
    requires
        a.wf(),
        f.pts@ == flip_seq(a.pts@, a.max_x as int, a.max_y as int),
    ensures
        diff_spec(a, f) == 0,
{
    let mx = a.max_x as int;
    let my = a.max_y as int;
    lemma_max_of_props(a.pts@);
    assert forall|i: int| 0 <= i < a.pts@.len() implies f.pts@.contains(
        flip_pt(#[trigger] a.pts@[i], mx, my),
    ) by {
        assert(f.pts@[i] == flip_pt(a.pts@[i], mx, my));
    }
    lemma_one_way_zero(a.pts@, mx, my, f.pts@);
}

/// One-directional scores of well-formed curves are non-negative and fit
/// well under `u64`.
pub proof fn lemma_diff_in_range(a: EdgeCurve, b: EdgeCurve)
    requires
        a.wf(),
        b.wf(),
    ensures
        0 <= diff_spec(a, b) <= diff_bound(),
{
    let m2 = 2 * (MAX_SIDE as int) * (MAX_SIDE as int);
    lemma_max_of_props(a.pts@);
    lemma_max_of_props(b.pts@);
    lemma_one_way_props(a.pts@, a.max_x as int, a.max_y as int, b.pts@);
    assert(a.pts@.len() * m2 <= (MAX_SIDE as int) * (MAX_SIDE as int) * m2) by (nonlinear_arith)
        requires a.pts@.len() <= (MAX_SIDE as int) * (MAX_SIDE as int), m2 >= 0;
}

} // verus!
