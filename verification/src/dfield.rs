//! Per-edge distance fields: a write-once cache of minimum squared
//! distances from query points to an edge's point list.
//!
//! A field is created once per edge and queried many times; each queried
//! point's answer is computed on first use and then served from the cache
//! for the life of the process (edges never change).

use vstd::prelude::*;
use std::collections::HashMap;
use crate::geom::{Point, MAX_SIDE, sq_dist, sq_dist_u64, lemma_sq_dist_nonneg, lemma_sq_dist_bound};
use crate::score::{min_d2, imin, far_dist, lemma_min_d2_props, lemma_sq_dist_lt_far};

verus! {

broadcast use vstd::std_specs::hash::group_hash_axioms;

/// The lazily filled distance field of one edge's point list.
pub struct DistanceField {
    /// The edge's points; fixed at construction.
    pub pts: Vec<Point>,
    /// Maps an encoded query point `y * MAX_SIDE + x` to the minimum
    /// squared distance from `(x, y)` to any point of `pts`.
    pub cache: HashMap<u64, u64>,
}

/// The query point a cache key encodes.
pub open spec fn key_x(k: u64) -> int {
    k as int % (MAX_SIDE as int)
}

/// The query point a cache key encodes.
pub open spec fn key_y(k: u64) -> int {
    k as int / (MAX_SIDE as int)
}

impl DistanceField {
    /// Well-formedness: a nonempty grid-bounded point list, and a cache
    /// that only ever holds true minimum distances.
    pub open spec fn wf(self) -> bool {
        &&& 1 <= self.pts@.len() <= (MAX_SIDE as int) * (MAX_SIDE as int)
        &&& forall|i: int|
            0 <= i < self.pts@.len() ==> (#[trigger] self.pts@[i]).x < MAX_SIDE
                && self.pts@[i].y < MAX_SIDE
        &&& forall|k: u64|
            #[trigger] self.cache@.contains_key(k) ==> self.cache@[k] == min_d2(
                key_x(k),
                key_y(k),
                self.pts@,
            )
    }

    /// Builds the (empty) distance field of one edge's point list.
    pub fn new(pts: Vec<Point>) -> (r: DistanceField)
        requires
            1 <= pts@.len() <= (MAX_SIDE as int) * (MAX_SIDE as int),
            forall|i: int|
                0 <= i < pts@.len() ==> (#[trigger] pts@[i]).x < MAX_SIDE && pts@[i].y < MAX_SIDE,
        ensures
            r.wf(),
            r.pts@ == pts@,
    {
        DistanceField { pts, cache: HashMap::new() }
    }

    /// Returns the minimum squared distance from `(qx, qy)` to any point
    /// of the field's edge, computing and caching it on first use.
    pub fn query(&mut self, qx: usize, qy: usize) -> (r: u64)
        requires
            old(self).wf(),
            qx < MAX_SIDE,
            qy < MAX_SIDE,
        ensures
            final(self).wf(),
            final(self).pts@ == old(self).pts@,
            r == min_d2(qx as int, qy as int, old(self).pts@),
            r <= 2 * (MAX_SIDE as int) * (MAX_SIDE as int),
    {
        let key: u64 = (qy as u64) * (MAX_SIDE as u64) + (qx as u64);
        proof {
            let m = MAX_SIDE as int;
            assert((qy * m + qx) % m == qx && (qy * m + qx) / m == qy) by (nonlinear_arith)
                requires 0 <= qx < m, 0 <= qy < m;
            assert(key_x(key) == qx && key_y(key) == qy);
            lemma_min_d2_props(qx as int, qy as int, self.pts@);
            let j = choose|j: int|
                0 <= j < self.pts@.len() && min_d2(qx as int, qy as int, self.pts@) == sq_dist(
                    qx as int,
                    qy as int,
                    (#[trigger] self.pts@[j]).x as int,
                    self.pts@[j].y as int,
                );
            lemma_sq_dist_bound(qx as int, qy as int, self.pts@[j].x as int, self.pts@[j].y as int);
        }
        if let Some(v) = self.cache.get(&key) {
            return *v;
        }
        let q = Point { x: qx, y: qy };
        let ghost pts = self.pts@;
        let mut best: u64 = sq_dist_u64(q, self.pts[0]);
        proof {
            let s1 = pts.subrange(0, 1);
            assert(s1.drop_last() =~= Seq::<Point>::empty());
            assert(s1.last() == pts[0]);
            assert(min_d2(qx as int, qy as int, Seq::<Point>::empty()) == far_dist());
            lemma_sq_dist_lt_far(qx as int, qy as int, pts[0].x as int, pts[0].y as int);
            lemma_sq_dist_nonneg(qx as int, qy as int, pts[0].x as int, pts[0].y as int);
            assert(min_d2(qx as int, qy as int, s1) == imin(
                far_dist(),
                sq_dist(qx as int, qy as int, pts[0].x as int, pts[0].y as int),
            ));
        }
        let mut i: usize = 1;
        while i < self.pts.len()
            invariant
                1 <= i <= pts.len(),
                self.pts@ == pts,
                pts.len() <= (MAX_SIDE as int) * (MAX_SIDE as int),
                forall|j: int|
                    0 <= j < pts.len() ==> (#[trigger] pts[j]).x < MAX_SIDE && pts[j].y < MAX_SIDE,
                qx < MAX_SIDE,
                qy < MAX_SIDE,
                q == (Point { x: qx, y: qy }),
                best as int == min_d2(qx as int, qy as int, pts.subrange(0, i as int)),
                best <= 2 * (MAX_SIDE as int) * (MAX_SIDE as int),
            decreases pts.len() - i,
        {
            let d = sq_dist_u64(q, self.pts[i]);
            proof {
                let pre = pts.subrange(0, i as int);
                let cur = pts.subrange(0, i + 1);
                assert(cur.drop_last() =~= pre);
                assert(cur.last() == pts[i as int]);
                assert(min_d2(qx as int, qy as int, cur) == imin(
                    min_d2(qx as int, qy as int, pre),
                    sq_dist(qx as int, qy as int, pts[i as int].x as int, pts[i as int].y as int),
                ));
            }
            if d < best {
                best = d;
            }
            i += 1;
        }
        proof {
            assert(pts.subrange(0, pts.len() as int) =~= pts);
        }
        self.cache.insert(key, best);
        best
    }
}

} // verus!
