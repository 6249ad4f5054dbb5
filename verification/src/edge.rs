//! Edge curves: one side of a piece, as an ordered list of local points.
//!
//! An edge id packs the externally assigned piece id and a side id (0..3)
//! as `4 * piece + side`; "next side" and "previous side" walk the four
//! sides of one piece mod 4.

use vstd::prelude::*;
use crate::geom::{Point, MAX_SIDE};

verus! {

/// Exclusive upper bound on edge ids; leaves room for the side arithmetic
/// and keeps every id distinct from the sentinel slot of candidate lists.
pub const ID_LIMIT: u64 = 0x4000000000000000;

/// The piece an edge id belongs to.
pub open spec fn piece_of(id: u64) -> int {
    id as int / 4
}

/// The side (0..3) an edge id names.
pub open spec fn side_of(id: u64) -> int {
    id as int % 4
}

/// Id of the next side (side + 1 mod 4) of the same piece.
pub open spec fn next_side_of(id: u64) -> u64 {
    (piece_of(id) * 4 + ((side_of(id) + 1) % 4)) as u64
}

/// Id of the previous side (side - 1 mod 4) of the same piece.
pub open spec fn prev_side_of(id: u64) -> u64 {
    (piece_of(id) * 4 + ((side_of(id) + 3) % 4)) as u64
}

/// Builds the edge id `4 * piece + side`.
pub fn make_edge_id(piece: u64, side: u64) -> (r: u64)
    requires
        side < 4,
        4 * piece + side < ID_LIMIT,
    ensures
        r < ID_LIMIT,
        piece_of(r) == piece,
        side_of(r) == side,
{
    proof {
        assert((4 * piece + side) as int / 4 == piece && (4 * piece + side) as int % 4 == side)
            by (nonlinear_arith)
            requires side < 4, 4 * piece + side < ID_LIMIT;
    }
    4 * piece + side
}

/// Computes the id of the next side of the same piece.
pub fn next_side_id(id: u64) -> (r: u64)
    requires
        id < ID_LIMIT,
    ensures
        r == next_side_of(id),
        r < ID_LIMIT,
        piece_of(r) == piece_of(id),
{
    let side = id % 4;
    let base = id - side;
    proof {
        assert(base == piece_of(id) * 4 && base + 3 < ID_LIMIT && base as int / 4 == piece_of(id))
            by (nonlinear_arith)
            requires id < ID_LIMIT, side == id % 4, base == id - side;
        assert((base + ((side + 1) % 4)) as int / 4 == base as int / 4) by (nonlinear_arith)
            requires base as int % 4 == 0, base + 3 < ID_LIMIT;
    }
    base + ((side + 1) % 4)
}

/// Computes the id of the previous side of the same piece.
pub fn prev_side_id(id: u64) -> (r: u64)
    requires
        id < ID_LIMIT,
    ensures
        r == prev_side_of(id),
        r < ID_LIMIT,
        piece_of(r) == piece_of(id),
{
    let side = id % 4;
    let base = id - side;
    proof {
        assert(base == piece_of(id) * 4 && base + 3 < ID_LIMIT && base as int / 4 == piece_of(id))
            by (nonlinear_arith)
            requires id < ID_LIMIT, side == id % 4, base == id - side;
        assert((base + ((side + 3) % 4)) as int / 4 == base as int / 4) by (nonlinear_arith)
            requires base as int % 4 == 0, base + 3 < ID_LIMIT;
    }
    base + ((side + 3) % 4)
}

/// Largest x coordinate in a point list (0 when the list is empty).
pub open spec fn max_x_of(pts: Seq<Point>) -> int
    decreases pts.len(),
{
    if pts.len() == 0 {
        0
    } else {
        let m = max_x_of(pts.drop_last());
        if pts.last().x as int > m {
            pts.last().x as int
        } else {
            m
        }
    }
}

/// Largest y coordinate in a point list (0 when the list is empty).
pub open spec fn max_y_of(pts: Seq<Point>) -> int
    decreases pts.len(),
{
    if pts.len() == 0 {
        0
    } else {
        let m = max_y_of(pts.drop_last());
        if pts.last().y as int > m {
            pts.last().y as int
        } else {
            m
        }
    }
}

pub proof fn lemma_max_of_props(pts: Seq<Point>)
    ensures
        max_x_of(pts) >= 0,
        max_y_of(pts) >= 0,
        forall|i: int|
            0 <= i < pts.len() ==> (#[trigger] pts[i]).x <= max_x_of(pts) && pts[i].y <= max_y_of(
                pts,
            ),
        pts.len() > 0 ==> exists|i: int| 0 <= i < pts.len() && (#[trigger] pts[i]).x == max_x_of(
            pts,
        ),
        pts.len() > 0 ==> exists|i: int| 0 <= i < pts.len() && (#[trigger] pts[i]).y == max_y_of(
            pts,
        ),
    decreases pts.len(),
{
    if pts.len() > 0 {
        lemma_max_of_props(pts.drop_last());
        assert(forall|i: int| 0 <= i < pts.len() - 1 ==> pts[i] == pts.drop_last()[i]);
        if pts.len() == 1 {
            assert(pts[0] == pts.last());
        } else {
            if max_x_of(pts) != pts.last().x as int {
                let j = choose|j: int|
                    0 <= j < pts.drop_last().len() && (#[trigger] pts.drop_last()[j]).x
                        == max_x_of(pts.drop_last());
                assert(pts[j].x == max_x_of(pts));
            }
            if max_y_of(pts) != pts.last().y as int {
                let j = choose|j: int|
                    0 <= j < pts.drop_last().len() && (#[trigger] pts.drop_last()[j]).y
                        == max_y_of(pts.drop_last());
                assert(pts[j].y == max_y_of(pts));
            }
        }
    }
}

/// One side of a piece: an immutable ordered point list in local
/// coordinates, with its own maximal x and y, labelled by an edge id.
#[derive(Debug)]
pub struct EdgeCurve {
    pub id: u64,
    pub pts: Vec<Point>,
    pub max_x: usize,
    pub max_y: usize,
}

impl EdgeCurve {
    /// Well-formedness: a nonempty, grid-bounded point list whose stored
    /// maxima are exactly the maxima of the points.
    pub open spec fn wf(self) -> bool {
        &&& 1 <= self.pts@.len() <= (MAX_SIDE as int) * (MAX_SIDE as int)
        &&& self.max_x as int == max_x_of(self.pts@)
        &&& self.max_y as int == max_y_of(self.pts@)
        &&& self.max_x < MAX_SIDE
        &&& self.max_y < MAX_SIDE
        &&& self.id < ID_LIMIT
    }
}

/// Builds an edge curve from its points, computing the stored maxima.
pub fn new_edge(pts: Vec<Point>, id: u64) -> (r: EdgeCurve)
    requires
        1 <= pts@.len() <= (MAX_SIDE as int) * (MAX_SIDE as int),
        forall|i: int|
            0 <= i < pts@.len() ==> (#[trigger] pts@[i]).x < MAX_SIDE && pts@[i].y < MAX_SIDE,
        id < ID_LIMIT,
    ensures
        r.wf(),
        r.pts@ == pts@,
        r.id == id,
{
    let mut mx: usize = 0;
    let mut my: usize = 0;
    let mut i: usize = 0;
    proof {
        assert(pts@.subrange(0, 0) =~= Seq::<Point>::empty());
    }
    while i < pts.len()
        invariant
            0 <= i <= pts@.len(),
            pts@.len() <= (MAX_SIDE as int) * (MAX_SIDE as int),
            forall|j: int|
                0 <= j < pts@.len() ==> (#[trigger] pts@[j]).x < MAX_SIDE && pts@[j].y < MAX_SIDE,
            mx as int == max_x_of(pts@.subrange(0, i as int)),
            my as int == max_y_of(pts@.subrange(0, i as int)),
            mx < MAX_SIDE,
            my < MAX_SIDE,
        decreases pts@.len() - i,
    {
        let p = pts[i];
        proof {
            let pre = pts@.subrange(0, i as int);
            let cur = pts@.subrange(0, i + 1);
            assert(cur.drop_last() =~= pre);
            assert(cur.last() == pts@[i as int]);
        }
        if p.x > mx {
            mx = p.x;
        }
        if p.y > my {
            my = p.y;
        }
        i += 1;
    }
    proof {
        assert(pts@.subrange(0, pts@.len() as int) =~= pts@);
    }
    EdgeCurve { id, pts, max_x: mx, max_y: my }
}

/// A piece: its externally assigned id, its four side curves (side `i`
/// labelled `4 * id + i`), and the raw outline points it was cut from.
#[derive(Debug)]
pub struct PieceRecord {
    pub id: u64,
    pub sides: Vec<EdgeCurve>,
    pub outline: Vec<Point>,
}

impl PieceRecord {
    pub open spec fn wf(self) -> bool {
        &&& self.sides@.len() == 4
        &&& forall|i: int| 0 <= i < 4 ==> (#[trigger] self.sides@[i]).wf()
        &&& forall|i: int| 0 <= i < 4 ==> (#[trigger] self.sides@[i]).id == 4 * self.id + i
        &&& 4 * self.id + 3 < ID_LIMIT
    }
}

/// Assembles a piece from its four side curves, in side order.
pub fn new_piece(
    id: u64,
    s0: EdgeCurve,
    s1: EdgeCurve,
    s2: EdgeCurve,
    s3: EdgeCurve,
    outline: Vec<Point>,
) -> (r: PieceRecord)
    requires
        4 * id + 3 < ID_LIMIT,
        s0.wf() && s0.id == 4 * id,
        s1.wf() && s1.id == 4 * id + 1,
        s2.wf() && s2.id == 4 * id + 2,
        s3.wf() && s3.id == 4 * id + 3,
    ensures
        r.wf(),
        r.id == id,
        r.sides@.len() == 4,
        r.sides@[0] == s0 && r.sides@[1] == s1 && r.sides@[2] == s2 && r.sides@[3] == s3,
        r.outline@ == outline@,
{
    let mut sides: Vec<EdgeCurve> = Vec::new();
    sides.push(s0);
    sides.push(s1);
    sides.push(s2);
    sides.push(s3);
    PieceRecord { id, sides, outline }
}

/// The 180-degree flip of a point about the box `(0,0)..(mx,my)`.
pub open spec fn flip_pt(p: Point, mx: int, my: int) -> Point {
    Point { x: (mx - p.x) as usize, y: (my - p.y) as usize }
}

/// The pointwise flip of a whole point list.
pub open spec fn flip_seq(pts: Seq<Point>, mx: int, my: int) -> Seq<Point> {
    pts.map_values(|p: Point| flip_pt(p, mx, my))
}

/// Flips an edge curve 180 degrees about its own bounding box, keeping
/// its label.
pub fn flip_edge(e: &EdgeCurve) -> (r: EdgeCurve)
    requires
        e.wf(),
    ensures
        r.wf(),
        r.pts@ == flip_seq(e.pts@, e.max_x as int, e.max_y as int),
        r.id == e.id,
{
    proof {
        lemma_max_of_props(e.pts@);
    }
    let mut out: Vec<Point> = Vec::new();
    let mut i: usize = 0;
    while i < e.pts.len()
        invariant
            e.wf(),
            0 <= i <= e.pts@.len(),
            out@ =~= flip_seq(e.pts@, e.max_x as int, e.max_y as int).subrange(0, i as int),
            forall|j: int|
                0 <= j < e.pts@.len() ==> (#[trigger] e.pts@[j]).x <= e.max_x && e.pts@[j].y
                    <= e.max_y,
        decreases e.pts@.len() - i,
    {
        let p = e.pts[i];
        out.push(Point { x: e.max_x - p.x, y: e.max_y - p.y });
        proof {
            let fs = flip_seq(e.pts@, e.max_x as int, e.max_y as int);
            assert(fs[i as int] == flip_pt(e.pts@[i as int], e.max_x as int, e.max_y as int));
            assert(out@ =~= fs.subrange(0, i + 1));
        }
        i += 1;
    }
    proof {
        let fs = flip_seq(e.pts@, e.max_x as int, e.max_y as int);
        assert(fs.subrange(0, fs.len() as int) =~= fs);
        assert(forall|j: int|
            0 <= j < fs.len() ==> (#[trigger] fs[j]).x < MAX_SIDE && fs[j].y < MAX_SIDE);
    }
    new_edge(out, e.id)
}

} // verus!
