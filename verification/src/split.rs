//! Edge splitting: one side's ordered open boundary arc.
//!
//! Border is first cleared within a small radius around the two located
//! corners, cutting the closed boundary loop into open arcs.  An
//! 8-connected flood fill (8-connectivity bridges one-pixel diagonal
//! gaps) is seeded at the first remaining border pixel of the bounding
//! rectangle's vertical midpoint row — retrying the next row once — and
//! the collected arc is emitted in canonical y-major order, translated
//! to its own local origin.

use vstd::prelude::*;
use crate::geom::{Point, BoundingRect, MAX_SIDE, pt_sq_dist};
use crate::flood::{bgrid, grid_wf, in_grid, is_flood, flood_fill, get_cell};
use crate::mask::{Mask, PixelClass, cgrid, border_grid};

verus! {

/// The radius around each corner within which border is cleared.
#[derive(Clone, Copy, PartialEq, Eq, Structural, Debug)]
pub struct SplitConfig {
    pub radius: u64,
}

/// No seed pixel was found on the midpoint row or its retry row.
#[derive(Clone, Copy, PartialEq, Eq, Structural, Debug)]
pub struct EdgeSplitError {
    pub seed_row: usize,
}

/// The class a cell takes after corner clearing: border within the
/// radius of either corner is demoted to plain material.
pub open spec fn cleared_class(
    m: Seq<Seq<PixelClass>>,
    c1: Point,
    c2: Point,
    r: int,
    x: int,
    y: int,
) -> PixelClass {
    let p = Point { x: x as usize, y: y as usize };
    if m[y][x] == PixelClass::Border && (pt_sq_dist(c1, p) <= r * r || pt_sq_dist(c2, p) <= r
        * r) {
        PixelClass::Material
    } else {
        m[y][x]
    }
}

/// Demotes border to plain material within the radius of both corners.
pub fn clear_near_corners(mask: &mut Mask, c1: Point, c2: Point, cfg: SplitConfig)
    requires
        old(mask).wf(),
        c1.x <= MAX_SIDE && c1.y <= MAX_SIDE,
        c2.x <= MAX_SIDE && c2.y <= MAX_SIDE,
        cfg.radius <= MAX_SIDE as u64,
    ensures
        final(mask).wf(),
        final(mask).s == old(mask).s,
        final(mask).jag == old(mask).jag,
        forall|x: int, y: int|
            in_grid(old(mask).s as int, x, y) ==> (#[trigger] cgrid(final(mask).cells)[y][x])
                == cleared_class(cgrid(old(mask).cells), c1, c2, cfg.radius as int, x, y),
{
    let s = mask.s;
    let ghost m0 = cgrid(mask.cells);
    proof {
        let r = cfg.radius as int;
        assert(r * r <= (MAX_SIDE as int) * (MAX_SIDE as int)) by (nonlinear_arith)
            requires 0 <= r <= MAX_SIDE as int;
    }
    let r2: u64 = cfg.radius * cfg.radius;
    let mut y: usize = 0;
    while y < s
        invariant
            mask.wf(),
            s == mask.s,
            mask.jag == old(mask).jag,
            c1.x <= MAX_SIDE && c1.y <= MAX_SIDE,
            c2.x <= MAX_SIDE && c2.y <= MAX_SIDE,
            r2 == (cfg.radius as int) * (cfg.radius as int),
            0 <= y <= s,
            cgrid(mask.cells).len() == s,
            forall|x: int, y2: int|
                0 <= y2 < y && 0 <= x < s ==> (#[trigger] cgrid(mask.cells)[y2][x])
                    == cleared_class(m0, c1, c2, cfg.radius as int, x, y2),
            forall|x: int, y2: int|
                y <= y2 < s && 0 <= x < s ==> (#[trigger] cgrid(mask.cells)[y2][x]) == m0[y2][x],
        decreases s - y,
    {
        let mut x: usize = 0;
        while x < s
            invariant
                mask.wf(),
                s == mask.s,
                mask.jag == old(mask).jag,
                c1.x <= MAX_SIDE && c1.y <= MAX_SIDE,
                c2.x <= MAX_SIDE && c2.y <= MAX_SIDE,
                r2 == (cfg.radius as int) * (cfg.radius as int),
                y < s,
                0 <= x <= s,
                cgrid(mask.cells).len() == s,
                forall|x2: int, y2: int|
                    0 <= y2 < y && 0 <= x2 < s ==> (#[trigger] cgrid(mask.cells)[y2][x2])
                        == cleared_class(m0, c1, c2, cfg.radius as int, x2, y2),
                forall|x2: int|
                    0 <= x2 < x ==> (#[trigger] cgrid(mask.cells)[y as int][x2]) == cleared_class(
                        m0,
                        c1,
                        c2,
                        cfg.radius as int,
                        x2,
                        y as int,
                    ),
                forall|x2: int|
                    x <= x2 < s ==> (#[trigger] cgrid(mask.cells)[y as int][x2]) == m0[y as int][x2],
                forall|x2: int, y2: int|
                    y < y2 < s && 0 <= x2 < s ==> (#[trigger] cgrid(mask.cells)[y2][x2])
                        == m0[y2][x2],
            decreases s - x,
        {
            let c = mask.get(x, y);
            if matches!(c, PixelClass::Border) {
                let p = Point { x, y };
                let d1 = crate::geom::sq_dist_u64(c1, p);
                let d2 = crate::geom::sq_dist_u64(c2, p);
                if d1 <= r2 || d2 <= r2 {
                    let ghost cg0 = cgrid(mask.cells);
                    mask.set(x, y, PixelClass::Material);
                    proof {
                        assert(forall|x2: int, y2: int|
                            in_grid(s as int, x2, y2) && !(x2 == x as int && y2 == y as int)
                                ==> #[trigger] cgrid(mask.cells)[y2][x2] == cg0[y2][x2]);
                        assert(cgrid(mask.cells)[y as int][x as int] == cleared_class(
                            m0,
                            c1,
                            c2,
                            cfg.radius as int,
                            x as int,
                            y as int,
                        ));
                    }
                }
            }
            x += 1;
        }
        y += 1;
    }
}

/// First border pixel of row `y`, scanning left to right.
pub open spec fn first_border(m: Seq<Seq<PixelClass>>, s: int, y: int, x0: int) -> Option<int>
    decreases s - x0,
{
    if x0 < 0 || x0 >= s {
        None
    } else if m[y][x0] == PixelClass::Border {
        Some(x0)
    } else {
        first_border(m, s, y, x0 + 1)
    }
}

pub proof fn lemma_first_border_props(m: Seq<Seq<PixelClass>>, s: int, y: int, x0: int)
    requires
        0 <= x0 <= s,
    ensures
        match first_border(m, s, y, x0) {
            Some(x) => x0 <= x < s && m[y][x] == PixelClass::Border && forall|x2: int|
                x0 <= x2 < x ==> m[y][x2] != PixelClass::Border,
            None => forall|x2: int| x0 <= x2 < s ==> m[y][x2] != PixelClass::Border,
        },
    decreases s - x0,
{
    if x0 < s && m[y][x0] != PixelClass::Border {
        lemma_first_border_props(m, s, y, x0 + 1);
    }
}

/// The collected arc: strictly ordered y-major points, translated to the
/// arc's own local origin, in exact correspondence with the flood's
/// cells.
pub open spec fn arc_body(
    m: Seq<Seq<PixelClass>>,
    s: int,
    sx: int,
    sy: int,
    fl: Seq<Seq<bool>>,
    mnx: int,
    mny: int,
    out: Seq<Point>,
) -> bool {
    is_flood(border_grid(m, s), s, true, sx, sy, fl) && 0 <= mnx < s && 0 <= mny
            < s && (forall|x: int, y: int|
            in_grid(s, x, y) && (#[trigger] fl[y][x]) ==> mnx <= x && mny <= y) && (exists|
            x: int,
            y: int,
        |
            in_grid(s, x, y) && (#[trigger] fl[y][x]) && x == mnx) && (exists|x: int, y: int|
            in_grid(s, x, y) && (#[trigger] fl[y][x]) && y == mny) && out.len() >= 1 && (forall|
            i: int,
            j: int,
        |
            0 <= i < j < out.len() ==> ((#[trigger] out[i]).y < (#[trigger] out[j]).y || (out[i].y
                == out[j].y && out[i].x < out[j].x))) && (forall|x: int, y: int|
            in_grid(s, x, y) && mnx <= x && mny <= y ==> ((#[trigger] fl[y][x]) <==> out.contains(
                Point { x: (x - mnx) as usize, y: (y - mny) as usize },
            ))) && (forall|i: int|
            0 <= i < out.len() ==> (#[trigger] out[i]).x + mnx < s && out[i].y + mny < s
                && fl[out[i].y + mny][out[i].x + mnx])
}

/// A successful split: the arc was seeded at the first border pixel of
/// the midpoint row, or of the next row after an empty midpoint row.
pub open spec fn extract_ok(m: Seq<Seq<PixelClass>>, s: int, ymid: int, out: Seq<Point>) -> bool {
    exists|sx: int, sy: int|
        ((first_border(m, s, ymid, 0) == Some(sx) && sy == ymid) || (first_border(m, s, ymid, 0)
            is None && ymid + 1 < s && first_border(m, s, ymid + 1, 0) == Some(sx) && sy == ymid
            + 1)) && #[trigger] arc_rel(m, s, sx, sy, out)
}

/// A failed split: neither the midpoint row nor its retry row holds a
/// border pixel.
pub open spec fn extract_failed(m: Seq<Seq<PixelClass>>, s: int, ymid: int) -> bool {
    first_border(m, s, ymid, 0) is None && (ymid + 1 >= s || first_border(m, s, ymid + 1, 0)
        is None)
}

/// The collected arc, with the flood and its local origin existential.
pub open spec fn arc_rel(
    m: Seq<Seq<PixelClass>>,
    s: int,
    sx: int,
    sy: int,
    out: Seq<Point>,
) -> bool {
    exists|fl: Seq<Seq<bool>>, mnx: int, mny: int| #[trigger] arc_body(m, s, sx, sy, fl, mnx, mny, out)
}

/// Splits one open arc off the cleared boundary: seeds at the first
/// border pixel of the bounding rectangle's vertical midpoint row (with
/// one adjacent-row retry), collects the 8-connected arc, and returns it
/// translated to local coordinates in canonical order.  Fails exactly
/// when both candidate rows hold no border pixel.
#[verifier::rlimit(80)]
pub fn extract_arc(mask: &Mask, rect: BoundingRect) -> (r: Result<Vec<Point>, EdgeSplitError>)
    requires
        mask.wf(),
        rect.wf(mask.s as int),
    ensures
        match r {
            Ok(out) => extract_ok(
                cgrid(mask.cells),
                mask.s as int,
                (rect.min_y + rect.max_y) as int / 2,
                out@,
            ),
            Err(e) => e.seed_row == (rect.min_y + rect.max_y) as int / 2 && extract_failed(
                cgrid(mask.cells),
                mask.s as int,
                (rect.min_y + rect.max_y) as int / 2,
            ),
        },
{
    let s = mask.s;
    let ghost m = cgrid(mask.cells);
    let ymid = (rect.min_y + rect.max_y) / 2;
    proof {
        lemma_first_border_props(m, s as int, ymid as int, 0);
        if ymid + 1 < s {
            lemma_first_border_props(m, s as int, ymid as int + 1, 0);
        }
    }
    let seed = match find_border_in_row(mask, ymid) {
        Some(x) => Point { x, y: ymid },
        None => {
            if ymid + 1 < s {
                match find_border_in_row(mask, ymid + 1) {
                    Some(x) => Point { x, y: ymid + 1 },
                    None => {
                        return Err(EdgeSplitError { seed_row: ymid });
                    },
                }
            } else {
                return Err(EdgeSplitError { seed_row: ymid });
            }
        },
    };
    proof {
        assert((first_border(m, s as int, ymid as int, 0) == Some(seed.x as int)
            && seed.y as int == ymid as int) || (first_border(m, s as int, ymid as int, 0)
            is None && ymid as int + 1 < s as int && first_border(m, s as int, ymid as int + 1, 0)
            == Some(seed.x as int) && seed.y as int == ymid as int + 1));
    }
    // Build the border passable grid.
    let ghost pg = border_grid(m, s as int);
    let mut pass: Vec<Vec<bool>> = Vec::new();
    let mut y: usize = 0;
    while y < s
        invariant
            mask.wf(),
            s == mask.s,
            m == cgrid(mask.cells),
            pg == border_grid(m, s as int),
            0 <= y <= s,
            bgrid(pass).len() == y,
            forall|yy: int| 0 <= yy < y ==> (#[trigger] bgrid(pass)[yy]) == pg[yy],
        decreases s - y,
    {
        let mut row: Vec<bool> = Vec::new();
        let mut x: usize = 0;
        while x < s
            invariant
                mask.wf(),
                s == mask.s,
                m == cgrid(mask.cells),
                y < s,
                0 <= x <= s,
                row@.len() == x,
                forall|xx: int|
                    0 <= xx < x ==> (#[trigger] row@[xx]) == (m[y as int][xx]
                        == PixelClass::Border),
            decreases s - x,
        {
            let c = mask.get(x, y);
            row.push(matches!(c, PixelClass::Border));
            x += 1;
        }
        let ghost p0 = bgrid(pass);
        pass.push(row);
        proof {
            assert(bgrid(pass) =~= p0.push(row@));
            assert(forall|yy: int| 0 <= yy < y ==> bgrid(pass)[yy] == p0[yy]);
            assert(bgrid(pass)[y as int] =~= pg[y as int]);
        }
        y += 1;
    }
    proof {
        assert(bgrid(pass) =~~= pg);
        assert(grid_wf(pg, s as int));
        assert(pg[seed.y as int][seed.x as int]);
    }
    let fl = flood_fill(&pass, s, seed.x, seed.y, true);
    let ghost flv = bgrid(fl);
    // Find the arc's own minimum x and y.
    let mut mnx: usize = seed.x;
    let mut mny: usize = seed.y;
    let mut fy: usize = 0;
    while fy < s
        invariant
            s <= MAX_SIDE,
            grid_wf(flv, s as int),
            flv == bgrid(fl),
            flv[seed.y as int][seed.x as int],
            seed.x < s,
            seed.y < s,
            0 <= fy <= s,
            mnx < s && mny < s,
            (exists|x: int, y2: int|
                in_grid(s as int, x, y2) && (#[trigger] flv[y2][x]) && x == mnx),
            (exists|x: int, y2: int|
                in_grid(s as int, x, y2) && (#[trigger] flv[y2][x]) && y2 == mny),
            forall|x: int, y2: int|
                0 <= y2 < fy && 0 <= x < s && (#[trigger] flv[y2][x]) ==> mnx <= x && mny <= y2,
        decreases s - fy,
    {
        let mut fx: usize = 0;
        while fx < s
            invariant
                s <= MAX_SIDE,
                grid_wf(flv, s as int),
                flv == bgrid(fl),
                fy < s,
                0 <= fx <= s,
                mnx < s && mny < s,
                (exists|x: int, y2: int|
                    in_grid(s as int, x, y2) && (#[trigger] flv[y2][x]) && x == mnx),
                (exists|x: int, y2: int|
                    in_grid(s as int, x, y2) && (#[trigger] flv[y2][x]) && y2 == mny),
                forall|x: int, y2: int|
                    0 <= y2 < fy && 0 <= x < s && (#[trigger] flv[y2][x]) ==> mnx <= x && mny
                        <= y2,
                forall|x: int|
                    0 <= x < fx && (#[trigger] flv[fy as int][x]) ==> mnx <= x && mny <= fy,
            decreases s - fx,
        {
            if get_cell(&fl, fx, fy) {
                if fx < mnx {
                    mnx = fx;
                }
                if fy < mny {
                    mny = fy;
                }
            }
            fx += 1;
        }
        fy += 1;
    }
    // Collect the arc in scan order, translated to its local origin.
    let mut out: Vec<Point> = Vec::new();
    let mut cy: usize = 0;
    while cy < s
        invariant
            s <= MAX_SIDE,
            grid_wf(flv, s as int),
            flv == bgrid(fl),
            flv[seed.y as int][seed.x as int],
            seed.x < s,
            seed.y < s,
            0 <= cy <= s,
            mnx < s && mny < s,
            forall|x: int, y2: int|
                in_grid(s as int, x, y2) && (#[trigger] flv[y2][x]) ==> mnx <= x && mny <= y2,
            forall|i: int, j: int|
                0 <= i < j < out@.len() ==> ((#[trigger] out@[i]).y < (#[trigger] out@[j]).y || (
                out@[i].y == out@[j].y && out@[i].x < out@[j].x)),
            forall|i: int|
                0 <= i < out@.len() ==> (#[trigger] out@[i]).x + mnx < s && out@[i].y + mny < s
                    && (out@[i].y + mny < cy) && flv[out@[i].y + mny][out@[i].x + mnx],
            forall|x: int, y2: int|
                0 <= y2 < cy && 0 <= x < s && mnx <= x && mny <= y2 ==> ((
                #[trigger] flv[y2][x]) <==> out@.contains(
                    Point { x: (x - mnx) as usize, y: (y2 - mny) as usize },
                )),
        decreases s - cy,
    {
        let mut cx: usize = 0;
        while cx < s
            invariant
                s <= MAX_SIDE,
                grid_wf(flv, s as int),
                flv == bgrid(fl),
                cy < s,
                0 <= cx <= s,
                mnx < s && mny < s,
                forall|x: int, y2: int|
                    in_grid(s as int, x, y2) && (#[trigger] flv[y2][x]) ==> mnx <= x && mny <= y2,
                forall|i: int, j: int|
                    0 <= i < j < out@.len() ==> ((#[trigger] out@[i]).y < (#[trigger] out@[j]).y
                        || (out@[i].y == out@[j].y && out@[i].x < out@[j].x)),
                forall|i: int|
                    0 <= i < out@.len() ==> (#[trigger] out@[i]).x + mnx < s && out@[i].y + mny
                        < s && ((out@[i].y + mny < cy) || (out@[i].y + mny == cy && out@[i].x
                        + mnx < cx)) && flv[out@[i].y + mny][out@[i].x + mnx],
                forall|x: int, y2: int|
                    ((0 <= y2 < cy && 0 <= x < s) || (y2 == cy && 0 <= x < cx)) && mnx <= x
                        && mny <= y2 ==> ((#[trigger] flv[y2][x]) <==> out@.contains(
                        Point { x: (x - mnx) as usize, y: (y2 - mny) as usize },
                    )),
            decreases s - cx,
        {
            let here = get_cell(&fl, cx, cy);
            proof {
                if here {
                    assert(mnx <= cx as int && mny <= cy as int);
                }
            }
            if here {
                let np = Point { x: cx - mnx, y: cy - mny };
                let ghost o0 = out@;
                out.push(np);
                proof {
                    assert(out@ == o0.push(np));
                    assert(forall|i: int| 0 <= i < o0.len() ==> out@[i] == o0[i]);
                    assert(out@[out@.len() - 1] == np);
                    assert forall|x: int, y2: int|
                        ((0 <= y2 < cy && 0 <= x < s) || (y2 == cy && 0 <= x < cx + 1)) && mnx
                            <= x && mny <= y2 implies ((#[trigger] flv[y2][x]) <==> out@.contains(
                        Point { x: (x - mnx) as usize, y: (y2 - mny) as usize },
                    )) by {
                        let tp = Point { x: (x - mnx) as usize, y: (y2 - mny) as usize };
                        if x == cx as int && y2 == cy as int {
                            assert(out@.contains(np));
                        } else {
                            if flv[y2][x] {
                                assert(o0.contains(tp));
                                let i = choose|i: int| 0 <= i < o0.len() && o0[i] == tp;
                                assert(out@[i] == tp);
                            } else {
                                if out@.contains(tp) {
                                    let i = choose|i: int|
                                        0 <= i < out@.len() && out@[i] == tp;
                                    if i < o0.len() {
                                        assert(o0.contains(tp));
                                    } else {
                                        assert(tp == np);
                                        assert(x == cx as int && y2 == cy as int);
                                    }
                                }
                            }
                        }
                    }
                }
            } else {
                proof {
                    assert forall|x: int, y2: int|
                        ((0 <= y2 < cy && 0 <= x < s) || (y2 == cy && 0 <= x < cx + 1)) && mnx
                            <= x && mny <= y2 implies ((#[trigger] flv[y2][x]) <==> out@.contains(
                        Point { x: (x - mnx) as usize, y: (y2 - mny) as usize },
                    )) by {
                        if x == cx as int && y2 == cy as int {
                            let tp = Point { x: (x - mnx) as usize, y: (y2 - mny) as usize };
                            if out@.contains(tp) {
                                let i = choose|i: int| 0 <= i < out@.len() && out@[i] == tp;
                                assert(flv[out@[i].y + mny][out@[i].x + mnx]);
                                assert(out@[i].y + mny < cy || (out@[i].y + mny == cy
                                    && out@[i].x + mnx < cx));
                                assert((tp.y + mny) == y2 && (tp.x + mnx) == x);
                            }
                        }
                    }
                }
            }
            cx += 1;
        }
        cy += 1;
    }
    proof {
        assert(flv[seed.y as int][seed.x as int]);
        assert(out@.contains(
            Point { x: (seed.x - mnx) as usize, y: (seed.y - mny) as usize },
        ));
        assert(out@.len() >= 1);
        assert(arc_rel(m, s as int, seed.x as int, seed.y as int, out@)) by {
            assert(arc_body(m, s as int, seed.x as int, seed.y as int, flv, mnx as int,
                mny as int, out@));
        }
        assert(extract_ok(m, s as int, ymid as int, out@)) by {
            assert(((first_border(m, s as int, ymid as int, 0) == Some(seed.x as int)
                && seed.y as int == ymid as int) || (first_border(m, s as int, ymid as int, 0)
                is None && ymid as int + 1 < s as int && first_border(
                m,
                s as int,
                ymid as int + 1,
                0,
            ) == Some(seed.x as int) && seed.y as int == ymid as int + 1)) && arc_rel(
                m,
                s as int,
                seed.x as int,
                seed.y as int,
                out@,
            ));
        }
    }
    Ok(out)
}

/// Finds the first border pixel of one row.
fn find_border_in_row(mask: &Mask, y: usize) -> (r: Option<usize>)
    requires
        mask.wf(),
        y < mask.s,
    ensures
        match r {
            Some(x) => first_border(cgrid(mask.cells), mask.s as int, y as int, 0) == Some(
                x as int,
            ),
            None => first_border(cgrid(mask.cells), mask.s as int, y as int, 0) is None,
        },
{
    let s = mask.s;
    let ghost m = cgrid(mask.cells);
    proof {
        lemma_first_border_props(m, s as int, y as int, 0);
    }
    let mut x: usize = 0;
    while x < s
        invariant
            mask.wf(),
            s == mask.s,
            m == cgrid(mask.cells),
            y < s,
            0 <= x <= s,
            forall|x2: int| 0 <= x2 < x ==> m[y as int][x2] != PixelClass::Border,
        decreases s - x,
    {
        if matches!(mask.get(x, y), PixelClass::Border) {
            proof {
                lemma_first_border_props(m, s as int, y as int, 0);
                match first_border(m, s as int, y as int, 0) {
                    Some(fx) => {
                        if fx < x as int {
                            assert(m[y as int][fx] != PixelClass::Border);
                        }
                        if fx > x as int {
                            assert(m[y as int][x as int] != PixelClass::Border);
                        }
                    },
                    None => {
                        assert(m[y as int][x as int] != PixelClass::Border);
                    },
                }
            }
            return Some(x);
        }
        x += 1;
    }
    proof {
        lemma_first_border_props(m, s as int, y as int, 0);
        match first_border(m, s as int, y as int, 0) {
            Some(fx) => {
                assert(m[y as int][fx] != PixelClass::Border);
            },
            None => {},
        }
    }
    None
}

} // verus!
