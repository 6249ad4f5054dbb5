//! Piece isolation: keep only the largest connected material blob.
//!
//! Capture noise and debris form small material components that must not
//! compete with the true piece.  The isolator flood-fills every
//! 4-connected material component, keeps one with the largest pixel
//! count, and clears material everywhere else.

use vstd::prelude::*;
use crate::flood::{
    bgrid, grid_wf, grid_count, in_grid, is_flood, flood_closed, subset_grid, flood_fill,
    count_cells, get_cell, set_cell, make_false_grid, lemma_grid_count_subset,
};
use crate::mask::{Mask, PixelClass, is_mat, cgrid, mat_grid};

verus! {

/// What isolation computes: the result keeps exactly the cells of one
/// flood of a material seed, and no other material component counts more
/// cells than the kept one.
pub open spec fn isolate_rel(m0: Seq<Seq<PixelClass>>, s: int, m1: Seq<Seq<PixelClass>>) -> bool {
    exists|px: int, py: int, fl: Seq<Seq<bool>>|
        in_grid(s, px, py) && is_mat(m0[py][px]) && #[trigger] is_flood(
            mat_grid(m0, s),
            s,
            false,
            px,
            py,
            fl,
        ) && (forall|x: int, y: int|
            in_grid(s, x, y) ==> (#[trigger] m1[y][x]) == if fl[y][x] {
                m0[y][x]
            } else {
                PixelClass::NoMaterial
            }) && (forall|qx: int, qy: int, fq: Seq<Seq<bool>>|
            in_grid(s, qx, qy) && is_mat(m0[qy][qx]) && #[trigger] is_flood(
                mat_grid(m0, s),
                s,
                false,
                qx,
                qy,
                fq,
            ) ==> grid_count(fq) <= grid_count(fl))
}

/// Clears material on every component but a largest one.
pub fn isolate_piece(mask: &mut Mask)
    requires
        old(mask).wf(),
        exists|x: int, y: int|
            in_grid(old(mask).s as int, x, y) && is_mat(
                #[trigger] cgrid(old(mask).cells)[y][x],
            ),
    ensures
        final(mask).wf(),
        final(mask).s == old(mask).s,
        final(mask).jag == old(mask).jag,
        isolate_rel(cgrid(old(mask).cells), old(mask).s as int, cgrid(final(mask).cells)),
{
    let s = mask.s;
    let ghost m0 = cgrid(mask.cells);
    let ghost pg = mat_grid(m0, s as int);
    // The passable grid: material cells.
    let mut pass: Vec<Vec<bool>> = Vec::new();
    let mut y: usize = 0;
    while y < s
        invariant
            mask.wf(),
            s == mask.s,
            m0 == cgrid(mask.cells),
            pg == mat_grid(m0, s as int),
            0 <= y <= s,
            bgrid(pass).len() == y,
            forall|yy: int| 0 <= yy < y ==> (#[trigger] bgrid(pass)[yy]) == pg[yy],
        decreases s - y,
    {
        let mut row: Vec<bool> = Vec::new();
        let mut x: usize = 0;
        while x < s
            invariant
                mask.wf(),
                s == mask.s,
                m0 == cgrid(mask.cells),
                y < s,
                0 <= x <= s,
                row@.len() == x,
                forall|xx: int|
                    0 <= xx < x ==> (#[trigger] row@[xx]) == is_mat(m0[y as int][xx]),
            decreases s - x,
        {
            let c = mask.get(x, y);
            row.push(!matches!(c, PixelClass::NoMaterial));
            x += 1;
        }
        let ghost p0 = bgrid(pass);
        pass.push(row);
        proof {
            assert(bgrid(pass) =~= p0.push(row@));
            assert(forall|yy: int| 0 <= yy < y ==> bgrid(pass)[yy] == p0[yy]);
            assert(bgrid(pass)[y as int] =~= pg[y as int]);
        }
        y += 1;
    }
    proof {
        assert(bgrid(pass) =~~= pg);
        assert(grid_wf(pg, s as int));
    }
    // Scan for components, keeping the largest flood seen.
    let mut visited = make_false_grid(s);
    let mut best: Vec<Vec<bool>> = make_false_grid(s);
    let mut best_count: usize = 0;
    let mut have_best = false;
    let mut gy: usize = 0;
    let ghost mut gbx: int = 0;
    let ghost mut gby: int = 0;
    while gy < s
        invariant
            s == mask.s,
            mask.wf(),
            1 <= s <= crate::geom::MAX_SIDE,
            m0 == cgrid(mask.cells),
            pg == mat_grid(m0, s as int),
            bgrid(pass) == pg,
            grid_wf(pg, s as int),
            0 <= gy <= s,
            grid_wf(bgrid(visited), s as int),
            grid_wf(bgrid(best), s as int),
            have_best ==> in_grid(s as int, gbx, gby) && pg[gby][gbx] && is_flood(
                pg,
                s as int,
                false,
                gbx,
                gby,
                bgrid(best),
            ) && best_count == grid_count(bgrid(best)),
            !have_best ==> best_count == 0,
            !have_best ==> forall|x: int, y2: int|
                in_grid(s as int, x, y2) ==> !(#[trigger] bgrid(visited)[y2][x]),
            forall|x: int, y2: int|
                in_grid(s as int, x, y2) && (#[trigger] bgrid(visited)[y2][x]) ==> exists|
                    w: Seq<Seq<bool>>,
                |
                    grid_wf(w, s as int) && #[trigger] flood_closed(pg, w, s as int, false)
                        && w[y2][x] && grid_count(w) <= best_count,
            forall|x: int, y2: int|
                0 <= y2 < gy && 0 <= x < s && pg[y2][x] ==> bgrid(visited)[y2][x],
        decreases s - gy,
    {
        let mut gx: usize = 0;
        while gx < s
            invariant
                s == mask.s,
                mask.wf(),
                1 <= s <= crate::geom::MAX_SIDE,
                m0 == cgrid(mask.cells),
                pg == mat_grid(m0, s as int),
                bgrid(pass) == pg,
                grid_wf(pg, s as int),
                gy < s,
                0 <= gx <= s,
                grid_wf(bgrid(visited), s as int),
                grid_wf(bgrid(best), s as int),
                have_best ==> in_grid(s as int, gbx, gby) && pg[gby][gbx] && is_flood(
                    pg,
                    s as int,
                    false,
                    gbx,
                    gby,
                    bgrid(best),
                ) && best_count == grid_count(bgrid(best)),
                !have_best ==> best_count == 0,
                !have_best ==> forall|x: int, y2: int|
                    in_grid(s as int, x, y2) ==> !(#[trigger] bgrid(visited)[y2][x]),
                forall|x: int, y2: int|
                    in_grid(s as int, x, y2) && (#[trigger] bgrid(visited)[y2][x]) ==> exists|
                        w: Seq<Seq<bool>>,
                    |
                        grid_wf(w, s as int) && #[trigger] flood_closed(pg, w, s as int, false)
                            && w[y2][x] && grid_count(w) <= best_count,
                forall|x: int, y2: int|
                    0 <= y2 < gy && 0 <= x < s && pg[y2][x] ==> bgrid(visited)[y2][x],
                forall|x: int|
                    0 <= x < gx && pg[gy as int][x] ==> bgrid(visited)[gy as int][x],
            decreases s - gx,
        {
            let p_here = get_cell(&pass, gx, gy);
            let v_here = get_cell(&visited, gx, gy);
            if p_here && !v_here {
                let fl = flood_fill(&pass, s, gx, gy, false);
                let cnt = count_cells(&fl, s);
                let better = !have_best || cnt > best_count;
                let ghost new_best_count: int = if better {
                    cnt as int
                } else {
                    best_count as int
                };
                proof {
                    crate::flood::lemma_grid_count_bounds(bgrid(fl), s as int);
                }
                // Merge the flood into the visited grid.
                let mut my: usize = 0;
                while my < s
                    invariant
                        s <= crate::geom::MAX_SIDE,
                        grid_wf(pg, s as int),
                        grid_wf(bgrid(fl), s as int),
                        grid_wf(bgrid(visited), s as int),
                        0 <= my <= s,
                        gy < s,
                        gx < s,
                        is_flood(pg, s as int, false, gx as int, gy as int, bgrid(fl)),
                        new_best_count >= grid_count(bgrid(fl)),
                        new_best_count >= best_count,
                        forall|x: int, y2: int|
                            in_grid(s as int, x, y2) && (#[trigger] bgrid(visited)[y2][x]) ==> (
                            exists|w: Seq<Seq<bool>>|
                                grid_wf(w, s as int) && #[trigger] flood_closed(
                                    pg,
                                    w,
                                    s as int,
                                    false,
                                ) && w[y2][x] && grid_count(w) <= best_count) || bgrid(
                                fl,
                            )[y2][x],
                        forall|x: int, y2: int|
                            0 <= y2 < my && 0 <= x < s && (#[trigger] bgrid(fl)[y2][x])
                                ==> bgrid(visited)[y2][x],
                        forall|x: int, y2: int|
                            0 <= y2 < gy && 0 <= x < s && pg[y2][x] ==> bgrid(visited)[y2][x]
                                || bgrid(fl)[y2][x],
                        forall|x: int|
                            0 <= x < gx && pg[gy as int][x] ==> bgrid(visited)[gy as int][x]
                                || bgrid(fl)[gy as int][x],
                        bgrid(fl)[gy as int][gx as int],
                    decreases s - my,
                {
                    let mut mx: usize = 0;
                    while mx < s
                        invariant
                            s <= crate::geom::MAX_SIDE,
                            grid_wf(pg, s as int),
                            grid_wf(bgrid(fl), s as int),
                            grid_wf(bgrid(visited), s as int),
                            my < s,
                            0 <= mx <= s,
                            gy < s,
                            gx < s,
                            is_flood(pg, s as int, false, gx as int, gy as int, bgrid(fl)),
                            new_best_count >= grid_count(bgrid(fl)),
                            new_best_count >= best_count,
                            forall|x: int, y2: int|
                                in_grid(s as int, x, y2) && (#[trigger] bgrid(visited)[y2][x])
                                    ==> (exists|w: Seq<Seq<bool>>|
                                    grid_wf(w, s as int) && #[trigger] flood_closed(
                                        pg,
                                        w,
                                        s as int,
                                        false,
                                    ) && w[y2][x] && grid_count(w) <= best_count) || bgrid(
                                    fl,
                                )[y2][x],
                            forall|x: int, y2: int|
                                0 <= y2 < my && 0 <= x < s && (#[trigger] bgrid(fl)[y2][x])
                                    ==> bgrid(visited)[y2][x],
                            forall|x: int|
                                0 <= x < mx && (#[trigger] bgrid(fl)[my as int][x]) ==> bgrid(
                                    visited,
                                )[my as int][x],
                            forall|x: int, y2: int|
                                0 <= y2 < gy && 0 <= x < s && pg[y2][x] ==> bgrid(
                                    visited,
                                )[y2][x] || bgrid(fl)[y2][x],
                            forall|x: int|
                                0 <= x < gx && pg[gy as int][x] ==> bgrid(visited)[gy as int][x]
                                    || bgrid(fl)[gy as int][x],
                            bgrid(fl)[gy as int][gx as int],
                        decreases s - mx,
                    {
                        if get_cell(&fl, mx, my) {
                            let ghost v0 = bgrid(visited);
                            set_cell(&mut visited, mx, my, true);
                            proof {
                                assert(forall|x: int, y2: int|
                                    in_grid(s as int, x, y2) && !(x == mx as int && y2
                                        == my as int) ==> #[trigger] bgrid(visited)[y2][x]
                                        == v0[y2][x]);
                                assert(bgrid(visited)[my as int][mx as int]);
                                assert forall|x: int, y2: int|
                                    0 <= y2 < gy && 0 <= x < s && pg[y2][x] implies bgrid(
                                    visited,
                                )[y2][x] || bgrid(fl)[y2][x] by {
                                    if !(x == mx as int && y2 == my as int) {
                                        assert(bgrid(visited)[y2][x] == v0[y2][x]);
                                        assert(v0[y2][x] || bgrid(fl)[y2][x]);
                                    }
                                }
                                assert forall|x: int|
                                    0 <= x < gx && pg[gy as int][x] implies bgrid(
                                    visited,
                                )[gy as int][x] || bgrid(fl)[gy as int][x] by {
                                    if !(x == mx as int && gy as int == my as int) {
                                        assert(bgrid(visited)[gy as int][x] == v0[gy as int][x]);
                                        assert(v0[gy as int][x] || bgrid(fl)[gy as int][x]);
                                    }
                                }
                            }
                        }
                        mx += 1;
                    }
                    my += 1;
                }
                let ghost obc = best_count as int;
                if better {
                    best = fl;
                    best_count = cnt;
                    have_best = true;
                    proof {
                        gbx = gx as int;
                        gby = gy as int;
                    }
                    proof {
                        // Every visited cell keeps a closed witness within
                        // the raised best count.
                        assert forall|x: int, y2: int|
                            in_grid(s as int, x, y2) && (#[trigger] bgrid(visited)[y2][x])
                            implies (exists|w: Seq<Seq<bool>>|
                            grid_wf(w, s as int) && #[trigger] flood_closed(
                                pg,
                                w,
                                s as int,
                                false,
                            ) && w[y2][x] && grid_count(w) <= best_count) by {
                            if bgrid(best)[y2][x] {
                                assert(grid_wf(bgrid(best), s as int) && flood_closed(
                                    pg,
                                    bgrid(best),
                                    s as int,
                                    false,
                                ) && bgrid(best)[y2][x] && grid_count(bgrid(best))
                                    <= best_count);
                            } else {
                                let w = choose|w: Seq<Seq<bool>>|
                                    grid_wf(w, s as int) && #[trigger] flood_closed(
                                        pg,
                                        w,
                                        s as int,
                                        false,
                                    ) && w[y2][x] && grid_count(w) <= obc;
                                assert(grid_wf(w, s as int) && flood_closed(pg, w, s as int, false)
                                    && w[y2][x] && grid_count(w) <= best_count);
                            }
                        }
                    }
                } else {
                    proof {
                        assert forall|x: int, y2: int|
                            in_grid(s as int, x, y2) && (#[trigger] bgrid(visited)[y2][x])
                            implies (exists|w: Seq<Seq<bool>>|
                            grid_wf(w, s as int) && #[trigger] flood_closed(
                                pg,
                                w,
                                s as int,
                                false,
                            ) && w[y2][x] && grid_count(w) <= best_count) by {
                            if bgrid(fl)[y2][x] {
                                assert(grid_wf(bgrid(fl), s as int) && flood_closed(
                                    pg,
                                    bgrid(fl),
                                    s as int,
                                    false,
                                ) && bgrid(fl)[y2][x] && grid_count(bgrid(fl)) <= best_count);
                            }
                        }
                    }
                }
            }
            gx += 1;
        }
        gy += 1;
    }
    proof {
        let (wx, wy) = choose|x: int, y2: int|
            in_grid(s as int, x, y2) && is_mat(#[trigger] m0[y2][x]);
        assert(pg[wy][wx]);
        assert(bgrid(visited)[wy][wx]);
        assert(have_best);
    }
    // Clear material outside the kept component.
    let ghost bv = bgrid(best);
    let mut cy: usize = 0;
    while cy < s
        invariant
            s == mask.s,
            mask.wf(),
            bv == bgrid(best),
            grid_wf(bv, s as int),
            0 <= cy <= s,
            cgrid(mask.cells).len() == s,
            forall|x: int, y2: int|
                0 <= y2 < cy && 0 <= x < s ==> (#[trigger] cgrid(mask.cells)[y2][x]) == if bv[y2][x] {
                    m0[y2][x]
                } else {
                    PixelClass::NoMaterial
                },
            forall|x: int, y2: int|
                cy <= y2 < s && 0 <= x < s ==> (#[trigger] cgrid(mask.cells)[y2][x])
                    == m0[y2][x],
            mask.jag == old(mask).jag,
        decreases s - cy,
    {
        let mut cx: usize = 0;
        while cx < s
            invariant
                s == mask.s,
                mask.wf(),
                bv == bgrid(best),
                grid_wf(bv, s as int),
                cy < s,
                0 <= cx <= s,
                cgrid(mask.cells).len() == s,
                forall|x: int, y2: int|
                    0 <= y2 < cy && 0 <= x < s ==> (#[trigger] cgrid(mask.cells)[y2][x])
                        == if bv[y2][x] {
                        m0[y2][x]
                    } else {
                        PixelClass::NoMaterial
                    },
                forall|x: int|
                    0 <= x < cx ==> (#[trigger] cgrid(mask.cells)[cy as int][x]) == if bv[cy as int][x] {
                        m0[cy as int][x]
                    } else {
                        PixelClass::NoMaterial
                    },
                forall|x: int|
                    cx <= x < s ==> (#[trigger] cgrid(mask.cells)[cy as int][x])
                        == m0[cy as int][x],
                forall|x: int, y2: int|
                    cy < y2 < s && 0 <= x < s ==> (#[trigger] cgrid(mask.cells)[y2][x])
                        == m0[y2][x],
                mask.jag == old(mask).jag,
            decreases s - cx,
        {
            let keep = get_cell(&best, cx, cy);
            if !keep {
                let ghost cg0 = cgrid(mask.cells);
                mask.set(cx, cy, PixelClass::NoMaterial);
                proof {
                    assert(forall|x: int, y2: int|
                        in_grid(s as int, x, y2) && !(x == cx as int && y2 == cy as int)
                            ==> #[trigger] cgrid(mask.cells)[y2][x] == cg0[y2][x]);
                }
            }
            cx += 1;
        }
        cy += 1;
    }
    proof {
        // The kept component dominates every other component.
        assert forall|qx: int, qy: int, fq: Seq<Seq<bool>>|
            in_grid(s as int, qx, qy) && is_mat(m0[qy][qx]) && #[trigger] is_flood(
                pg,
                s as int,
                false,
                qx,
                qy,
                fq,
            ) implies grid_count(fq) <= grid_count(bv) by {
            assert(pg[qy][qx]);
            assert(bgrid(visited)[qy][qx]);
            let w = choose|w: Seq<Seq<bool>>|
                grid_wf(w, s as int) && #[trigger] flood_closed(pg, w, s as int, false)
                    && w[qy][qx] && grid_count(w) <= best_count;
            assert(subset_grid(fq, w, s as int));
            lemma_grid_count_subset(fq, w, s as int);
        }
        assert(is_flood(pg, s as int, false, gbx, gby, bv));
        assert(isolate_rel(m0, s as int, cgrid(mask.cells)));
    }
}

} // verus!
