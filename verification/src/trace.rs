//! Boundary tracing: border marking and iterative dead-end pruning.
//!
//! A border cell is a material cell 4-adjacent to no-material (cells off
//! the grid count as no-material).  Dead-end pruning repeatedly removes
//! the first border cell that has no plain-material 4-neighbour — a
//! one-pixel spur with nothing behind it — remarking the removed cell's
//! material neighbours as border, until no dead end is left.  Each
//! removal clears one material cell, so the process terminates, and its
//! fixed point holds no border cell without plain-material support.

use vstd::prelude::*;
use crate::flood::{in_grid, grid_count};
use crate::mask::{Mask, PixelClass, is_mat, cgrid, cgrid_wf, mat_grid, mat_count};

verus! {

/// Whether the cell at `(x, y)` should be border: material with a
/// 4-neighbour (or the grid edge) that is not material.
pub open spec fn border_here(m: Seq<Seq<PixelClass>>, s: int, x: int, y: int) -> bool {
    is_mat(m[y][x]) && (x == 0 || y == 0 || x == s - 1 || y == s - 1 || !is_mat(m[y][x - 1])
        || !is_mat(m[y][x + 1]) || !is_mat(m[y - 1][x]) || !is_mat(m[y + 1][x]))
}

/// The normalised class a cell takes after border marking.
pub open spec fn marked_class(m: Seq<Seq<PixelClass>>, s: int, x: int, y: int) -> PixelClass {
    if border_here(m, s, x, y) {
        PixelClass::Border
    } else if is_mat(m[y][x]) {
        PixelClass::Material
    } else {
        PixelClass::NoMaterial
    }
}

/// Marks border on every material cell 4-adjacent to no-material.
pub fn mark_borders(mask: &mut Mask)
    requires
        old(mask).wf(),
    ensures
        final(mask).wf(),
        final(mask).s == old(mask).s,
        final(mask).jag == old(mask).jag,
        forall|x: int, y: int|
            in_grid(old(mask).s as int, x, y) ==> (#[trigger] cgrid(final(mask).cells)[y][x])
                == marked_class(cgrid(old(mask).cells), old(mask).s as int, x, y),
{
    let s = mask.s;
    let ghost m0 = cgrid(mask.cells);
    let mut cells: Vec<Vec<PixelClass>> = Vec::new();
    let mut y: usize = 0;
    while y < s
        invariant
            mask.wf(),
            s == mask.s,
            m0 == cgrid(mask.cells),
            0 <= y <= s,
            cgrid(cells).len() == y,
            forall|yy: int| 0 <= yy < y ==> (#[trigger] cgrid(cells)[yy]).len() == s,
            forall|x: int, yy: int|
                0 <= yy < y && 0 <= x < s ==> (#[trigger] cgrid(cells)[yy][x]) == marked_class(
                    m0,
                    s as int,
                    x,
                    yy,
                ),
        decreases s - y,
    {
        let mut row: Vec<PixelClass> = Vec::new();
        let mut x: usize = 0;
        while x < s
            invariant
                mask.wf(),
                s == mask.s,
                m0 == cgrid(mask.cells),
                y < s,
                0 <= x <= s,
                row@.len() == x,
                forall|xx: int|
                    0 <= xx < x ==> (#[trigger] row@[xx]) == marked_class(m0, s as int, xx, y as int),
            decreases s - x,
        {
            let c = mask.get(x, y);
            let here_mat = !matches!(c, PixelClass::NoMaterial);
            let mut edge = x == 0 || y == 0 || x == s - 1 || y == s - 1;
            if !edge {
                let l = mask.get(x - 1, y);
                let r = mask.get(x + 1, y);
                let u = mask.get(x, y - 1);
                let d = mask.get(x, y + 1);
                edge = matches!(l, PixelClass::NoMaterial) || matches!(r, PixelClass::NoMaterial)
                    || matches!(u, PixelClass::NoMaterial) || matches!(
                    d,
                    PixelClass::NoMaterial,
                );
            }
            let cls = if here_mat && edge {
                PixelClass::Border
            } else if here_mat {
                PixelClass::Material
            } else {
                PixelClass::NoMaterial
            };
            proof {
                assert(cls == marked_class(m0, s as int, x as int, y as int));
            }
            row.push(cls);
            x += 1;
        }
        let ghost c0 = cgrid(cells);
        cells.push(row);
        proof {
            assert(cgrid(cells) =~= c0.push(row@));
            assert(forall|yy: int| 0 <= yy < y ==> cgrid(cells)[yy] == c0[yy]);
        }
        y += 1;
    }
    mask.cells = cells;
    proof {
        assert(cgrid_wf(cgrid(mask.cells), s as int));
    }
}

/// A dead end: a border cell with no plain-material 4-neighbour.
pub open spec fn dead_end_at(m: Seq<Seq<PixelClass>>, s: int, x: int, y: int) -> bool {
    &&& m[y][x] == PixelClass::Border
    &&& !(x > 0 && m[y][x - 1] == PixelClass::Material)
    &&& !(x < s - 1 && m[y][x + 1] == PixelClass::Material)
    &&& !(y > 0 && m[y - 1][x] == PixelClass::Material)
    &&& !(y < s - 1 && m[y + 1][x] == PixelClass::Material)
}

/// First dead end of row `y` at column `x0` or later.
pub open spec fn fde_row(m: Seq<Seq<PixelClass>>, s: int, y: int, x0: int) -> Option<int>
    decreases s - x0,
{
    if x0 < 0 || x0 >= s {
        None
    } else if dead_end_at(m, s, x0, y) {
        Some(x0)
    } else {
        fde_row(m, s, y, x0 + 1)
    }
}

/// First dead end in row-major order from row `y0` down.
pub open spec fn fde(m: Seq<Seq<PixelClass>>, s: int, y0: int) -> Option<(int, int)>
    decreases s - y0,
{
    if y0 < 0 || y0 >= s {
        None
    } else {
        match fde_row(m, s, y0, 0) {
            Some(x) => Some((x, y0)),
            None => fde(m, s, y0 + 1),
        }
    }
}

pub proof fn lemma_fde_row_props(m: Seq<Seq<PixelClass>>, s: int, y: int, x0: int)
    requires
        0 <= x0 <= s,
    ensures
        match fde_row(m, s, y, x0) {
            Some(x) => x0 <= x < s && dead_end_at(m, s, x, y) && forall|x2: int|
                x0 <= x2 < x ==> !dead_end_at(m, s, x2, y),
            None => forall|x2: int| x0 <= x2 < s ==> !dead_end_at(m, s, x2, y),
        },
    decreases s - x0,
{
    if x0 < s && !dead_end_at(m, s, x0, y) {
        lemma_fde_row_props(m, s, y, x0 + 1);
    }
}

pub proof fn lemma_fde_props(m: Seq<Seq<PixelClass>>, s: int, y0: int)
    requires
        0 <= y0 <= s,
    ensures
        match fde(m, s, y0) {
            Some(pt) => y0 <= pt.1 < s && 0 <= pt.0 < s && dead_end_at(m, s, pt.0, pt.1) && (
            forall|x2: int, y2: int|
                y0 <= y2 < pt.1 && 0 <= x2 < s ==> !dead_end_at(m, s, x2, y2)) && (forall|x2: int|
                0 <= x2 < pt.0 ==> !dead_end_at(m, s, x2, pt.1)),
            None => forall|x2: int, y2: int|
                y0 <= y2 < s && 0 <= x2 < s ==> !dead_end_at(m, s, x2, y2),
        },
    decreases s - y0,
{
    if y0 < s {
        lemma_fde_row_props(m, s, y0, 0);
        if fde_row(m, s, y0, 0) is None {
            lemma_fde_props(m, s, y0 + 1);
        }
    }
}

/// The grid after removing the dead end at `(x, y)`: the cell becomes
/// no-material, and each of its plain-material 4-neighbours becomes
/// border (it now touches no-material).
pub open spec fn remove_cell(m: Seq<Seq<PixelClass>>, s: int, x: int, y: int) -> Seq<
    Seq<PixelClass>,
> {
    Seq::new(
        s as nat,
        |yy: int|
            Seq::new(
                s as nat,
                |xx: int|
                    if xx == x && yy == y {
                        PixelClass::NoMaterial
                    } else if crate::flood::adj(false, xx, yy, x, y) && m[yy][xx]
                        == PixelClass::Material {
                        PixelClass::Border
                    } else {
                        m[yy][xx]
                    },
            ),
    )
}

/// Removing a border cell lowers the material count by exactly one.
pub proof fn lemma_remove_cell_count(m: Seq<Seq<PixelClass>>, s: int, x: int, y: int)
    requires
        cgrid_wf(m, s),
        in_grid(s, x, y),
        m[y][x] == PixelClass::Border,
    ensures
        cgrid_wf(remove_cell(m, s, x, y), s),
        mat_count(remove_cell(m, s, x, y), s) == mat_count(m, s) - 1,
{
    let m2 = remove_cell(m, s, x, y);
    let g = mat_grid(m, s);
    let g2 = mat_grid(m2, s);
    crate::flood::lemma_grid_count_clear(g, s, x, y);
    assert(g2 =~~= g.update(y, g[y].update(x, false))) by {
        assert forall|yy: int| 0 <= yy < s implies g2[yy] =~= g.update(
            y,
            g[y].update(x, false),
        )[yy] by {
            assert forall|xx: int| 0 <= xx < s implies g2[yy][xx] == g.update(
                y,
                g[y].update(x, false),
            )[yy][xx] by {
                if yy == y {
                    if xx == x {
                    } else {
                        assert(g.update(y, g[y].update(x, false))[yy][xx] == g[y][xx]);
                    }
                }
            }
        }
    }
}

/// The fully pruned mask: dead ends removed, in row-major order, until a
/// fixed point.
pub open spec fn prune_spec(m: Seq<Seq<PixelClass>>, s: int) -> Seq<Seq<PixelClass>>
    decreases mat_count(m, s)
        when cgrid_wf(m, s) && 1 <= s
        via prune_spec_decreases
{
    match fde(m, s, 0) {
        None => m,
        Some(pt) => prune_spec(remove_cell(m, s, pt.0, pt.1), s),
    }
}

#[via_fn]
proof fn prune_spec_decreases(m: Seq<Seq<PixelClass>>, s: int) {
    match fde(m, s, 0) {
        None => {},
        Some(pt) => {
            lemma_fde_props(m, s, 0);
            lemma_remove_cell_count(m, s, pt.0, pt.1);
            crate::flood::lemma_grid_count_pos(mat_grid(m, s), s, pt.0, pt.1);
            crate::flood::lemma_grid_count_bounds(mat_grid(remove_cell(m, s, pt.0, pt.1), s), s);
        },
    }
}

/// Dead-end pruning reaches a fixed point: the pruned mask holds no
/// border cell with zero plain-material 4-neighbours.
pub proof fn lemma_prune_fixed_point(m: Seq<Seq<PixelClass>>, s: int)
    requires
        cgrid_wf(m, s),
        1 <= s,
    ensures
        cgrid_wf(prune_spec(m, s), s),
        forall|x: int, y: int|
            in_grid(s, x, y) ==> !dead_end_at(prune_spec(m, s), s, x, y),
    decreases mat_count(m, s),
{
    crate::flood::lemma_grid_count_bounds(mat_grid(m, s), s);
    match fde(m, s, 0) {
        None => {
            lemma_fde_props(m, s, 0);
        },
        Some(pt) => {
            lemma_fde_props(m, s, 0);
            lemma_remove_cell_count(m, s, pt.0, pt.1);
            crate::flood::lemma_grid_count_pos(mat_grid(m, s), s, pt.0, pt.1);
            lemma_prune_fixed_point(remove_cell(m, s, pt.0, pt.1), s);
        },
    }
}

/// Finds the first dead end in row-major order.
fn find_dead_end(mask: &Mask) -> (r: Option<(usize, usize)>)
    requires
        mask.wf(),
    ensures
        match r {
            Some(pt) => fde(cgrid(mask.cells), mask.s as int, 0) == Some(
                (pt.0 as int, pt.1 as int),
            ),
            None => fde(cgrid(mask.cells), mask.s as int, 0) is None,
        },
{
    let s = mask.s;
    let ghost m = cgrid(mask.cells);
    let mut y: usize = 0;
    while y < s
        invariant
            mask.wf(),
            s == mask.s,
            m == cgrid(mask.cells),
            0 <= y <= s,
            forall|x2: int, y2: int|
                0 <= y2 < y && 0 <= x2 < s ==> !dead_end_at(m, s as int, x2, y2),
        decreases s - y,
    {
        let mut x: usize = 0;
        while x < s
            invariant
                mask.wf(),
                s == mask.s,
                m == cgrid(mask.cells),
                y < s,
                0 <= x <= s,
                forall|x2: int, y2: int|
                    0 <= y2 < y && 0 <= x2 < s ==> !dead_end_at(m, s as int, x2, y2),
                forall|x2: int| 0 <= x2 < x ==> !dead_end_at(m, s as int, x2, y as int),
            decreases s - x,
        {
            let c = mask.get(x, y);
            if matches!(c, PixelClass::Border) {
                let mut supported = false;
                if x > 0 {
                    supported = supported || matches!(mask.get(x - 1, y), PixelClass::Material);
                }
                if x + 1 < s {
                    supported = supported || matches!(mask.get(x + 1, y), PixelClass::Material);
                }
                if y > 0 {
                    supported = supported || matches!(mask.get(x, y - 1), PixelClass::Material);
                }
                if y + 1 < s {
                    supported = supported || matches!(mask.get(x, y + 1), PixelClass::Material);
                }
                if !supported {
                    proof {
                        assert(dead_end_at(m, s as int, x as int, y as int));
                        lemma_fde_props(m, s as int, 0);
                        match fde(m, s as int, 0) {
                            Some(pt) => {
                                if pt.1 < y as int {
                                    assert(!dead_end_at(m, s as int, pt.0, pt.1));
                                } else if pt.1 > y as int {
                                    assert(!dead_end_at(m, s as int, x as int, y as int));
                                } else {
                                    if pt.0 < x as int {
                                        assert(!dead_end_at(m, s as int, pt.0, pt.1));
                                    } else if pt.0 > x as int {
                                        assert(!dead_end_at(m, s as int, x as int, y as int));
                                    }
                                }
                            },
                            None => {
                                assert(!dead_end_at(m, s as int, x as int, y as int));
                            },
                        }
                    }
                    return Some((x, y));
                }
            }
            proof {
                assert(!dead_end_at(m, s as int, x as int, y as int));
            }
            x += 1;
        }
        y += 1;
    }
    proof {
        lemma_fde_props(m, s as int, 0);
        match fde(m, s as int, 0) {
            Some(pt) => {
                assert(!dead_end_at(m, s as int, pt.0, pt.1));
            },
            None => {},
        }
    }
    None
}

/// Iteratively removes dead-end border cells until a fixed point.
pub fn prune_dead_ends(mask: &mut Mask)
    requires
        old(mask).wf(),
    ensures
        final(mask).wf(),
        final(mask).s == old(mask).s,
        final(mask).jag == old(mask).jag,
        cgrid(final(mask).cells) == prune_spec(cgrid(old(mask).cells), old(mask).s as int),
{
    let s = mask.s;
    let ghost m_orig = cgrid(mask.cells);
    let mut done = false;
    while !done
        invariant
            mask.wf(),
            s == mask.s,
            mask.jag == old(mask).jag,
            1 <= s,
            prune_spec(cgrid(mask.cells), s as int) == prune_spec(m_orig, s as int),
            done ==> fde(cgrid(mask.cells), s as int, 0) is None,
        decreases mat_count(cgrid(mask.cells), s as int) + 1, (if done { 0int } else { 1int }),
    {
        let ghost m_it = cgrid(mask.cells);
        proof {
            crate::flood::lemma_grid_count_bounds(mat_grid(m_it, s as int), s as int);
        }
        match find_dead_end(mask) {
            None => {
                done = true;
            },
            Some((x, y)) => {
                proof {
                    lemma_fde_props(m_it, s as int, 0);
                    lemma_remove_cell_count(m_it, s as int, x as int, y as int);
                }
                mask.set(x, y, PixelClass::NoMaterial);
                if x > 0 {
                    if matches!(mask.get(x - 1, y), PixelClass::Material) {
                        mask.set(x - 1, y, PixelClass::Border);
                    }
                }
                if x + 1 < s {
                    if matches!(mask.get(x + 1, y), PixelClass::Material) {
                        mask.set(x + 1, y, PixelClass::Border);
                    }
                }
                if y > 0 {
                    if matches!(mask.get(x, y - 1), PixelClass::Material) {
                        mask.set(x, y - 1, PixelClass::Border);
                    }
                }
                if y + 1 < s {
                    if matches!(mask.get(x, y + 1), PixelClass::Material) {
                        mask.set(x, y + 1, PixelClass::Border);
                    }
                }
                proof {
                    let m2 = remove_cell(m_it, s as int, x as int, y as int);
                    assert(cgrid(mask.cells) =~~= m2) by {
                        assert forall|yy: int| 0 <= yy < s implies cgrid(mask.cells)[yy]
                            =~= m2[yy] by {
                            assert forall|xx: int| 0 <= xx < s implies cgrid(
                                mask.cells,
                            )[yy][xx] == m2[yy][xx] by {
                                assert(m2[yy][xx] == if xx == x as int && yy == y as int {
                                    PixelClass::NoMaterial
                                } else if crate::flood::adj(false, xx, yy, x as int, y as int)
                                    && m_it[yy][xx] == PixelClass::Material {
                                    PixelClass::Border
                                } else {
                                    m_it[yy][xx]
                                });
                            }
                        }
                    }
                    assert(prune_spec(m_it, s as int) == prune_spec(m2, s as int));
                }
            },
        }
    }
}

/// Jag policy: the probe offset D and the width threshold below which a
/// row or column of material is flagged as too thin to trust.
#[derive(Clone, Copy, PartialEq, Eq, Structural, Debug)]
pub struct JagConfig {
    pub probe: usize,
    pub width: usize,
}

/// A border cell sits in one of the two probe rows `y - d`, `y + d` at
/// column `x`.
pub open spec fn probe_row_border(m: Seq<Seq<PixelClass>>, s: int, d: int, y: int, x: int) -> bool {
    ||| (y - d >= 0 && m[y - d][x] == PixelClass::Border)
    ||| (y + d < s && m[y + d][x] == PixelClass::Border)
}

/// Row `y` is flagged: its probe rows carry border whose full horizontal
/// extent is narrower than the width threshold.
pub open spec fn row_flagged(m: Seq<Seq<PixelClass>>, s: int, d: int, w: int, y: int) -> bool {
    exists|lo: int, hi: int|
        0 <= lo <= hi < s && #[trigger] probe_row_border(m, s, d, y, lo) && #[trigger] probe_row_border(
            m,
            s,
            d,
            y,
            hi,
        ) && (forall|x: int| 0 <= x < s && probe_row_border(m, s, d, y, x) ==> lo <= x <= hi) && hi
            + 1 - lo < w
}

/// A border cell sits in one of the two probe columns `x - d`, `x + d`
/// at row `y`.
pub open spec fn probe_col_border(m: Seq<Seq<PixelClass>>, s: int, d: int, x: int, y: int) -> bool {
    ||| (x - d >= 0 && m[y][x - d] == PixelClass::Border)
    ||| (x + d < s && m[y][x + d] == PixelClass::Border)
}

/// Column `x` is flagged: its probe columns carry border whose full
/// vertical extent is narrower than the width threshold.
pub open spec fn col_flagged(m: Seq<Seq<PixelClass>>, s: int, d: int, w: int, x: int) -> bool {
    exists|lo: int, hi: int|
        0 <= lo <= hi < s && #[trigger] probe_col_border(m, s, d, x, lo) && #[trigger] probe_col_border(
            m,
            s,
            d,
            x,
            hi,
        ) && (forall|y: int| 0 <= y < s && probe_col_border(m, s, d, x, y) ==> lo <= y <= hi) && hi
            + 1 - lo < w
}

/// A material cell in a flagged row or column carries the jag flag.
pub open spec fn jag_at_spec(
    m: Seq<Seq<PixelClass>>,
    s: int,
    d: int,
    w: int,
    x: int,
    y: int,
) -> bool {
    is_mat(m[y][x]) && (row_flagged(m, s, d, w, y) || col_flagged(m, s, d, w, x))
}

/// Flags the jag cells: material in rows and columns whose boundary
/// window, probed D rows (columns) above and below, is narrower than the
/// width threshold.  Classes are untouched; jags stay in the boundary
/// and are only excluded from corner search.
pub fn mark_jags(mask: &mut Mask, cfg: JagConfig)
    requires
        old(mask).wf(),
        1 <= cfg.probe <= crate::geom::MAX_SIDE,
    ensures
        final(mask).wf(),
        final(mask).s == old(mask).s,
        final(mask).cells == old(mask).cells,
        forall|x: int, y: int|
            in_grid(old(mask).s as int, x, y) ==> (#[trigger] crate::flood::bgrid(
                final(mask).jag,
            )[y][x]) == jag_at_spec(
                cgrid(old(mask).cells),
                old(mask).s as int,
                cfg.probe as int,
                cfg.width as int,
                x,
                y,
            ),
{
    let s = mask.s;
    let d = cfg.probe;
    let w = cfg.width;
    let ghost m = cgrid(mask.cells);
    // Per-row flags.
    let mut row_flags: Vec<bool> = Vec::new();
    let mut y: usize = 0;
    while y < s
        invariant
            mask.wf(),
            s == mask.s,
            d == cfg.probe,
            w == cfg.width,
            1 <= d <= crate::geom::MAX_SIDE,
            m == cgrid(mask.cells),
            0 <= y <= s,
            row_flags@.len() == y,
            forall|yy: int|
                0 <= yy < y ==> (#[trigger] row_flags@[yy]) == row_flagged(
                    m,
                    s as int,
                    d as int,
                    w as int,
                    yy,
                ),
        decreases s - y,
    {
        let mut found = false;
        let mut lo: usize = 0;
        let mut hi: usize = 0;
        let mut x: usize = 0;
        while x < s
            invariant
                mask.wf(),
                s == mask.s,
                d == cfg.probe,
                w == cfg.width,
                1 <= d <= crate::geom::MAX_SIDE,
                m == cgrid(mask.cells),
                y < s,
                0 <= x <= s,
                found <==> exists|x2: int|
                    0 <= x2 < x && #[trigger] probe_row_border(m, s as int, d as int, y as int, x2),
                found ==> lo <= hi < s && probe_row_border(m, s as int, d as int, y as int, lo as int)
                    && probe_row_border(m, s as int, d as int, y as int, hi as int) && forall|
                    x2: int,
                |
                    0 <= x2 < x && #[trigger] probe_row_border(m, s as int, d as int, y as int, x2)
                        ==> lo <= x2 <= hi,
            decreases s - x,
        {
            let mut up = false;
            if y >= d {
                let yd: usize = y - d;
                up = matches!(mask.get(x, yd), PixelClass::Border);
            }
            let mut down = false;
            if y + d < s {
                let yd: usize = y + d;
                down = matches!(mask.get(x, yd), PixelClass::Border);
            }
            let pb = up || down;
            proof {
                assert(pb == probe_row_border(m, s as int, d as int, y as int, x as int));
            }
            if pb {
                if !found {
                    lo = x;
                    hi = x;
                    found = true;
                } else {
                    hi = x;
                }
            }
            x += 1;
        }
        let flag = found && hi + 1 - lo < w;
        proof {
            if flag {
                assert(row_flagged(m, s as int, d as int, w as int, y as int));
            }
            if row_flagged(m, s as int, d as int, w as int, y as int) {
                let (slo, shi) = choose|lo2: int, hi2: int|
                    0 <= lo2 <= hi2 < s && #[trigger] probe_row_border(
                        m,
                        s as int,
                        d as int,
                        y as int,
                        lo2,
                    ) && #[trigger] probe_row_border(m, s as int, d as int, y as int, hi2) && (
                    forall|x2: int|
                        0 <= x2 < s && probe_row_border(m, s as int, d as int, y as int, x2)
                            ==> lo2 <= x2 <= hi2) && hi2 + 1 - lo2 < w;
                assert(found);
                assert(slo <= lo <= shi && slo <= hi <= shi);
                assert(lo <= slo <= hi && lo <= shi <= hi);
                assert(flag);
            }
        }
        row_flags.push(flag);
        y += 1;
    }
    // Per-column flags.
    let mut col_flags: Vec<bool> = Vec::new();
    let mut cx: usize = 0;
    while cx < s
        invariant
            mask.wf(),
            s == mask.s,
            d == cfg.probe,
            w == cfg.width,
            1 <= d <= crate::geom::MAX_SIDE,
            m == cgrid(mask.cells),
            0 <= cx <= s,
            col_flags@.len() == cx,
            forall|xx: int|
                0 <= xx < cx ==> (#[trigger] col_flags@[xx]) == col_flagged(
                    m,
                    s as int,
                    d as int,
                    w as int,
                    xx,
                ),
        decreases s - cx,
    {
        let mut found = false;
        let mut lo: usize = 0;
        let mut hi: usize = 0;
        let mut cy: usize = 0;
        while cy < s
            invariant
                mask.wf(),
                s == mask.s,
                d == cfg.probe,
                w == cfg.width,
                1 <= d <= crate::geom::MAX_SIDE,
                m == cgrid(mask.cells),
                cx < s,
                0 <= cy <= s,
                found <==> exists|y2: int|
                    0 <= y2 < cy && #[trigger] probe_col_border(
                        m,
                        s as int,
                        d as int,
                        cx as int,
                        y2,
                    ),
                found ==> lo <= hi < s && probe_col_border(
                    m,
                    s as int,
                    d as int,
                    cx as int,
                    lo as int,
                ) && probe_col_border(m, s as int, d as int, cx as int, hi as int) && forall|
                    y2: int,
                |
                    0 <= y2 < cy && #[trigger] probe_col_border(
                        m,
                        s as int,
                        d as int,
                        cx as int,
                        y2,
                    ) ==> lo <= y2 <= hi,
            decreases s - cy,
        {
            let mut left = false;
            if cx >= d {
                let xd: usize = cx - d;
                left = matches!(mask.get(xd, cy), PixelClass::Border);
            }
            let mut right = false;
            if cx + d < s {
                let xd: usize = cx + d;
                right = matches!(mask.get(xd, cy), PixelClass::Border);
            }
            let pb = left || right;
            proof {
                assert(pb == probe_col_border(m, s as int, d as int, cx as int, cy as int));
            }
            if pb {
                if !found {
                    lo = cy;
                    hi = cy;
                    found = true;
                } else {
                    hi = cy;
                }
            }
            cy += 1;
        }
        let flag = found && hi + 1 - lo < w;
        proof {
            if flag {
                assert(col_flagged(m, s as int, d as int, w as int, cx as int));
            }
            if col_flagged(m, s as int, d as int, w as int, cx as int) {
                let (slo, shi) = choose|lo2: int, hi2: int|
                    0 <= lo2 <= hi2 < s && #[trigger] probe_col_border(
                        m,
                        s as int,
                        d as int,
                        cx as int,
                        lo2,
                    ) && #[trigger] probe_col_border(m, s as int, d as int, cx as int, hi2) && (
                    forall|y2: int|
                        0 <= y2 < s && probe_col_border(m, s as int, d as int, cx as int, y2)
                            ==> lo2 <= y2 <= hi2) && hi2 + 1 - lo2 < w;
                assert(found);
                assert(slo <= lo <= shi && slo <= hi <= shi);
                assert(lo <= slo <= hi && lo <= shi <= hi);
                assert(flag);
            }
        }
        col_flags.push(flag);
        cx += 1;
    }
    // Combine into the jag grid.
    let mut jag: Vec<Vec<bool>> = Vec::new();
    let mut jy: usize = 0;
    while jy < s
        invariant
            mask.wf(),
            s == mask.s,
            d == cfg.probe,
            w == cfg.width,
            m == cgrid(mask.cells),
            0 <= jy <= s,
            row_flags@.len() == s,
            col_flags@.len() == s,
            forall|yy: int|
                0 <= yy < s ==> (#[trigger] row_flags@[yy]) == row_flagged(
                    m,
                    s as int,
                    d as int,
                    w as int,
                    yy,
                ),
            forall|xx: int|
                0 <= xx < s ==> (#[trigger] col_flags@[xx]) == col_flagged(
                    m,
                    s as int,
                    d as int,
                    w as int,
                    xx,
                ),
            crate::flood::bgrid(jag).len() == jy,
            forall|yy: int|
                0 <= yy < jy ==> (#[trigger] crate::flood::bgrid(jag)[yy]).len() == s,
            forall|xx: int, yy: int|
                0 <= yy < jy && 0 <= xx < s ==> (#[trigger] crate::flood::bgrid(jag)[yy][xx])
                    == jag_at_spec(m, s as int, d as int, w as int, xx, yy),
        decreases s - jy,
    {
        let mut row: Vec<bool> = Vec::new();
        let mut jx: usize = 0;
        let rflag = row_flags[jy];
        while jx < s
            invariant
                mask.wf(),
                s == mask.s,
                d == cfg.probe,
                w == cfg.width,
                m == cgrid(mask.cells),
                jy < s,
                0 <= jx <= s,
                col_flags@.len() == s,
                forall|xx: int|
                    0 <= xx < s ==> (#[trigger] col_flags@[xx]) == col_flagged(
                        m,
                        s as int,
                        d as int,
                        w as int,
                        xx,
                    ),
                rflag == row_flagged(m, s as int, d as int, w as int, jy as int),
                row@.len() == jx,
                forall|xx: int|
                    0 <= xx < jx ==> (#[trigger] row@[xx]) == jag_at_spec(
                        m,
                        s as int,
                        d as int,
                        w as int,
                        xx,
                        jy as int,
                    ),
            decreases s - jx,
        {
            let c = mask.get(jx, jy);
            let j = !matches!(c, PixelClass::NoMaterial) && (rflag || col_flags[jx]);
            proof {
                assert(j == jag_at_spec(m, s as int, d as int, w as int, jx as int, jy as int));
            }
            row.push(j);
            jx += 1;
        }
        let ghost j0 = crate::flood::bgrid(jag);
        jag.push(row);
        proof {
            assert(crate::flood::bgrid(jag) =~= j0.push(row@));
            assert(forall|yy: int| 0 <= yy < jy ==> crate::flood::bgrid(jag)[yy] == j0[yy]);
        }
        jy += 1;
    }
    mask.jag = jag;
}

} // verus!
