//! Verified iterative flood fill over square boolean grids.
//!
//! The fill starts from a passable seed cell and marks exactly the least
//! set of passable cells that contains the seed and is closed under
//! (4- or 8-) adjacency within the passable cells.  It runs with an
//! explicit worklist, never recursion, so deep regions cannot overflow
//! the stack.

use vstd::prelude::*;
use vstd::std_specs::vec::vec_index_mut;
use crate::geom::{Point, MAX_SIDE};

verus! {

/// Absolute value.
pub open spec fn iabs(a: int) -> int {
    if a >= 0 {
        a
    } else {
        -a
    }
}

/// Two cells are adjacent: 4-connected, or 8-connected when `diag` holds.
pub open spec fn adj(diag: bool, x1: int, y1: int, x2: int, y2: int) -> bool {
    let dx = iabs(x1 - x2);
    let dy = iabs(y1 - y2);
    if diag {
        dx <= 1 && dy <= 1 && dx + dy >= 1
    } else {
        dx + dy == 1
    }
}

/// A cell position inside a grid of side `s`.
pub open spec fn in_grid(s: int, x: int, y: int) -> bool {
    0 <= x < s && 0 <= y < s
}

/// An `s` by `s` boolean grid.
pub open spec fn grid_wf(g: Seq<Seq<bool>>, s: int) -> bool {
    g.len() == s && forall|y: int| 0 <= y < s ==> (#[trigger] g[y]).len() == s
}

/// The mathematical view of a vector-of-rows boolean grid.
pub open spec fn bgrid(v: Vec<Vec<bool>>) -> Seq<Seq<bool>> {
    v@.map_values(|r: Vec<bool>| r@)
}

/// `m` is closed: a passable neighbour of a marked cell is marked.
pub open spec fn flood_closed(
    pass: Seq<Seq<bool>>,
    m: Seq<Seq<bool>>,
    s: int,
    diag: bool,
) -> bool {
    forall|x1: int, y1: int, x2: int, y2: int|
        #![trigger m[y1][x1], adj(diag, x1, y1, x2, y2), pass[y2][x2]]
        in_grid(s, x1, y1) && in_grid(s, x2, y2) && m[y1][x1] && adj(diag, x1, y1, x2, y2)
            && pass[y2][x2] ==> m[y2][x2]
}

/// Every cell marked in `a` is marked in `b`.
pub open spec fn subset_grid(a: Seq<Seq<bool>>, b: Seq<Seq<bool>>, s: int) -> bool {
    forall|x: int, y: int| in_grid(s, x, y) && (#[trigger] a[y][x]) ==> b[y][x]
}

/// The standing part of the fill's invariant: a well-formed marked grid
/// that contains the seed, stays within the passable cells, and is below
/// every closed set containing the seed.
pub open spec fn flood_inv(
    pass: Seq<Seq<bool>>,
    s: int,
    diag: bool,
    sx: int,
    sy: int,
    m: Seq<Seq<bool>>,
) -> bool {
    &&& grid_wf(m, s)
    &&& m[sy][sx]
    &&& forall|x: int, y: int| in_grid(s, x, y) && (#[trigger] m[y][x]) ==> pass[y][x]
    &&& forall|t: Seq<Seq<bool>>|
        #![trigger flood_closed(pass, t, s, diag)]
        grid_wf(t, s) && t[sy][sx] && flood_closed(pass, t, s, diag) ==> subset_grid(m, t, s)
}

/// The fill's full postcondition: the least closed passable set
/// containing the seed.
pub open spec fn is_flood(
    pass: Seq<Seq<bool>>,
    s: int,
    diag: bool,
    sx: int,
    sy: int,
    m: Seq<Seq<bool>>,
) -> bool {
    &&& flood_inv(pass, s, diag, sx, sy, m)
    &&& flood_closed(pass, m, s, diag)
}

/// Two floods of the same seed mark the same cells.
pub proof fn lemma_flood_unique(
    pass: Seq<Seq<bool>>,
    s: int,
    diag: bool,
    sx: int,
    sy: int,
    m1: Seq<Seq<bool>>,
    m2: Seq<Seq<bool>>,
)
    requires
        is_flood(pass, s, diag, sx, sy, m1),
        is_flood(pass, s, diag, sx, sy, m2),
    ensures
        m1 =~~= m2,
{
    assert(subset_grid(m1, m2, s));
    assert(subset_grid(m2, m1, s));
    assert forall|y: int| 0 <= y < s implies m1[y] =~= m2[y] by {
        assert forall|x: int| 0 <= x < s implies m1[y][x] == m2[y][x] by {
            assert(m1[y][x] ==> m2[y][x]);
            assert(m2[y][x] ==> m1[y][x]);
        }
    }
    assert(m1 =~~= m2);
}

/// Number of marked cells in a row.
pub open spec fn row_count(r: Seq<bool>) -> int
    decreases r.len(),
{
    if r.len() == 0 {
        0
    } else {
        row_count(r.drop_last()) + if r.last() {
            1int
        } else {
            0int
        }
    }
}

/// Number of marked cells in a grid.
pub open spec fn grid_count(g: Seq<Seq<bool>>) -> int
    decreases g.len(),
{
    if g.len() == 0 {
        0
    } else {
        grid_count(g.drop_last()) + row_count(g.last())
    }
}

pub proof fn lemma_row_count_bounds(r: Seq<bool>)
    ensures
        0 <= row_count(r) <= r.len(),
    decreases r.len(),
{
    if r.len() > 0 {
        lemma_row_count_bounds(r.drop_last());
    }
}

pub proof fn lemma_grid_count_bounds(g: Seq<Seq<bool>>, s: int)
    requires
        grid_wf(g, s),
    ensures
        0 <= grid_count(g) <= s * s,
    decreases g.len(),
{
    lemma_grid_count_le(g, s, g.len() as int);
    assert(g.subrange(0, g.len() as int) =~= g);
}

/// Counting the first `n` rows of a width-`s` grid gives at most `n * s`.
proof fn lemma_grid_count_le(g: Seq<Seq<bool>>, s: int, n: int)
    requires
        grid_wf(g, s),
        0 <= n <= g.len(),
    ensures
        0 <= grid_count(g.subrange(0, n)) <= n * s,
        n <= s ==> grid_count(g.subrange(0, n)) <= s * s,
    decreases n,
{
    if n == 0 {
        assert(g.subrange(0, 0) =~= Seq::<Seq<bool>>::empty());
        assert(0 * s == 0) by (nonlinear_arith);
        assert(s * s >= 0) by (nonlinear_arith)
            requires s >= 0;
    } else {
        lemma_grid_count_le(g, s, n - 1);
        let pre = g.subrange(0, n - 1);
        let cur = g.subrange(0, n);
        assert(cur.drop_last() =~= pre);
        assert(cur.last() == g[n - 1]);
        lemma_row_count_bounds(g[n - 1]);
        assert((n - 1) * s + s == n * s) by (nonlinear_arith);
        assert(n <= s ==> n * s <= s * s) by (nonlinear_arith)
            requires s >= 0;
    }
}

/// Marking one unmarked cell raises the count by exactly one.
pub proof fn lemma_grid_count_update(g: Seq<Seq<bool>>, s: int, x: int, y: int)
    requires
        grid_wf(g, s),
        in_grid(s, x, y),
        !g[y][x],
    ensures
        grid_count(g.update(y, g[y].update(x, true))) == grid_count(g) + 1,
{
    lemma_row_count_update(g[y], x);
    lemma_grid_count_row_swap(g, g[y].update(x, true), y, g.len() as int);
    let g2 = g.update(y, g[y].update(x, true));
    assert(g2.subrange(0, g2.len() as int) =~= g2);
    assert(g.subrange(0, g.len() as int) =~= g);
}

/// Clearing one marked cell lowers the count by exactly one.
pub proof fn lemma_grid_count_clear(g: Seq<Seq<bool>>, s: int, x: int, y: int)
    requires
        grid_wf(g, s),
        in_grid(s, x, y),
        g[y][x],
    ensures
        grid_count(g.update(y, g[y].update(x, false))) == grid_count(g) - 1,
{
    lemma_row_count_clear(g[y], x);
    lemma_grid_count_row_swap(g, g[y].update(x, false), y, g.len() as int);
    let g2 = g.update(y, g[y].update(x, false));
    assert(g2.subrange(0, g2.len() as int) =~= g2);
    assert(g.subrange(0, g.len() as int) =~= g);
}

/// A grid with a marked cell counts at least one.
pub proof fn lemma_grid_count_pos(g: Seq<Seq<bool>>, s: int, x: int, y: int)
    requires
        grid_wf(g, s),
        in_grid(s, x, y),
        g[y][x],
    ensures
        grid_count(g) >= 1,
{
    lemma_grid_count_clear(g, s, x, y);
    let g2 = g.update(y, g[y].update(x, false));
    assert(grid_wf(g2, s)) by {
        assert(forall|yy: int| 0 <= yy < s ==> (#[trigger] g2[yy]).len() == s);
    }
    lemma_grid_count_bounds(g2, s);
}

proof fn lemma_row_count_clear(r: Seq<bool>, x: int)
    requires
        0 <= x < r.len(),
        r[x],
    ensures
        row_count(r.update(x, false)) == row_count(r) - 1,
    decreases r.len(),
{
    let r2 = r.update(x, false);
    if x == r.len() - 1 {
        assert(r2.drop_last() =~= r.drop_last());
        assert(!r2.last() && r.last());
    } else {
        assert(r2.drop_last() =~= r.drop_last().update(x, false));
        assert(r2.last() == r.last());
        lemma_row_count_clear(r.drop_last(), x);
    }
}

proof fn lemma_row_count_update(r: Seq<bool>, x: int)
    requires
        0 <= x < r.len(),
        !r[x],
    ensures
        row_count(r.update(x, true)) == row_count(r) + 1,
    decreases r.len(),
{
    let r2 = r.update(x, true);
    if x == r.len() - 1 {
        assert(r2.drop_last() =~= r.drop_last());
        assert(r2.last() && !r.last());
    } else {
        assert(r2.drop_last() =~= r.drop_last().update(x, true));
        assert(r2.last() == r.last());
        lemma_row_count_update(r.drop_last(), x);
    }
}

/// Replacing row `y` changes the grid count by the row-count difference.
proof fn lemma_grid_count_row_swap(g: Seq<Seq<bool>>, row: Seq<bool>, y: int, n: int)
    requires
        0 <= y < g.len(),
        0 <= n <= g.len(),
    ensures
        grid_count(g.update(y, row).subrange(0, n)) == grid_count(g.subrange(0, n)) + if y < n {
            row_count(row) - row_count(g[y])
        } else {
            0
        },
    decreases n,
{
    let g2 = g.update(y, row);
    if n == 0 {
        assert(g2.subrange(0, 0) =~= Seq::<Seq<bool>>::empty());
        assert(g.subrange(0, 0) =~= Seq::<Seq<bool>>::empty());
    } else {
        lemma_grid_count_row_swap(g, row, y, n - 1);
        let pre2 = g2.subrange(0, n - 1);
        let cur2 = g2.subrange(0, n);
        let pre = g.subrange(0, n - 1);
        let cur = g.subrange(0, n);
        assert(cur2.drop_last() =~= pre2);
        assert(cur.drop_last() =~= pre);
        assert(cur.last() == g[n - 1]);
        if y == n - 1 {
            assert(cur2.last() == row);
        } else {
            assert(cur2.last() == g[n - 1]);
        }
    }
}

/// Rows with pointwise-implied marks have no larger counts.
proof fn lemma_row_count_le(a: Seq<bool>, b: Seq<bool>)
    requires
        a.len() == b.len(),
        forall|x: int| 0 <= x < a.len() && (#[trigger] a[x]) ==> b[x],
    ensures
        row_count(a) <= row_count(b),
    decreases a.len(),
{
    if a.len() > 0 {
        assert(forall|x: int| 0 <= x < a.len() - 1 ==> a.drop_last()[x] == a[x]);
        assert(forall|x: int| 0 <= x < b.len() - 1 ==> b.drop_last()[x] == b[x]);
        lemma_row_count_le(a.drop_last(), b.drop_last());
    }
}

/// A grid marked below another grid has no larger count.
pub proof fn lemma_grid_count_subset(a: Seq<Seq<bool>>, b: Seq<Seq<bool>>, s: int)
    requires
        grid_wf(a, s),
        grid_wf(b, s),
        subset_grid(a, b, s),
    ensures
        grid_count(a) <= grid_count(b),
{
    lemma_grid_count_subset_upto(a, b, s, s);
    assert(a.subrange(0, s) =~= a);
    assert(b.subrange(0, s) =~= b);
}

proof fn lemma_grid_count_subset_upto(a: Seq<Seq<bool>>, b: Seq<Seq<bool>>, s: int, n: int)
    requires
        grid_wf(a, s),
        grid_wf(b, s),
        subset_grid(a, b, s),
        0 <= n <= s,
    ensures
        grid_count(a.subrange(0, n)) <= grid_count(b.subrange(0, n)),
    decreases n,
{
    if n == 0 {
        assert(a.subrange(0, 0) =~= Seq::<Seq<bool>>::empty());
        assert(b.subrange(0, 0) =~= Seq::<Seq<bool>>::empty());
    } else {
        lemma_grid_count_subset_upto(a, b, s, n - 1);
        let pa = a.subrange(0, n - 1);
        let ca = a.subrange(0, n);
        let pb = b.subrange(0, n - 1);
        let cb = b.subrange(0, n);
        assert(ca.drop_last() =~= pa);
        assert(cb.drop_last() =~= pb);
        assert(ca.last() == a[n - 1] && cb.last() == b[n - 1]);
        assert forall|x: int| 0 <= x < s && (#[trigger] a[n - 1][x]) implies b[n - 1][x] by {
            assert(in_grid(s, x, n - 1));
        }
        lemma_row_count_le(a[n - 1], b[n - 1]);
    }
}

/// Counts the marked cells of a grid.
pub fn count_cells(g: &Vec<Vec<bool>>, s: usize) -> (r: usize)
    requires
        grid_wf(bgrid(*g), s as int),
        s <= MAX_SIDE,
    ensures
        r == grid_count(bgrid(*g)),
{
    let ghost gv = bgrid(*g);
    let mut total: usize = 0;
    let mut y: usize = 0;
    proof {
        assert(gv.subrange(0, 0) =~= Seq::<Seq<bool>>::empty());
    }
    while y < s
        invariant
            grid_wf(gv, s as int),
            s <= MAX_SIDE,
            gv == bgrid(*g),
            0 <= y <= s,
            total == grid_count(gv.subrange(0, y as int)),
            total <= (s as int) * (s as int),
        decreases s - y,
    {
        let ghost row = gv[y as int];
        let mut rc: usize = 0;
        let mut x: usize = 0;
        proof {
            assert(row.subrange(0, 0) =~= Seq::<bool>::empty());
        }
        while x < s
            invariant
                grid_wf(gv, s as int),
                s <= MAX_SIDE,
                gv == bgrid(*g),
                y < s,
                row == gv[y as int],
                0 <= x <= s,
                rc == row_count(row.subrange(0, x as int)),
                rc <= x,
            decreases s - x,
        {
            proof {
                let pre = row.subrange(0, x as int);
                let cur = row.subrange(0, x + 1);
                assert(cur.drop_last() =~= pre);
                assert(cur.last() == row[x as int]);
                lemma_row_count_bounds(row.subrange(0, x + 1));
            }
            if get_cell(g, x, y) {
                rc += 1;
            }
            x += 1;
        }
        proof {
            assert(row.subrange(0, s as int) =~= row);
            let pre = gv.subrange(0, y as int);
            let cur = gv.subrange(0, y + 1);
            assert(cur.drop_last() =~= pre);
            assert(cur.last() == gv[y as int]);
            lemma_grid_count_le(gv, s as int, y + 1);
            assert((s as int) * (s as int) <= 0x4000000) by (nonlinear_arith)
                requires s <= 8192;
        }
        total += rc;
        y += 1;
    }
    proof {
        assert(gv.subrange(0, s as int) =~= gv);
    }
    total
}

/// A point list naming marked in-bounds cells.
pub open spec fn in_wl(w: Seq<Point>, x: int, y: int) -> bool {
    exists|i: int| 0 <= i < w.len() && (#[trigger] w[i]).x == x && w[i].y == y
}

/// Worklist soundness: every listed cell is in bounds and marked.
pub open spec fn wl_ok(m: Seq<Seq<bool>>, w: Seq<Point>, s: int) -> bool {
    forall|i: int|
        0 <= i < w.len() ==> (#[trigger] w[i]).x < s && w[i].y < s && m[w[i].y as int][w[i].x as int]
}

/// Frontier: every marked cell that is off the worklist already has all
/// its passable neighbours marked.
pub open spec fn frontier_ok(
    pass: Seq<Seq<bool>>,
    s: int,
    diag: bool,
    m: Seq<Seq<bool>>,
    w: Seq<Point>,
) -> bool {
    forall|x1: int, y1: int, x2: int, y2: int|
        #![trigger m[y1][x1], adj(diag, x1, y1, x2, y2), pass[y2][x2]]
        in_grid(s, x1, y1) && in_grid(s, x2, y2) && m[y1][x1] && !in_wl(w, x1, y1) && adj(
            diag,
            x1,
            y1,
            x2,
            y2,
        ) && pass[y2][x2] ==> m[y2][x2]
}

/// Builds an all-false `s` by `s` grid.
pub fn make_false_grid(s: usize) -> (r: Vec<Vec<bool>>)
    ensures
        grid_wf(bgrid(r), s as int),
        forall|x: int, y: int| in_grid(s as int, x, y) ==> !(#[trigger] bgrid(r)[y][x]),
        grid_count(bgrid(r)) >= 0,
{
    let mut g: Vec<Vec<bool>> = Vec::new();
    let mut y: usize = 0;
    while y < s
        invariant
            0 <= y <= s,
            bgrid(g).len() == y,
            forall|yy: int| 0 <= yy < y ==> (#[trigger] bgrid(g)[yy]).len() == s,
            forall|x: int, yy: int|
                0 <= yy < y && 0 <= x < s ==> !(#[trigger] bgrid(g)[yy][x]),
        decreases s - y,
    {
        let mut row: Vec<bool> = Vec::new();
        let mut x: usize = 0;
        while x < s
            invariant
                0 <= x <= s,
                row@.len() == x,
                forall|xx: int| 0 <= xx < x ==> !(#[trigger] row@[xx]),
            decreases s - x,
        {
            row.push(false);
            x += 1;
        }
        let ghost g0 = bgrid(g);
        g.push(row);
        proof {
            assert(bgrid(g) =~= g0.push(row@));
            assert(forall|yy: int| 0 <= yy < y ==> bgrid(g)[yy] == g0[yy]);
        }
        y += 1;
    }
    proof {
        lemma_grid_count_bounds(bgrid(g), s as int);
    }
    g
}

/// Sets one cell of a grid.
pub fn set_cell(g: &mut Vec<Vec<bool>>, x: usize, y: usize, v: bool)
    requires
        (y as int) < bgrid(*old(g)).len(),
        (x as int) < bgrid(*old(g))[y as int].len(),
    ensures
        bgrid(*final(g)) == bgrid(*old(g)).update(
            y as int,
            bgrid(*old(g))[y as int].update(x as int, v),
        ),
{
    let row = vec_index_mut(g, y);
    let cell = vec_index_mut(row, x);
    *cell = v;
    proof {
        assert(bgrid(*g) =~= bgrid(*old(g)).update(
            y as int,
            bgrid(*old(g))[y as int].update(x as int, v),
        ));
    }
}

/// The neighbour offset table: the four axis steps first, then the four
/// diagonal steps.
pub open spec fn delta_of(dd: int) -> (int, int) {
    if dd == 0 {
        (1, 0)
    } else if dd == 1 {
        (-1, 0)
    } else if dd == 2 {
        (0, 1)
    } else if dd == 3 {
        (0, -1)
    } else if dd == 4 {
        (1, 1)
    } else if dd == 5 {
        (1, -1)
    } else if dd == 6 {
        (-1, 1)
    } else {
        (-1, -1)
    }
}

/// Visits one neighbour cell: marks it and queues it when it is passable
/// and not yet marked, preserving the fill invariant.
fn visit_cell(
    pass: &Vec<Vec<bool>>,
    s: usize,
    diag: bool,
    sx: usize,
    sy: usize,
    cx: usize,
    cy: usize,
    x2: usize,
    y2: usize,
    marked: &mut Vec<Vec<bool>>,
    wl: &mut Vec<Point>,
)
    requires
        grid_wf(bgrid(*pass), s as int),
        sx < s,
        sy < s,
        cx < s,
        cy < s,
        x2 < s,
        y2 < s,
        adj(diag, cx as int, cy as int, x2 as int, y2 as int),
        flood_inv(bgrid(*pass), s as int, diag, sx as int, sy as int, bgrid(*old(marked))),
        bgrid(*old(marked))[cy as int][cx as int],
        wl_ok(bgrid(*old(marked)), old(wl)@, s as int),
    ensures
        flood_inv(bgrid(*pass), s as int, diag, sx as int, sy as int, bgrid(*final(marked))),
        wl_ok(bgrid(*final(marked)), final(wl)@, s as int),
        bgrid(*final(marked))[cy as int][cx as int],
        bgrid(*pass)[y2 as int][x2 as int] ==> bgrid(*final(marked))[y2 as int][x2 as int],
        subset_grid(bgrid(*old(marked)), bgrid(*final(marked)), s as int),
        forall|i: int| 0 <= i < old(wl)@.len() ==> final(wl)@[i] == old(wl)@[i],
        final(wl)@.len() >= old(wl)@.len(),
        grid_count(bgrid(*final(marked))) - grid_count(bgrid(*old(marked))) == final(wl)@.len()
            - old(wl)@.len(),
        grid_count(bgrid(*final(marked))) >= grid_count(bgrid(*old(marked))),
        forall|x: int, y: int|
            in_grid(s as int, x, y) && !bgrid(*old(marked))[y][x] && (#[trigger] bgrid(
                *final(marked),
            )[y][x]) ==> in_wl(final(wl)@, x, y),
{
    let ghost p = bgrid(*pass);
    let ghost m0 = bgrid(*old(marked));
    if get_cell(pass, x2, y2) && !get_cell(marked, x2, y2) {
        set_cell(marked, x2, y2, true);
        wl.push(Point { x: x2, y: y2 });
        proof {
            let m1 = bgrid(*marked);
            assert(m1 == m0.update(y2 as int, m0[y2 as int].update(x2 as int, true)));
            lemma_grid_count_update(m0, s as int, x2 as int, y2 as int);
            assert(grid_wf(m1, s as int));
            assert(m1[sy as int][sx as int]);
            assert(m1[y2 as int][x2 as int]);
            assert forall|t: Seq<Seq<bool>>|
                grid_wf(t, s as int) && t[sy as int][sx as int] && #[trigger] flood_closed(
                    p,
                    t,
                    s as int,
                    diag,
                ) implies subset_grid(m1, t, s as int) by {
                assert(subset_grid(m0, t, s as int));
                assert(t[cy as int][cx as int]);
                assert(t[y2 as int][x2 as int]);
                assert forall|x: int, y: int|
                    in_grid(s as int, x, y) && (#[trigger] m1[y][x]) implies t[y][x] by {
                    if !(x == x2 as int && y == y2 as int) {
                        assert(m1[y][x] == m0[y][x]);
                    }
                }
            }
            assert forall|x: int, y: int|
                in_grid(s as int, x, y) && !m0[y][x] && (#[trigger] m1[y][x]) implies in_wl(
                wl@,
                x,
                y,
            ) by {
                assert(x == x2 as int && y == y2 as int);
                assert(wl@[wl@.len() - 1] == (Point { x: x2, y: y2 }));
            }
        }
    }
}

/// Flood fill: marks exactly the least set of passable cells containing
/// the seed that is closed under (4- or 8-) adjacency.
pub fn flood_fill(pass: &Vec<Vec<bool>>, s: usize, sx: usize, sy: usize, diag: bool) -> (m: Vec<
    Vec<bool>,
>)
    requires
        grid_wf(bgrid(*pass), s as int),
        1 <= s <= MAX_SIDE,
        sx < s,
        sy < s,
        bgrid(*pass)[sy as int][sx as int],
    ensures
        is_flood(bgrid(*pass), s as int, diag, sx as int, sy as int, bgrid(m)),
{
    let ghost p = bgrid(*pass);
    let mut marked = make_false_grid(s);
    proof {
        let m_blank = bgrid(marked);
        lemma_grid_count_update(m_blank, s as int, sx as int, sy as int);
    }
    set_cell(&mut marked, sx, sy, true);
    let mut wl: Vec<Point> = Vec::new();
    wl.push(Point { x: sx, y: sy });
    proof {
        let m1 = bgrid(marked);
        assert(m1[sy as int][sx as int]);
        assert forall|x: int, y: int|
            in_grid(s as int, x, y) && (#[trigger] m1[y][x]) implies p[y][x] by {
            assert(x == sx as int && y == sy as int);
        }
        assert forall|t: Seq<Seq<bool>>|
            grid_wf(t, s as int) && t[sy as int][sx as int] && #[trigger] flood_closed(
                p,
                t,
                s as int,
                diag,
            ) implies subset_grid(m1, t, s as int) by {
            assert forall|x: int, y: int|
                in_grid(s as int, x, y) && (#[trigger] m1[y][x]) implies t[y][x] by {
                assert(x == sx as int && y == sy as int);
            }
        }
        assert(wl@[0] == (Point { x: sx, y: sy }));
        lemma_grid_count_bounds(bgrid(marked), s as int);
    }
    while wl.len() > 0
        invariant
            grid_wf(p, s as int),
            1 <= s <= MAX_SIDE,
            sx < s,
            sy < s,
            p[sy as int][sx as int],
            bgrid(*pass) == p,
            flood_inv(p, s as int, diag, sx as int, sy as int, bgrid(marked)),
            wl_ok(bgrid(marked), wl@, s as int),
            frontier_ok(p, s as int, diag, bgrid(marked), wl@),
            grid_count(bgrid(marked)) <= (s as int) * (s as int),
        decreases (s as int) * (s as int) - grid_count(bgrid(marked)), wl@.len(),
    {
        let ghost wl_before = wl@;
        let ghost m_pop = bgrid(marked);
        let cur_opt = wl.pop();
        let cur = cur_opt.unwrap();
        let ghost wl_pop = wl@;
        proof {
            assert(cur == wl_before[wl_before.len() - 1]);
            assert(wl_pop =~= wl_before.drop_last());
        }
        let lim: usize = if diag {
            8
        } else {
            4
        };
        let mut d: usize = 0;
        while d < lim
            invariant
                grid_wf(p, s as int),
                1 <= s <= MAX_SIDE,
                sx < s,
                sy < s,
                bgrid(*pass) == p,
                cur.x < s,
                cur.y < s,
                lim == if diag { 8int } else { 4int },
                0 <= d <= lim,
                flood_inv(p, s as int, diag, sx as int, sy as int, bgrid(marked)),
                wl_ok(bgrid(marked), wl@, s as int),
                bgrid(marked)[cur.y as int][cur.x as int],
                subset_grid(m_pop, bgrid(marked), s as int),
                grid_wf(m_pop, s as int),
                forall|i: int| 0 <= i < wl_pop.len() ==> wl@[i] == wl_pop[i],
                wl@.len() >= wl_pop.len(),
                grid_count(bgrid(marked)) - grid_count(m_pop) == wl@.len() - wl_pop.len(),
                forall|x: int, y: int|
                    in_grid(s as int, x, y) && !m_pop[y][x] && (#[trigger] bgrid(marked)[y][x])
                        ==> in_wl(wl@, x, y),
                forall|dd: int|
                    0 <= dd < d ==> {
                        let (dx, dy) = #[trigger] delta_of(dd);
                        let nx = cur.x + dx;
                        let ny = cur.y + dy;
                        !(in_grid(s as int, nx, ny) && p[ny][nx]) || bgrid(marked)[ny][nx]
                    },
            decreases lim - d,
        {
            let (dx, dy): (i64, i64) = if d == 0 {
                (1, 0)
            } else if d == 1 {
                (-1, 0)
            } else if d == 2 {
                (0, 1)
            } else if d == 3 {
                (0, -1)
            } else if d == 4 {
                (1, 1)
            } else if d == 5 {
                (1, -1)
            } else if d == 6 {
                (-1, 1)
            } else {
                (-1, -1)
            };
            proof {
                assert((dx as int, dy as int) == delta_of(d as int));
            }
            let nxi: i64 = cur.x as i64 + dx;
            let nyi: i64 = cur.y as i64 + dy;
            if 0 <= nxi && nxi < s as i64 && 0 <= nyi && nyi < s as i64 {
                let nx = nxi as usize;
                let ny = nyi as usize;
                let ghost m_pre = bgrid(marked);
                proof {
                    assert(adj(diag, cur.x as int, cur.y as int, nx as int, ny as int));
                }
                visit_cell(pass, s, diag, sx, sy, cur.x, cur.y, nx, ny, &mut marked, &mut wl);
                proof {
                    assert forall|dd: int| 0 <= dd < d + 1 implies {
                        let (ddx, ddy) = #[trigger] delta_of(dd);
                        let ox = cur.x + ddx;
                        let oy = cur.y + ddy;
                        !(in_grid(s as int, ox, oy) && p[oy][ox]) || bgrid(marked)[oy][ox]
                    } by {
                        let (ddx, ddy) = delta_of(dd);
                        let ox = cur.x + ddx;
                        let oy = cur.y + ddy;
                        if dd < d {
                            if in_grid(s as int, ox, oy) && p[oy][ox] {
                                assert(m_pre[oy][ox]);
                                assert(bgrid(marked)[oy][ox]);
                            }
                        }
                    }
                }
            }
            d += 1;
        }
        proof {
            let m_now = bgrid(marked);
            let w_now = wl@;
            // Restore the frontier: the popped cell has all its passable
            // neighbours marked now; everything else is covered by the old
            // frontier or sits on the worklist.
            assert forall|x1: int, y1: int, x2: int, y2: int|
                in_grid(s as int, x1, y1) && in_grid(s as int, x2, y2) && #[trigger] m_now[y1][x1]
                    && !in_wl(w_now, x1, y1) && #[trigger] adj(diag, x1, y1, x2, y2)
                    && #[trigger] p[y2][x2] implies m_now[y2][x2] by {
                if x1 == cur.x as int && y1 == cur.y as int {
                    let ddx = x2 - x1;
                    let ddy = y2 - y1;
                    let dd: int = if ddx == 1 && ddy == 0 {
                        0
                    } else if ddx == -1 && ddy == 0 {
                        1
                    } else if ddx == 0 && ddy == 1 {
                        2
                    } else if ddx == 0 && ddy == -1 {
                        3
                    } else if ddx == 1 && ddy == 1 {
                        4
                    } else if ddx == 1 && ddy == -1 {
                        5
                    } else if ddx == -1 && ddy == 1 {
                        6
                    } else {
                        7
                    };
                    assert(0 <= dd < lim);
                    assert(delta_of(dd) == (ddx, ddy));
                    assert(m_now[y2][x2]);
                } else {
                    if m_pop[y1][x1] {
                        if in_wl(wl_before, x1, y1) {
                            let i = choose|i: int|
                                0 <= i < wl_before.len() && (#[trigger] wl_before[i]).x == x1
                                    && wl_before[i].y == y1;
                            assert(i < wl_before.len() - 1);
                            assert(wl_pop[i] == wl_before[i]);
                            assert(w_now[i] == wl_pop[i]);
                            assert(in_wl(w_now, x1, y1));
                        } else {
                            assert(m_pop[y2][x2]);
                        }
                    } else {
                        assert(in_wl(w_now, x1, y1));
                    }
                }
            }
            assert(frontier_ok(p, s as int, diag, m_now, w_now));
            lemma_grid_count_bounds(m_now, s as int);
        }
    }
    proof {
        let m_now = bgrid(marked);
        assert forall|x1: int, y1: int, x2: int, y2: int|
            in_grid(s as int, x1, y1) && in_grid(s as int, x2, y2) && #[trigger] m_now[y1][x1]
                && #[trigger] adj(diag, x1, y1, x2, y2) && #[trigger] p[y2][x2] implies m_now[y2][x2] by {
            assert(!in_wl(wl@, x1, y1));
        }
    }
    marked
}

/// Reads one cell of a grid.
pub fn get_cell(g: &Vec<Vec<bool>>, x: usize, y: usize) -> (r: bool)
    requires
        (y as int) < bgrid(*g).len(),
        (x as int) < bgrid(*g)[y as int].len(),
    ensures
        r == bgrid(*g)[y as int][x as int],
{
    g[y][x]
}

} // verus!
