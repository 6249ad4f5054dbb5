//! Classified pixel grids: the per-trial working mask.
//!
//! Every cell is no-material, material, or border (border cells are
//! material).  A separate boolean grid carries the jag flags, which mark
//! boundary stretches too thin to trust for corner search.

use vstd::prelude::*;
use crate::geom::MAX_SIDE;
use crate::flood::{grid_wf, bgrid, in_grid, grid_count};

verus! {

/// The classification of one pixel.
#[derive(Clone, Copy, PartialEq, Eq, Structural, Debug)]
pub enum PixelClass {
    NoMaterial,
    Material,
    Border,
}

/// Border and plain material cells both count as material.
pub open spec fn is_mat(c: PixelClass) -> bool {
    c != PixelClass::NoMaterial
}

/// An `s` by `s` grid of pixel classes.
pub open spec fn cgrid_wf(g: Seq<Seq<PixelClass>>, s: int) -> bool {
    g.len() == s && forall|y: int| 0 <= y < s ==> (#[trigger] g[y]).len() == s
}

/// The mathematical view of a vector-of-rows class grid.
pub open spec fn cgrid(v: Vec<Vec<PixelClass>>) -> Seq<Seq<PixelClass>> {
    v@.map_values(|r: Vec<PixelClass>| r@)
}

/// The material cells of a class grid, as a boolean grid.
pub open spec fn mat_grid(g: Seq<Seq<PixelClass>>, s: int) -> Seq<Seq<bool>> {
    Seq::new(s as nat, |y: int| Seq::new(s as nat, |x: int| is_mat(g[y][x])))
}

/// The border cells of a class grid, as a boolean grid.
pub open spec fn border_grid(g: Seq<Seq<PixelClass>>, s: int) -> Seq<Seq<bool>> {
    Seq::new(s as nat, |y: int| Seq::new(s as nat, |x: int| g[y][x] == PixelClass::Border))
}

/// Number of material cells.
pub open spec fn mat_count(g: Seq<Seq<PixelClass>>, s: int) -> int {
    grid_count(mat_grid(g, s))
}

/// The working mask: classified cells plus jag flags.
#[derive(Debug)]
pub struct Mask {
    pub s: usize,
    pub cells: Vec<Vec<PixelClass>>,
    pub jag: Vec<Vec<bool>>,
}

impl Mask {
    /// Well-formedness: square grids of the stated side.
    pub open spec fn wf(self) -> bool {
        &&& 1 <= self.s <= MAX_SIDE
        &&& cgrid_wf(cgrid(self.cells), self.s as int)
        &&& grid_wf(bgrid(self.jag), self.s as int)
    }

    /// The class of the cell at `(x, y)`.
    pub open spec fn at(self, x: int, y: int) -> PixelClass {
        cgrid(self.cells)[y][x]
    }

    /// Whether the cell at `(x, y)` carries the jag flag.
    pub open spec fn jag_at(self, x: int, y: int) -> bool {
        bgrid(self.jag)[y][x]
    }

    /// Reads one cell.
    pub fn get(&self, x: usize, y: usize) -> (r: PixelClass)
        requires
            self.wf(),
            x < self.s,
            y < self.s,
        ensures
            r == self.at(x as int, y as int),
    {
        proof {
            assert(self.cells@.len() == cgrid(self.cells).len());
            assert(self.cells@[y as int]@ == cgrid(self.cells)[y as int]);
        }
        self.cells[y][x]
    }

    /// Reads one jag flag.
    pub fn get_jag(&self, x: usize, y: usize) -> (r: bool)
        requires
            self.wf(),
            x < self.s,
            y < self.s,
        ensures
            r == self.jag_at(x as int, y as int),
    {
        proof {
            assert(self.jag@.len() == bgrid(self.jag).len());
            assert(self.jag@[y as int]@ == bgrid(self.jag)[y as int]);
        }
        self.jag[y][x]
    }

    /// Writes one cell.
    pub fn set(&mut self, x: usize, y: usize, c: PixelClass)
        requires
            old(self).wf(),
            x < old(self).s,
            y < old(self).s,
        ensures
            final(self).wf(),
            final(self).s == old(self).s,
            final(self).jag == old(self).jag,
            cgrid(final(self).cells) == cgrid(old(self).cells).update(
                y as int,
                cgrid(old(self).cells)[y as int].update(x as int, c),
            ),
    {
        proof {
            assert(self.cells@.len() == cgrid(self.cells).len());
            assert(self.cells@[y as int]@ == cgrid(self.cells)[y as int]);
        }
        let row = vstd::std_specs::vec::vec_index_mut(&mut self.cells, y);
        let cell = vstd::std_specs::vec::vec_index_mut(row, x);
        *cell = c;
        proof {
            assert(cgrid(self.cells) =~= cgrid(old(self).cells).update(
                y as int,
                cgrid(old(self).cells)[y as int].update(x as int, c),
            ));
        }
    }

    /// Counts the material cells.
    pub fn count_material(&self) -> (r: usize)
        requires
            self.wf(),
        ensures
            r == mat_count(cgrid(self.cells), self.s as int),
    {
        let s = self.s;
        let ghost mg = mat_grid(cgrid(self.cells), s as int);
        let mut total: usize = 0;
        let mut y: usize = 0;
        proof {
            assert(mg.subrange(0, 0) =~= Seq::<Seq<bool>>::empty());
            crate::flood::lemma_grid_count_bounds(mg, s as int);
        }
        while y < s
            invariant
                self.wf(),
                s == self.s,
                mg == mat_grid(cgrid(self.cells), s as int),
                0 <= y <= s,
                total == grid_count(mg.subrange(0, y as int)),
                total <= (s as int) * (s as int),
            decreases s - y,
        {
            let ghost row = mg[y as int];
            let mut rc: usize = 0;
            let mut x: usize = 0;
            proof {
                assert(row.subrange(0, 0) =~= Seq::<bool>::empty());
                crate::flood::lemma_row_count_bounds(row);
            }
            while x < s
                invariant
                    self.wf(),
                    s == self.s,
                    y < s,
                    row == mat_grid(cgrid(self.cells), s as int)[y as int],
                    0 <= x <= s,
                    rc == crate::flood::row_count(row.subrange(0, x as int)),
                    rc <= s,
                decreases s - x,
            {
                proof {
                    let pre = row.subrange(0, x as int);
                    let cur = row.subrange(0, x + 1);
                    assert(cur.drop_last() =~= pre);
                    assert(cur.last() == row[x as int]);
                    crate::flood::lemma_row_count_bounds(row.subrange(0, x + 1));
                }
                let c = self.cells[y][x];
                if !matches!(c, PixelClass::NoMaterial) {
                    proof {
                        assert(row[x as int] == is_mat(cgrid(self.cells)[y as int][x as int]));
                    }
                    rc += 1;
                } else {
                    proof {
                        assert(row[x as int] == is_mat(cgrid(self.cells)[y as int][x as int]));
                    }
                }
                x += 1;
            }
            proof {
                assert(row.subrange(0, s as int) =~= row);
                let pre = mg.subrange(0, y as int);
                let cur = mg.subrange(0, y + 1);
                assert(cur.drop_last() =~= pre);
                assert(cur.last() == mg[y as int]);
                crate::flood::lemma_grid_count_bounds(mg, s as int);
                lemma_grid_count_prefix_le(mg, s as int, y + 1);
            }
            proof {
                assert(total + rc == grid_count(mg.subrange(0, y + 1)));
                assert((s as int) * (s as int) <= 0x4000000) by (nonlinear_arith)
                    requires s <= 8192;
            }
            total += rc;
            y += 1;
        }
        proof {
            assert(mg.subrange(0, s as int) =~= mg);
        }
        total
    }
}

/// Counting a prefix of a well-formed grid never exceeds the full count
/// bound.
proof fn lemma_grid_count_prefix_le(g: Seq<Seq<bool>>, s: int, n: int)
    requires
        grid_wf(g, s),
        0 <= n <= s,
    ensures
        grid_count(g.subrange(0, n)) <= s * s,
    decreases n,
{
    lemma_prefix_count(g, s, n);
    assert(n * s <= s * s) by (nonlinear_arith)
        requires 0 <= n <= s;
}

proof fn lemma_prefix_count(g: Seq<Seq<bool>>, s: int, n: int)
    requires
        grid_wf(g, s),
        0 <= n <= s,
    ensures
        0 <= grid_count(g.subrange(0, n)) <= n * s,
    decreases n,
{
    if n == 0 {
        assert(g.subrange(0, 0) =~= Seq::<Seq<bool>>::empty());
        assert(0 * s == 0) by (nonlinear_arith);
    } else {
        lemma_prefix_count(g, s, n - 1);
        let pre = g.subrange(0, n - 1);
        let cur = g.subrange(0, n);
        assert(cur.drop_last() =~= pre);
        assert(cur.last() == g[n - 1]);
        crate::flood::lemma_row_count_bounds(g[n - 1]);
        assert((n - 1) * s + s == n * s) by (nonlinear_arith);
    }
}

/// Builds an all-no-material mask of side `s`.
pub fn blank_mask(s: usize) -> (r: Mask)
    requires
        1 <= s <= MAX_SIDE,
    ensures
        r.wf(),
        r.s == s,
        forall|x: int, y: int| in_grid(s as int, x, y) ==> r.at(x, y) == PixelClass::NoMaterial,
        forall|x: int, y: int| in_grid(s as int, x, y) ==> !(#[trigger] r.jag_at(x, y)),
{
    let mut cells: Vec<Vec<PixelClass>> = Vec::new();
    let mut y: usize = 0;
    while y < s
        invariant
            0 <= y <= s,
            cgrid(cells).len() == y,
            forall|yy: int| 0 <= yy < y ==> (#[trigger] cgrid(cells)[yy]).len() == s,
            forall|x: int, yy: int|
                0 <= yy < y && 0 <= x < s ==> (#[trigger] cgrid(cells)[yy][x])
                    == PixelClass::NoMaterial,
        decreases s - y,
    {
        let mut row: Vec<PixelClass> = Vec::new();
        let mut x: usize = 0;
        while x < s
            invariant
                0 <= x <= s,
                row@.len() == x,
                forall|xx: int| 0 <= xx < x ==> (#[trigger] row@[xx]) == PixelClass::NoMaterial,
            decreases s - x,
        {
            row.push(PixelClass::NoMaterial);
            x += 1;
        }
        let ghost c0 = cgrid(cells);
        cells.push(row);
        proof {
            assert(cgrid(cells) =~= c0.push(row@));
            assert(forall|yy: int| 0 <= yy < y ==> cgrid(cells)[yy] == c0[yy]);
        }
        y += 1;
    }
    let jag = crate::flood::make_false_grid(s);
    Mask { s, cells, jag }
}

} // verus!
