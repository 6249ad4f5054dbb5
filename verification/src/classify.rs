//! Pixel classification: raw RGB buffer to material mask and bounding box.
//!
//! Every pixel is classified by brightness against a configurable
//! threshold (pieces may be darker or lighter than the background).  A
//! 4-connected flood fill from a known-background seed then marks the
//! reachable background; any unreached non-material pixel is an enclosed
//! hole and is forced back to material.  The result is the mask and the
//! bounding rectangle of material, padded by one pixel within the grid.

use vstd::prelude::*;
use crate::geom::{Point, BoundingRect, MAX_SIDE};
use crate::flood::{
    bgrid, grid_wf, in_grid, is_flood, flood_fill, lemma_flood_unique,
};
use crate::mask::{Mask, PixelClass, is_mat, cgrid, cgrid_wf, blank_mask};

verus! {

/// One RGB pixel.
#[derive(Clone, Copy, PartialEq, Eq, Structural, Debug)]
pub struct Rgb {
    pub r: u8,
    pub g: u8,
    pub b: u8,
}

/// A square RGB pixel buffer.
#[derive(Debug)]
pub struct RgbImage {
    pub s: usize,
    pub px: Vec<Vec<Rgb>>,
}

/// The mathematical view of the pixel rows.
pub open spec fn igrid(v: Vec<Vec<Rgb>>) -> Seq<Seq<Rgb>> {
    v@.map_values(|r: Vec<Rgb>| r@)
}

impl RgbImage {
    pub open spec fn wf(self) -> bool {
        &&& 1 <= self.s <= MAX_SIDE
        &&& igrid(self.px).len() == self.s
        &&& forall|y: int| 0 <= y < self.s ==> (#[trigger] igrid(self.px)[y]).len() == self.s
    }
}

/// Classification policy: the brightness threshold and whether the piece
/// is darker than the background (else lighter).
#[derive(Clone, Copy, PartialEq, Eq, Structural, Debug)]
pub struct ClassifyConfig {
    pub threshold: u32,
    pub darker: bool,
}

/// No material pixel was found in the buffer.
#[derive(Clone, Copy, PartialEq, Eq, Structural, Debug)]
pub struct SegmentationError {
    pub side: usize,
}

/// Brightness of a pixel: the plain channel sum.
pub open spec fn brightness(c: Rgb) -> int {
    c.r + c.g + c.b
}

/// Whether a pixel classifies as material under the policy.
pub open spec fn mat_at(img: Seq<Seq<Rgb>>, cfg: ClassifyConfig, x: int, y: int) -> bool {
    if cfg.darker {
        brightness(img[y][x]) < cfg.threshold
    } else {
        brightness(img[y][x]) > cfg.threshold
    }
}

/// The background cells (non-material), as the passable grid of the
/// background flood fill.
pub open spec fn bg_grid(img: Seq<Seq<Rgb>>, cfg: ClassifyConfig, s: int) -> Seq<Seq<bool>> {
    Seq::new(s as nat, |y: int| Seq::new(s as nat, |x: int| !mat_at(img, cfg, x, y)))
}

/// What classification computes: cell `(x, y)` is material exactly when
/// it classifies as material or the background flood from the seed never
/// reaches it (an enclosed hole); no cell is border yet.
pub open spec fn classify_rel(
    img: Seq<Seq<Rgb>>,
    cfg: ClassifyConfig,
    s: int,
    sx: int,
    sy: int,
    m: Seq<Seq<PixelClass>>,
) -> bool {
    exists|fl: Seq<Seq<bool>>|
        #[trigger] is_flood(bg_grid(img, cfg, s), s, false, sx, sy, fl) && cgrid_wf(m, s)
            && (forall|x: int, y: int|
            in_grid(s, x, y) ==> (#[trigger] m[y][x]) == if mat_at(img, cfg, x, y) || !fl[y][x] {
                PixelClass::Material
            } else {
                PixelClass::NoMaterial
            })
}

/// Classification is a function of the buffer, the policy and the seed:
/// two masks related to the same inputs are equal.
pub proof fn lemma_classify_deterministic(
    img: Seq<Seq<Rgb>>,
    cfg: ClassifyConfig,
    s: int,
    sx: int,
    sy: int,
    m1: Seq<Seq<PixelClass>>,
    m2: Seq<Seq<PixelClass>>,
)
    requires
        classify_rel(img, cfg, s, sx, sy, m1),
        classify_rel(img, cfg, s, sx, sy, m2),
    ensures
        m1 =~~= m2,
{
    let fl1 = choose|fl: Seq<Seq<bool>>|
        #[trigger] is_flood(bg_grid(img, cfg, s), s, false, sx, sy, fl) && cgrid_wf(m1, s) && (
        forall|x: int, y: int|
            in_grid(s, x, y) ==> (#[trigger] m1[y][x]) == if mat_at(img, cfg, x, y) || !fl[y][x] {
                PixelClass::Material
            } else {
                PixelClass::NoMaterial
            });
    let fl2 = choose|fl: Seq<Seq<bool>>|
        #[trigger] is_flood(bg_grid(img, cfg, s), s, false, sx, sy, fl) && cgrid_wf(m2, s) && (
        forall|x: int, y: int|
            in_grid(s, x, y) ==> (#[trigger] m2[y][x]) == if mat_at(img, cfg, x, y) || !fl[y][x] {
                PixelClass::Material
            } else {
                PixelClass::NoMaterial
            });
    lemma_flood_unique(bg_grid(img, cfg, s), s, false, sx, sy, fl1, fl2);
    assert forall|y: int| 0 <= y < s implies m1[y] =~= m2[y] by {
        assert forall|x: int| 0 <= x < s implies m1[y][x] == m2[y][x] by {
            assert(fl1[y][x] == fl2[y][x]);
        }
    }
    assert(m1 =~~= m2);
}

/// The column (or row) range of material in a mask, for the bounding
/// rectangle: `lo` is the first coordinate carrying material and `hi`
/// the last one.
pub open spec fn col_has_mat(m: Seq<Seq<PixelClass>>, s: int, x: int) -> bool {
    exists|y: int| 0 <= y < s && is_mat(#[trigger] m[y][x])
}

pub open spec fn row_has_mat(m: Seq<Seq<PixelClass>>, s: int, y: int) -> bool {
    exists|x: int| 0 <= x < s && is_mat(#[trigger] m[y][x])
}

/// The rectangle is the bounding box of the mask's material, expanded by
/// one pixel and clamped to the grid.
pub open spec fn rect_rel(m: Seq<Seq<PixelClass>>, s: int, rect: BoundingRect) -> bool {
    &&& exists|lo: int|
        #![trigger col_has_mat(m, s, lo)]
        0 <= lo < s && col_has_mat(m, s, lo) && (forall|x: int|
            0 <= x < lo ==> !col_has_mat(m, s, x)) && rect.min_x == if lo == 0 {
            0int
        } else {
            lo - 1
        }
    &&& exists|hi: int|
        #![trigger col_has_mat(m, s, hi)]
        0 <= hi < s && col_has_mat(m, s, hi) && (forall|x: int|
            hi < x < s ==> !col_has_mat(m, s, x)) && rect.max_x == if hi == s - 1 {
            s - 1
        } else {
            hi + 1
        }
    &&& exists|lo: int|
        #![trigger row_has_mat(m, s, lo)]
        0 <= lo < s && row_has_mat(m, s, lo) && (forall|y: int|
            0 <= y < lo ==> !row_has_mat(m, s, y)) && rect.min_y == if lo == 0 {
            0int
        } else {
            lo - 1
        }
    &&& exists|hi: int|
        #![trigger row_has_mat(m, s, hi)]
        0 <= hi < s && row_has_mat(m, s, hi) && (forall|y: int|
            hi < y < s ==> !row_has_mat(m, s, y)) && rect.max_y == if hi == s - 1 {
            s - 1
        } else {
            hi + 1
        }
}

/// Classifies every pixel of the buffer as material or background, closes
/// enclosed holes by a 4-connected background flood fill from the given
/// known-background seed, and returns the mask together with the
/// one-pixel-padded bounding rectangle of the material.  Fails exactly
/// when the buffer holds no material pixel at all.
pub fn classify(img: &RgbImage, cfg: ClassifyConfig, seed: Point) -> (r: Result<
    (Mask, BoundingRect),
    SegmentationError,
>)
    requires
        img.wf(),
        seed.x < img.s,
        seed.y < img.s,
        !mat_at(igrid(img.px), cfg, seed.x as int, seed.y as int),
    ensures
        match r {
            Ok((m, rect)) => {
                &&& m.wf()
                &&& m.s == img.s
                &&& classify_rel(
                    igrid(img.px),
                    cfg,
                    img.s as int,
                    seed.x as int,
                    seed.y as int,
                    cgrid(m.cells),
                )
                &&& forall|x: int, y: int|
                    in_grid(img.s as int, x, y) ==> !(#[trigger] m.jag_at(x, y))
                &&& rect_rel(cgrid(m.cells), img.s as int, rect)
                &&& rect.wf(img.s as int)
            },
            Err(e) => e.side == img.s && forall|x: int, y: int|
                in_grid(img.s as int, x, y) ==> !mat_at(igrid(img.px), cfg, x, y),
        },
        r is Ok <==> exists|x: int, y: int|
            in_grid(img.s as int, x, y) && mat_at(igrid(img.px), cfg, x, y),
{
    let s = img.s;
    let ghost iv = igrid(img.px);
    let ghost pg = bg_grid(iv, cfg, s as int);
    // Build the background (passable) grid and remember whether any
    // material pixel exists.
    let mut pass: Vec<Vec<bool>> = Vec::new();
    let mut any_mat = false;
    let mut y: usize = 0;
    while y < s
        invariant
            img.wf(),
            s == img.s,
            iv == igrid(img.px),
            pg == bg_grid(iv, cfg, s as int),
            0 <= y <= s,
            bgrid(pass).len() == y,
            forall|yy: int| 0 <= yy < y ==> (#[trigger] bgrid(pass)[yy]) == pg[yy],
            any_mat <==> exists|xx: int, yy: int|
                0 <= yy < y && 0 <= xx < s && mat_at(iv, cfg, xx, yy),
        decreases s - y,
    {
        let mut row: Vec<bool> = Vec::new();
        let mut x: usize = 0;
        while x < s
            invariant
                img.wf(),
                s == img.s,
                iv == igrid(img.px),
                y < s,
                0 <= x <= s,
                row@.len() == x,
                forall|xx: int| 0 <= xx < x ==> (#[trigger] row@[xx]) == !mat_at(iv, cfg, xx, y as int),
                any_mat <==> (exists|xx: int, yy: int|
                    0 <= yy < y && 0 <= xx < s && mat_at(iv, cfg, xx, yy)) || (exists|xx: int|
                    0 <= xx < x && mat_at(iv, cfg, xx, y as int)),
            decreases s - x,
        {
            proof {
                assert(img.px@.len() == igrid(img.px).len());
                assert(img.px@[y as int]@ == igrid(img.px)[y as int]);
            }
            let p = img.px[y][x];
            let bright: u32 = p.r as u32 + p.g as u32 + p.b as u32;
            let is_m = if cfg.darker {
                bright < cfg.threshold
            } else {
                bright > cfg.threshold
            };
            proof {
                assert(is_m == mat_at(iv, cfg, x as int, y as int));
            }
            row.push(!is_m);
            if is_m {
                any_mat = true;
            }
            x += 1;
        }
        let ghost p0 = bgrid(pass);
        pass.push(row);
        proof {
            assert(bgrid(pass) =~= p0.push(row@));
            assert(forall|yy: int| 0 <= yy < y ==> bgrid(pass)[yy] == p0[yy]);
            assert(bgrid(pass)[y as int] =~= pg[y as int]);
        }
        y += 1;
    }
    if !any_mat {
        return Err(SegmentationError { side: s });
    }
    proof {
        assert(grid_wf(bgrid(pass), s as int)) by {
            assert(forall|yy: int| 0 <= yy < s ==> (#[trigger] bgrid(pass)[yy]).len() == s);
        }
        assert(bgrid(pass) =~~= pg);
        assert(pg[seed.y as int][seed.x as int]);
    }
    let fl = flood_fill(&pass, s, seed.x, seed.y, false);
    let ghost flv = bgrid(fl);
    // Build the mask and track the material bounds.
    let mut m = blank_mask(s);
    proof {
        assert forall|x: int, y: int| in_grid(s as int, x, y) implies (#[trigger] cgrid(
            m.cells,
        )[y][x]) == PixelClass::NoMaterial by {
            assert(m.at(x, y) == PixelClass::NoMaterial);
        }
        assert forall|x: int, y: int| in_grid(s as int, x, y) implies !(#[trigger] bgrid(
            m.jag,
        )[y][x]) by {
            assert(!m.jag_at(x, y));
        }
    }
    let mut min_x: usize = s;
    let mut max_x: usize = 0;
    let mut min_y: usize = s;
    let mut max_y: usize = 0;
    let mut seen = false;
    let mut yy: usize = 0;
    while yy < s
        invariant
            img.wf(),
            s == img.s,
            iv == igrid(img.px),
            pg == bg_grid(iv, cfg, s as int),
            is_flood(pg, s as int, false, seed.x as int, seed.y as int, flv),
            flv == bgrid(fl),
            grid_wf(flv, s as int),
            m.wf(),
            m.s == s,
            0 <= yy <= s,
            forall|x: int, y: int|
                in_grid(s as int, x, y) ==> !(#[trigger] bgrid(m.jag)[y][x]),
            forall|x: int, y: int|
                0 <= y < yy && 0 <= x < s ==> (#[trigger] cgrid(m.cells)[y][x]) == if mat_at(
                    iv,
                    cfg,
                    x,
                    y,
                ) || !flv[y][x] {
                    PixelClass::Material
                } else {
                    PixelClass::NoMaterial
                },
            forall|x: int, y: int|
                yy <= y < s && 0 <= x < s ==> (#[trigger] cgrid(m.cells)[y][x])
                    == PixelClass::NoMaterial,
            seen <==> exists|x: int, y: int|
                0 <= y < yy && 0 <= x < s && is_mat(#[trigger] cgrid(m.cells)[y][x]),
            seen ==> min_x <= max_x < s && min_y <= max_y < yy,
            seen ==> col_has_mat(cgrid(m.cells), s as int, min_x as int) && col_has_mat(
                cgrid(m.cells),
                s as int,
                max_x as int,
            ) && row_has_mat(cgrid(m.cells), s as int, min_y as int) && row_has_mat(
                cgrid(m.cells),
                s as int,
                max_y as int,
            ),
            seen ==> forall|x: int, y: int|
                in_grid(s as int, x, y) && is_mat(#[trigger] cgrid(m.cells)[y][x]) ==> min_x <= x
                    <= max_x && min_y <= y <= max_y,
            !seen ==> min_x == s && max_x == 0 && min_y == s && max_y == 0,
        decreases s - yy,
    {
        let mut xx: usize = 0;
        while xx < s
            invariant
                img.wf(),
                s == img.s,
                iv == igrid(img.px),
                flv == bgrid(fl),
                grid_wf(flv, s as int),
                m.wf(),
                m.s == s,
                yy < s,
                0 <= xx <= s,
                forall|x: int, y: int|
                    in_grid(s as int, x, y) ==> !(#[trigger] bgrid(m.jag)[y][x]),
                forall|x: int, y: int|
                    0 <= y < yy && 0 <= x < s ==> (#[trigger] cgrid(m.cells)[y][x]) == if mat_at(
                        iv,
                        cfg,
                        x,
                        y,
                    ) || !flv[y][x] {
                        PixelClass::Material
                    } else {
                        PixelClass::NoMaterial
                    },
                forall|x: int|
                    0 <= x < xx ==> (#[trigger] cgrid(m.cells)[yy as int][x]) == if mat_at(
                        iv,
                        cfg,
                        x,
                        yy as int,
                    ) || !flv[yy as int][x] {
                        PixelClass::Material
                    } else {
                        PixelClass::NoMaterial
                    },
                forall|x: int|
                    xx <= x < s ==> (#[trigger] cgrid(m.cells)[yy as int][x])
                        == PixelClass::NoMaterial,
                forall|x: int, y: int|
                    yy < y < s && 0 <= x < s ==> (#[trigger] cgrid(m.cells)[y][x])
                        == PixelClass::NoMaterial,
                seen <==> exists|x: int, y: int|
                    ((0 <= y < yy && 0 <= x < s) || (y == yy && 0 <= x < xx)) && is_mat(
                        #[trigger] cgrid(m.cells)[y][x],
                    ),
                seen ==> min_x <= max_x < s && min_y <= max_y <= yy && max_y < s,
                seen ==> col_has_mat(cgrid(m.cells), s as int, min_x as int) && col_has_mat(
                    cgrid(m.cells),
                    s as int,
                    max_x as int,
                ) && row_has_mat(cgrid(m.cells), s as int, min_y as int) && row_has_mat(
                    cgrid(m.cells),
                    s as int,
                    max_y as int,
                ),
                seen ==> forall|x: int, y: int|
                    in_grid(s as int, x, y) && is_mat(#[trigger] cgrid(m.cells)[y][x]) ==> min_x
                        <= x <= max_x && min_y <= y <= max_y,
                !seen ==> min_x == s && max_x == 0 && min_y == s && max_y == 0,
            decreases s - xx,
        {
            proof {
                assert(img.px@.len() == igrid(img.px).len());
                assert(img.px@[yy as int]@ == igrid(img.px)[yy as int]);
            }
            let p = img.px[yy][xx];
            let bright: u32 = p.r as u32 + p.g as u32 + p.b as u32;
            let is_m = if cfg.darker {
                bright < cfg.threshold
            } else {
                bright > cfg.threshold
            };
            let reached = crate::flood::get_cell(&fl, xx, yy);
            proof {
                assert(is_m == mat_at(iv, cfg, xx as int, yy as int));
                assert(reached == flv[yy as int][xx as int]);
            }
            let ghost cg0 = cgrid(m.cells);
            let ghost seen0 = seen;
            let ghost mnx0 = min_x;
            let ghost mxx0 = max_x;
            let ghost mny0 = min_y;
            let ghost mxy0 = max_y;
            if is_m || !reached {
                let ghost jag0 = m.jag;
                m.set(xx, yy, PixelClass::Material);
                proof {
                    assert(m.jag == jag0);
                    assert(cgrid(m.cells) == cg0.update(
                        yy as int,
                        cg0[yy as int].update(xx as int, PixelClass::Material),
                    ));
                    assert(forall|x: int, y: int|
                        in_grid(s as int, x, y) && !(x == xx as int && y == yy as int)
                            ==> #[trigger] cgrid(m.cells)[y][x] == cg0[y][x]);
                    assert(cgrid(m.cells)[yy as int][xx as int] == PixelClass::Material);
                }
                if !seen {
                    min_x = xx;
                    max_x = xx;
                    min_y = yy;
                    max_y = yy;
                    seen = true;
                } else {
                    if xx < min_x {
                        min_x = xx;
                    }
                    if xx > max_x {
                        max_x = xx;
                    }
                    if yy < min_y {
                        min_y = yy;
                    }
                    if yy > max_y {
                        max_y = yy;
                    }
                }
                proof {
                    assert(col_has_mat(cgrid(m.cells), s as int, xx as int)) by {
                        assert(is_mat(cgrid(m.cells)[yy as int][xx as int]));
                    }
                    assert(row_has_mat(cgrid(m.cells), s as int, yy as int)) by {
                        assert(is_mat(cgrid(m.cells)[yy as int][xx as int]));
                    }
                    if seen0 {
                        if min_x != xx {
                            let wy = choose|y: int|
                                0 <= y < s && is_mat(#[trigger] cg0[y][mnx0 as int]);
                            assert(is_mat(cgrid(m.cells)[wy][mnx0 as int]));
                            assert(col_has_mat(cgrid(m.cells), s as int, min_x as int));
                        }
                        if max_x != xx {
                            let wy = choose|y: int|
                                0 <= y < s && is_mat(#[trigger] cg0[y][mxx0 as int]);
                            assert(is_mat(cgrid(m.cells)[wy][mxx0 as int]));
                            assert(col_has_mat(cgrid(m.cells), s as int, max_x as int));
                        }
                        if min_y != yy {
                            let wx = choose|x: int|
                                0 <= x < s && is_mat(#[trigger] cg0[mny0 as int][x]);
                            assert(is_mat(cgrid(m.cells)[mny0 as int][wx]));
                            assert(row_has_mat(cgrid(m.cells), s as int, min_y as int));
                        }
                        if max_y != yy {
                            let wx = choose|x: int|
                                0 <= x < s && is_mat(#[trigger] cg0[mxy0 as int][x]);
                            assert(is_mat(cgrid(m.cells)[mxy0 as int][wx]));
                            assert(row_has_mat(cgrid(m.cells), s as int, max_y as int));
                        }
                    }
                    assert forall|x: int, y: int|
                        in_grid(s as int, x, y) && is_mat(#[trigger] cgrid(m.cells)[y][x])
                        implies min_x <= x <= max_x && min_y <= y <= max_y by {
                        if !(x == xx as int && y == yy as int) {
                            assert(cgrid(m.cells)[y][x] == cg0[y][x]);
                        }
                    }
                    assert(seen <==> exists|x: int, y: int|
                        ((0 <= y < yy && 0 <= x < s) || (y == yy && 0 <= x < xx + 1)) && is_mat(
                            #[trigger] cgrid(m.cells)[y][x],
                        )) by {
                        assert(is_mat(cgrid(m.cells)[yy as int][xx as int]));
                    }
                }
            } else {
                proof {
                    assert(cgrid(m.cells)[yy as int][xx as int] == PixelClass::NoMaterial);
                }
            }
            xx += 1;
        }
        yy += 1;
    }
    proof {
        // Some initially material pixel exists, and every such pixel stays
        // material, so the scan saw material.
        let (wx, wy) = choose|xx: int, yy: int|
            0 <= yy < s && 0 <= xx < s && mat_at(iv, cfg, xx, yy);
        assert(is_mat(cgrid(m.cells)[wy][wx]));
        assert(seen);
    }
    let rect = BoundingRect {
        min_x: if min_x == 0 {
            0
        } else {
            min_x - 1
        },
        min_y: if min_y == 0 {
            0
        } else {
            min_y - 1
        },
        max_x: if max_x == s - 1 {
            s - 1
        } else {
            max_x + 1
        },
        max_y: if max_y == s - 1 {
            s - 1
        } else {
            max_y + 1
        },
    };
    proof {
        assert forall|x: int| 0 <= x < min_x implies !col_has_mat(cgrid(m.cells), s as int, x) by {
            if col_has_mat(cgrid(m.cells), s as int, x) {
                let wy = choose|y: int| 0 <= y < s && is_mat(#[trigger] cgrid(m.cells)[y][x]);
            }
        }
        assert forall|x: int| max_x < x < s implies !col_has_mat(cgrid(m.cells), s as int, x) by {
            if col_has_mat(cgrid(m.cells), s as int, x) {
                let wy = choose|y: int| 0 <= y < s && is_mat(#[trigger] cgrid(m.cells)[y][x]);
            }
        }
        assert forall|y: int| 0 <= y < min_y implies !row_has_mat(cgrid(m.cells), s as int, y) by {
            if row_has_mat(cgrid(m.cells), s as int, y) {
                let wx = choose|x: int| 0 <= x < s && is_mat(#[trigger] cgrid(m.cells)[y][x]);
            }
        }
        assert forall|y: int| max_y < y < s implies !row_has_mat(cgrid(m.cells), s as int, y) by {
            if row_has_mat(cgrid(m.cells), s as int, y) {
                let wx = choose|x: int| 0 <= x < s && is_mat(#[trigger] cgrid(m.cells)[y][x]);
            }
        }
        assert(rect_rel(cgrid(m.cells), s as int, rect));
        assert(classify_rel(iv, cfg, s as int, seed.x as int, seed.y as int, cgrid(m.cells))) by {
            assert(is_flood(bg_grid(iv, cfg, s as int), s as int, false, seed.x as int,
                seed.y as int, flv) && cgrid_wf(cgrid(m.cells), s as int) && (forall|x: int, y: int|
                in_grid(s as int, x, y) ==> (#[trigger] cgrid(m.cells)[y][x]) == if mat_at(
                    iv,
                    cfg,
                    x,
                    y,
                ) || !flv[y][x] {
                    PixelClass::Material
                } else {
                    PixelClass::NoMaterial
                }));
        }
        assert forall|x: int, y: int| in_grid(s as int, x, y) implies !(#[trigger] m.jag_at(
            x,
            y,
        )) by {
            assert(!bgrid(m.jag)[y][x]);
        }
    }
    Ok((m, rect))
}

} // verus!
