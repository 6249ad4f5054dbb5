//! Rotation alignment: the per-angle trial pipeline and the adaptive
//! sweep that finds the best-aligned angle for each side.
//!
//! A rendering collaborator outside the library draws the piece at a
//! candidate angle into a fresh buffer; the library then runs
//! segmentation, isolation, boundary tracing and corner location on that
//! buffer and scores the angle by the corner delta `|top.x - bottom.x|`,
//! which is zero when the side is perfectly horizontal.  The sweep state
//! machine proposes angles `90 * side + delta` (in tenths of a degree),
//! walking the bounded range with a step that is coarse while the corner
//! delta is large and finer as it shrinks, and stops early on an exact
//! zero.

use vstd::prelude::*;
use crate::geom::{Point, BoundingRect, MAX_SIDE};
use crate::flood::{bgrid, in_grid, iabs};
use crate::mask::{Mask, PixelClass, is_mat, cgrid};
use crate::classify::{
    Rgb, RgbImage, ClassifyConfig, igrid, mat_at, classify_rel, rect_rel, classify,
};
use crate::isolate::{isolate_rel, isolate_piece};
use crate::trace::{
    marked_class, prune_spec, jag_at_spec, JagConfig, mark_borders, prune_dead_ends, mark_jags,
};
use crate::corner::{nearest_rel, corner_cand, find_corners};

verus! {

/// The grid after border marking, as a whole.
pub open spec fn mark_spec(m: Seq<Seq<PixelClass>>, s: int) -> Seq<Seq<PixelClass>> {
    Seq::new(s as nat, |y: int| Seq::new(s as nat, |x: int| marked_class(m, s, x, y)))
}

/// One rotation trial's product: the traced mask, the material bounds,
/// the two located corners and the alignment score.
#[derive(Debug)]
pub struct TrialResult {
    pub mask: Mask,
    pub rect: BoundingRect,
    pub top: Point,
    pub bottom: Point,
    pub corner_delta: u64,
}

/// Why a trial failed: no material in the buffer, or no usable boundary
/// pixel after pruning.  Both end the current trial only.
#[derive(Clone, Copy, PartialEq, Eq, Structural, Debug)]
pub enum TrialError {
    NoMaterial,
    NoBorder,
}

/// The mask and rectangle a trial's segmentation stages compute, with
/// the intermediate masks named: classification `m1`, isolation `m2`,
/// then border marking, pruning and jag flags into the final mask.
pub open spec fn pipeline_body(
    iv: Seq<Seq<Rgb>>,
    s: int,
    ccfg: ClassifyConfig,
    jcfg: JagConfig,
    seed: Point,
    m1: Seq<Seq<PixelClass>>,
    m2: Seq<Seq<PixelClass>>,
    rect: BoundingRect,
    mask: Mask,
) -> bool {
    &&& classify_rel(iv, ccfg, s, seed.x as int, seed.y as int, m1)
    &&& rect_rel(m1, s, rect)
    &&& rect.wf(s)
    &&& isolate_rel(m1, s, m2)
    &&& mask.wf()
    &&& mask.s == s
    &&& cgrid(mask.cells) == prune_spec(mark_spec(m2, s), s)
    &&& forall|x: int, y: int|
        in_grid(s, x, y) ==> (#[trigger] bgrid(mask.jag)[y][x]) == jag_at_spec(
            cgrid(mask.cells),
            s,
            jcfg.probe as int,
            jcfg.width as int,
            x,
            y,
        )
}

/// The segmentation stages relate the input buffer to the traced mask.
pub open spec fn pipeline_rel(
    iv: Seq<Seq<Rgb>>,
    s: int,
    ccfg: ClassifyConfig,
    jcfg: JagConfig,
    seed: Point,
    rect: BoundingRect,
    mask: Mask,
) -> bool {
    exists|m1: Seq<Seq<PixelClass>>, m2: Seq<Seq<PixelClass>>|
        #[trigger] pipeline_body(iv, s, ccfg, jcfg, seed, m1, m2, rect, mask)
}

/// Runs one rotation trial: classification, isolation, border marking,
/// dead-end pruning, jag flagging and corner location on one rendered
/// buffer, returning the traced mask, bounds, corners and the corner
/// delta `|top.x - bottom.x|`.
pub fn evaluate_trial(img: &RgbImage, ccfg: ClassifyConfig, jcfg: JagConfig, seed: Point) -> (r:
    Result<TrialResult, TrialError>)
    requires
        img.wf(),
        seed.x < img.s,
        seed.y < img.s,
        !mat_at(igrid(img.px), ccfg, seed.x as int, seed.y as int),
        1 <= jcfg.probe <= MAX_SIDE,
    ensures
        match r {
            Ok(t) => {
                &&& pipeline_rel(igrid(img.px), img.s as int, ccfg, jcfg, seed, t.rect, t.mask)
                &&& t.mask.wf()
                &&& t.mask.s == img.s
                &&& nearest_rel(t.mask, Point { x: 0, y: 0 }, t.top)
                &&& nearest_rel(t.mask, Point { x: 0, y: img.s }, t.bottom)
                &&& t.corner_delta == iabs(t.top.x - t.bottom.x)
            },
            Err(e) => match e {
                TrialError::NoMaterial => forall|x: int, y: int|
                    in_grid(img.s as int, x, y) ==> !mat_at(igrid(img.px), ccfg, x, y),
                TrialError::NoBorder => exists|rect2: BoundingRect, mask2: Mask|
                    #[trigger] pipeline_rel(
                        igrid(img.px),
                        img.s as int,
                        ccfg,
                        jcfg,
                        seed,
                        rect2,
                        mask2,
                    ) && forall|x: int, y: int|
                        in_grid(img.s as int, x, y) ==> !corner_cand(mask2, x, y),
            },
        },
{
    let s = img.s;
    let ghost iv = igrid(img.px);
    let (mut mask, rect) = match classify(img, ccfg, seed) {
        Err(_) => {
            return Err(TrialError::NoMaterial);
        },
        Ok(p) => p,
    };
    let ghost m1 = cgrid(mask.cells);
    proof {
        // Some pixel classifies as material, and such a pixel is
        // material in the classified mask.
        let (wx, wy) = choose|x: int, y: int|
            in_grid(s as int, x, y) && mat_at(iv, ccfg, x, y);
        assert(is_mat(m1[wy][wx]));
    }
    isolate_piece(&mut mask);
    let ghost m2 = cgrid(mask.cells);
    mark_borders(&mut mask);
    proof {
        assert(cgrid(mask.cells) =~~= mark_spec(m2, s as int)) by {
            assert forall|y: int| 0 <= y < s implies cgrid(mask.cells)[y] =~= mark_spec(
                m2,
                s as int,
            )[y] by {
                assert forall|x: int| 0 <= x < s implies cgrid(mask.cells)[y][x] == mark_spec(
                    m2,
                    s as int,
                )[y][x] by {
                    assert(cgrid(mask.cells)[y][x] == marked_class(m2, s as int, x, y));
                }
            }
        }
    }
    prune_dead_ends(&mut mask);
    mark_jags(&mut mask, jcfg);
    let ghost final_mask = mask;
    proof {
        assert(pipeline_body(iv, s as int, ccfg, jcfg, seed, m1, m2, rect, final_mask));
        assert(pipeline_rel(iv, s as int, ccfg, jcfg, seed, rect, final_mask));
    }
    let (top, bottom) = match find_corners(&mask) {
        Err(_) => {
            proof {
                assert(pipeline_rel(iv, s as int, ccfg, jcfg, seed, rect, final_mask) && forall|
                    x: int,
                    y: int,
                |
                    in_grid(s as int, x, y) ==> !corner_cand(final_mask, x, y));
            }
            return Err(TrialError::NoBorder);
        },
        Ok(p) => p,
    };
    let delta: u64 = if top.x >= bottom.x {
        (top.x - bottom.x) as u64
    } else {
        (bottom.x - top.x) as u64
    };
    Ok(TrialResult { mask, rect, top, bottom, corner_delta: delta })
}

/// The adaptive step: coarse while the corner delta is large, finer as
/// it shrinks (tenths of a degree).
pub open spec fn step_for(delta: u64) -> int {
    if delta >= 16 {
        8
    } else if delta >= 4 {
        2
    } else {
        1
    }
}

/// The least corner delta among the recorded trials (`u64::MAX` before
/// any trial).
pub open spec fn min_delta(log: Seq<(i64, u64)>) -> u64
    decreases log.len(),
{
    if log.len() == 0 {
        0xffffffffffffffff
    } else {
        let rest = min_delta(log.drop_last());
        if log.last().1 < rest {
            log.last().1
        } else {
            rest
        }
    }
}

/// The rotation sweep for one side: proposes angles `900 * side + cur`
/// (tenths of a degree), records each trial's corner delta, tracks the
/// best, and stops at an exact zero or when the range is exhausted.
pub struct RotationSweep {
    pub side: u64,
    pub cur: i64,
    pub range: i64,
    pub best_delta: u64,
    pub best_angle: i64,
    pub done: bool,
    pub log: Ghost<Seq<(i64, u64)>>,
}

impl RotationSweep {
    /// Well-formedness: the best delta is the minimum of the log and was
    /// recorded with its angle; the cursor stays within one step past
    /// the range.
    pub open spec fn wf(self) -> bool {
        &&& self.side < 4
        &&& 0 <= self.range <= 1800
        &&& -self.range <= self.cur <= self.range + 8
        &&& !self.done ==> self.cur <= self.range
        &&& self.best_delta == min_delta(self.log@)
        &&& self.log@.len() > 0 ==> exists|i: int|
            0 <= i < self.log@.len() && #[trigger] self.log@[i] == (self.best_angle, self.best_delta)
        &&& self.done ==> self.best_delta == 0 || self.cur > self.range
    }

    /// Starts a sweep of `side` over `[-range, range]` tenths of a
    /// degree around the side's base angle.
    pub fn new(side: u64, range: i64) -> (r: RotationSweep)
        requires
            side < 4,
            0 <= range <= 1800,
        ensures
            r.wf(),
            r.side == side,
            r.range == range,
            r.cur == -range,
            !r.done,
            r.log@.len() == 0,
    {
        RotationSweep {
            side,
            cur: -range,
            range,
            best_delta: 0xffffffffffffffff,
            best_angle: 0,
            done: false,
            log: Ghost(Seq::empty()),
        }
    }

    /// The angle the next trial should render at.
    pub fn current_angle(&self) -> (r: i64)
        requires
            self.wf(),
            !self.done,
        ensures
            r == 900 * self.side + self.cur,
    {
        900 * (self.side as i64) + self.cur
    }

    /// Records one trial's corner delta at the current angle: updates
    /// the running minimum (first minimal angle wins ties), advances the
    /// cursor by the adaptive step, and stops on an exact zero or an
    /// exhausted range.
    pub fn record_trial(&mut self, delta: u64)
        requires
            old(self).wf(),
            !old(self).done,
        ensures
            final(self).wf(),
            final(self).side == old(self).side,
            final(self).range == old(self).range,
            final(self).log@ == old(self).log@.push(
                ((900 * old(self).side + old(self).cur) as i64, delta),
            ),
            final(self).best_delta == if delta < old(self).best_delta {
                delta
            } else {
                old(self).best_delta
            },
            final(self).best_angle == if delta < old(self).best_delta || old(self).best_delta
                == 0xffffffffffffffff {
                (900 * old(self).side + old(self).cur) as i64
            } else {
                old(self).best_angle
            },
            final(self).cur == old(self).cur + step_for(delta),
            final(self).done == (final(self).best_delta == 0 || final(self).cur
                > old(self).range),
    {
        let angle = self.current_angle();
        proof {
            let l2 = self.log@.push((angle, delta));
            assert(l2.drop_last() =~= self.log@);
            assert(l2.last() == (angle, delta));
        }
        let ghost old_log = self.log@;
        let ghost old_best = self.best_delta;
        self.log = Ghost(self.log@.push((angle, delta)));
        if delta < self.best_delta || self.best_delta == 0xffffffffffffffff {
            self.best_delta = if delta < self.best_delta {
                delta
            } else {
                self.best_delta
            };
            self.best_angle = angle;
        }
        proof {
            assert(forall|i: int| 0 <= i < old_log.len() ==> self.log@[i] == old_log[i]);
            assert(self.log@[self.log@.len() - 1] == (angle, delta));
            if !(delta < old_best || old_best == 0xffffffffffffffff) {
                assert(old_log.len() > 0);
                let i = choose|i: int|
                    0 <= i < old_log.len() && #[trigger] old_log[i] == (
                        self.best_angle,
                        self.best_delta,
                    );
                assert(self.log@[i] == (self.best_angle, self.best_delta));
            } else {
                if old_best == 0xffffffffffffffff && !(delta < old_best) {
                    assert(self.log@[self.log@.len() - 1] == (self.best_angle, self.best_delta));
                }
            }
        }
        let step: i64 = if delta >= 16 {
            8
        } else if delta >= 4 {
            2
        } else {
            1
        };
        self.cur = self.cur + step;
        if self.best_delta == 0 || self.cur > self.range {
            self.done = true;
        }
    }
}

} // verus!
