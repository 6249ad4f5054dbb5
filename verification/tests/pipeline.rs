//! Segmentation pipeline behaviour on constructed pixel buffers:
//! classification with hole closing, isolation, boundary tracing with
//! dead-end pruning and jag flags, corner location, edge splitting, and
//! the rotation sweep.

use puzzle_edges::classify::{classify, ClassifyConfig, Rgb, RgbImage};
use puzzle_edges::corner::{find_corners, nearest_border};
use puzzle_edges::geom::Point;
use puzzle_edges::isolate::isolate_piece;
use puzzle_edges::mask::{blank_mask, Mask, PixelClass};
use puzzle_edges::rotate::{evaluate_trial, RotationSweep, TrialError};
use puzzle_edges::split::{clear_near_corners, extract_arc, SplitConfig};
use puzzle_edges::trace::{mark_borders, mark_jags, prune_dead_ends, JagConfig};

const WHITE: Rgb = Rgb { r: 255, g: 255, b: 255 };
const BLACK: Rgb = Rgb { r: 0, g: 0, b: 0 };

fn cfg() -> ClassifyConfig {
    // Pieces are darker than the background in this capture setup.
    ClassifyConfig { threshold: 100, darker: true }
}

fn image_with(s: usize, dark: &[(usize, usize)]) -> RgbImage {
    let mut px = vec![vec![WHITE; s]; s];
    for &(x, y) in dark {
        px[y][x] = BLACK;
    }
    RgbImage { s, px }
}

/// A solid 10 by 10 square on a 30 by 30 canvas.
fn square_image() -> RgbImage {
    let mut dark = Vec::new();
    for y in 10..20 {
        for x in 10..20 {
            dark.push((x, y));
        }
    }
    image_with(30, &dark)
}

fn traced_square_mask() -> Mask {
    let img = square_image();
    let (mut mask, _rect) = classify(&img, cfg(), Point { x: 0, y: 0 }).unwrap();
    isolate_piece(&mut mask);
    mark_borders(&mut mask);
    mark_jags(&mut mask, JagConfig { probe: 2, width: 8 });
    mask
}

#[test]
fn square_yields_exact_border_ring() {
    let mask = traced_square_mask();
    let mut borders = 0;
    let mut jags = 0;
    for y in 0..30 {
        for x in 0..30 {
            if matches!(mask.get(x, y), PixelClass::Border) {
                borders += 1;
                let on_ring = (x == 10 || x == 19 || y == 10 || y == 19)
                    && (10..20).contains(&x)
                    && (10..20).contains(&y);
                assert!(on_ring, "unexpected border at ({x},{y})");
            }
            if mask.get_jag(x, y) {
                jags += 1;
            }
        }
    }
    assert_eq!(borders, 36);
    assert_eq!(jags, 0);
}

#[test]
fn square_corners_are_the_literal_corners() {
    let mask = traced_square_mask();
    let corner_of = |tx: usize, ty: usize| nearest_border(&mask, Point { x: tx, y: ty }).unwrap();
    assert_eq!(corner_of(0, 0), Point { x: 10, y: 10 });
    assert_eq!(corner_of(30, 0), Point { x: 19, y: 10 });
    assert_eq!(corner_of(0, 30), Point { x: 10, y: 19 });
    assert_eq!(corner_of(30, 30), Point { x: 19, y: 19 });
    let (top, bottom) = find_corners(&mask).unwrap();
    assert_eq!(top, Point { x: 10, y: 10 });
    assert_eq!(bottom, Point { x: 10, y: 19 });
}

#[test]
fn classification_closes_enclosed_holes() {
    // A ring of dark pixels with a bright hole inside: the hole is
    // unreachable from the background and is forced back to material.
    let mut dark = Vec::new();
    for y in 5..12 {
        for x in 5..12 {
            if x == 5 || x == 11 || y == 5 || y == 11 {
                dark.push((x, y));
            }
        }
    }
    let img = image_with(20, &dark);
    let (mask, _rect) = classify(&img, cfg(), Point { x: 0, y: 0 }).unwrap();
    assert!(matches!(mask.get(8, 8), PixelClass::Material));
    assert!(matches!(mask.get(5, 5), PixelClass::Material));
    assert!(matches!(mask.get(3, 3), PixelClass::NoMaterial));
}

#[test]
fn classification_is_deterministic() {
    let img = square_image();
    let (m1, r1) = classify(&img, cfg(), Point { x: 0, y: 0 }).unwrap();
    let (m2, r2) = classify(&img, cfg(), Point { x: 0, y: 0 }).unwrap();
    assert_eq!(r1, r2);
    for y in 0..30 {
        for x in 0..30 {
            assert_eq!(m1.get(x, y), m2.get(x, y));
        }
    }
}

#[test]
fn classification_fails_without_material() {
    let img = image_with(8, &[]);
    assert!(classify(&img, cfg(), Point { x: 0, y: 0 }).is_err());
}

#[test]
fn bounding_rect_is_padded_by_one() {
    let img = square_image();
    let (_mask, rect) = classify(&img, cfg(), Point { x: 0, y: 0 }).unwrap();
    assert_eq!((rect.min_x, rect.min_y, rect.max_x, rect.max_y), (9, 9, 20, 20));
}

#[test]
fn isolation_keeps_only_the_largest_blob() {
    // The square plus a lone debris pixel.
    let mut dark = Vec::new();
    for y in 10..20 {
        for x in 10..20 {
            dark.push((x, y));
        }
    }
    dark.push((2, 2));
    let img = image_with(30, &dark);
    let (mut mask, _rect) = classify(&img, cfg(), Point { x: 0, y: 0 }).unwrap();
    assert!(matches!(mask.get(2, 2), PixelClass::Material));
    isolate_piece(&mut mask);
    assert!(matches!(mask.get(2, 2), PixelClass::NoMaterial));
    assert!(matches!(mask.get(15, 15), PixelClass::Material));
    assert_eq!(mask.count_material(), 100);
}

#[test]
fn pruning_leaves_no_unsupported_border() {
    // The square with a one-pixel spur sticking out of its top edge.
    let mut dark = Vec::new();
    for y in 10..20 {
        for x in 10..20 {
            dark.push((x, y));
        }
    }
    for y in 5..10 {
        dark.push((15, y));
    }
    let img = image_with(30, &dark);
    let (mut mask, _rect) = classify(&img, cfg(), Point { x: 0, y: 0 }).unwrap();
    isolate_piece(&mut mask);
    mark_borders(&mut mask);
    prune_dead_ends(&mut mask);
    // Fixed point: every border pixel keeps a plain-material 4-neighbour.
    for y in 0..30usize {
        for x in 0..30usize {
            if matches!(mask.get(x, y), PixelClass::Border) {
                let mut supported = false;
                if x > 0 {
                    supported |= matches!(mask.get(x - 1, y), PixelClass::Material);
                }
                if x < 29 {
                    supported |= matches!(mask.get(x + 1, y), PixelClass::Material);
                }
                if y > 0 {
                    supported |= matches!(mask.get(x, y - 1), PixelClass::Material);
                }
                if y < 29 {
                    supported |= matches!(mask.get(x, y + 1), PixelClass::Material);
                }
                assert!(supported, "unsupported border at ({x},{y})");
            }
        }
    }
    // The spur is eaten down to its base pixel, which keeps the
    // plain-material junction cell behind it and so is no dead end.
    for y in 5..9 {
        assert!(matches!(mask.get(15, y), PixelClass::NoMaterial));
    }
    assert!(matches!(mask.get(15, 9), PixelClass::Border));
    assert!(matches!(mask.get(15, 10), PixelClass::Material));
}

#[test]
fn thin_protrusions_are_flagged_as_jag() {
    // The square with a thin 2-wide tongue on top: the tongue's rows see
    // a narrow border window and get flagged; the body's rows do not.
    let mut dark = Vec::new();
    for y in 10..20 {
        for x in 10..20 {
            dark.push((x, y));
        }
    }
    for y in 4..10 {
        dark.push((14, y));
        dark.push((15, y));
    }
    let img = image_with(30, &dark);
    let (mut mask, _rect) = classify(&img, cfg(), Point { x: 0, y: 0 }).unwrap();
    isolate_piece(&mut mask);
    mark_borders(&mut mask);
    mark_jags(&mut mask, JagConfig { probe: 1, width: 4 });
    assert!(mask.get_jag(14, 6));
    assert!(!mask.get_jag(12, 15));
}

#[test]
fn split_extracts_a_sorted_local_arc() {
    let img = square_image();
    let (mut mask, rect) = classify(&img, cfg(), Point { x: 0, y: 0 }).unwrap();
    isolate_piece(&mut mask);
    mark_borders(&mut mask);
    mark_jags(&mut mask, JagConfig { probe: 2, width: 8 });
    let (top, bottom) = find_corners(&mask).unwrap();
    clear_near_corners(&mut mask, top, bottom, SplitConfig { radius: 3 });
    // The corners' neighbourhoods are no longer border.
    assert!(!matches!(mask.get(10, 10), PixelClass::Border));
    let arc = extract_arc(&mask, rect).unwrap();
    assert!(!arc.is_empty());
    // Canonical order: strictly ascending y-major, x within a row.
    for w in arc.windows(2) {
        assert!(w[0].y < w[1].y || (w[0].y == w[1].y && w[0].x < w[1].x));
    }
    // Local coordinates: the arc touches its own zero row and column.
    assert!(arc.iter().any(|p| p.x == 0));
    assert!(arc.iter().any(|p| p.y == 0));
}

#[test]
fn split_fails_without_a_seed_row() {
    let img = square_image();
    let (mut mask, rect) = classify(&img, cfg(), Point { x: 0, y: 0 }).unwrap();
    // Demote the whole boundary: nothing on the seed rows.
    isolate_piece(&mut mask);
    assert!(extract_arc(&mask, rect).is_err());
}

#[test]
fn trial_on_square_scores_perfect_alignment() {
    let img = square_image();
    let t = evaluate_trial(&img, cfg(), JagConfig { probe: 2, width: 8 }, Point { x: 0, y: 0 })
        .unwrap();
    // Dead-end pruning eats the four sharp corner pixels of the
    // synthetic square, so the nearest boundary pixels sit one step in
    // along the ring; the corner delta is still an exact zero.
    assert_eq!(t.corner_delta, 0);
    assert_eq!(t.top.x, t.bottom.x);
}

#[test]
fn trial_without_material_reports_failure() {
    let img = image_with(8, &[]);
    let e = evaluate_trial(&img, cfg(), JagConfig { probe: 2, width: 8 }, Point { x: 0, y: 0 })
        .unwrap_err();
    assert_eq!(e, TrialError::NoMaterial);
}

#[test]
fn corner_search_fails_on_an_empty_boundary() {
    let mask = blank_mask(12);
    assert!(nearest_border(&mask, Point { x: 0, y: 0 }).is_none());
    assert!(find_corners(&mask).is_err());
}

#[test]
fn trial_with_a_lone_speck_reports_no_border() {
    // A single material pixel is all border and all dead end: pruning
    // removes it and corner search finds nothing.
    let img = image_with(12, &[(6, 6)]);
    let e = evaluate_trial(&img, cfg(), JagConfig { probe: 2, width: 8 }, Point { x: 0, y: 0 })
        .unwrap_err();
    assert_eq!(e, TrialError::NoBorder);
}

#[test]
fn sweep_tracks_the_best_angle() {
    let mut sweep = RotationSweep::new(1, 20);
    assert_eq!(sweep.current_angle(), 900 - 20);
    sweep.record_trial(30);
    // Coarse step while the delta is large.
    assert_eq!(sweep.current_angle(), 900 - 12);
    sweep.record_trial(10);
    assert_eq!(sweep.current_angle(), 900 - 10);
    sweep.record_trial(3);
    assert_eq!(sweep.current_angle(), 900 - 9);
    assert_eq!(sweep.best_delta, 3);
    assert_eq!(sweep.best_angle, 900 - 10);
    assert!(!sweep.done);
    // An exact zero stops the sweep early.
    sweep.record_trial(0);
    assert!(sweep.done);
    assert_eq!(sweep.best_delta, 0);
    assert_eq!(sweep.best_angle, 900 - 9);
}

#[test]
fn sweep_stops_when_the_range_is_exhausted() {
    let mut sweep = RotationSweep::new(0, 2);
    while !sweep.done {
        sweep.record_trial(5);
    }
    assert_eq!(sweep.best_delta, 5);
    assert!(sweep.cur > sweep.range);
}
