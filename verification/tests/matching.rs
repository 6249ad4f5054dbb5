//! Matching-engine behaviour on concrete edges: scoring laws, top-K
//! candidate lists, solved links, and the four-edge loop-closure search.

use puzzle_edges::edge::{flip_edge, make_edge_id, new_edge, new_piece, EdgeCurve};
use puzzle_edges::engine::MatchEngine;
use puzzle_edges::geom::Point;
use puzzle_edges::rank::EMPTY_SLOT;

fn pts(coords: &[(usize, usize)]) -> Vec<Point> {
    coords.iter().map(|&(x, y)| Point { x, y }).collect()
}

fn edge_of(coords: &[(usize, usize)], piece: u64, side: u64) -> EdgeCurve {
    new_edge(pts(coords), make_edge_id(piece, side))
}

/// An L-shaped open curve and its exact mirror image.
const L_SHAPE: &[(usize, usize)] = &[(0, 0), (0, 1), (0, 2), (1, 2), (2, 2)];

#[test]
fn mirror_l_edges_score_zero_both_directions() {
    let mut eng = MatchEngine::new();
    let a = edge_of(L_SHAPE, 0, 0);
    let b = flip_edge(&a);
    let b = new_edge(b.pts, make_edge_id(1, 0));
    eng.add_edge(a);
    eng.add_edge(b);
    assert_eq!(eng.compare_edges(0, 1), 0);
    assert_eq!(eng.compare_edges(1, 0), 0);
    assert_eq!(eng.match_score(0, 1), 0);
    assert_eq!(eng.match_score(1, 0), 0);
}

#[test]
fn perturbed_mirror_scores_small_positive() {
    let mut eng = MatchEngine::new();
    let a = edge_of(L_SHAPE, 0, 0);
    // The mirror of the L, with one point moved by one unit.
    let b = edge_of(&[(2, 2), (2, 1), (2, 0), (1, 1), (0, 0)], 1, 0);
    eng.add_edge(a);
    eng.add_edge(b);
    let score = eng.match_score(0, 1);
    assert!(score > 0);
    // One unit of perturbation on one of five points costs at most one
    // squared unit per direction.
    assert!(score <= 2);
}

#[test]
fn compare_is_invariant_to_point_order() {
    let mut eng = MatchEngine::new();
    let a1 = edge_of(L_SHAPE, 0, 0);
    // The same points in a scrambled order, as a different piece.
    let a2 = edge_of(&[(2, 2), (0, 1), (1, 2), (0, 0), (0, 2)], 1, 0);
    let probe = edge_of(&[(0, 0), (1, 1), (2, 1)], 2, 0);
    eng.add_edge(a1);
    eng.add_edge(a2);
    eng.add_edge(probe);
    assert_eq!(eng.compare_edges(0, 2), eng.compare_edges(1, 2));
    assert_eq!(eng.compare_edges(2, 0), eng.compare_edges(2, 1));
    assert_eq!(eng.match_score(0, 2), eng.match_score(1, 2));
}

#[test]
fn match_score_is_symmetric() {
    let mut eng = MatchEngine::new();
    eng.add_edge(edge_of(L_SHAPE, 0, 0));
    eng.add_edge(edge_of(&[(0, 0), (3, 1), (5, 2)], 1, 0));
    assert_eq!(eng.match_score(0, 1), eng.match_score(1, 0));
}

#[test]
fn flip_of_self_scores_zero() {
    let mut eng = MatchEngine::new();
    let a = edge_of(&[(0, 0), (1, 3), (4, 5), (2, 2)], 0, 0);
    let f = flip_edge(&a);
    let f = new_edge(f.pts, make_edge_id(1, 0));
    eng.add_edge(a);
    eng.add_edge(f);
    assert_eq!(eng.compare_edges(0, 1), 0);
}

#[test]
fn best_diff_excludes_own_piece_and_is_sorted() {
    let mut eng = MatchEngine::new();
    let a = edge_of(L_SHAPE, 0, 0);
    // A sibling side of the same piece must never appear.
    let sib = edge_of(&[(0, 0), (9, 9)], 0, 1);
    let near = new_edge(flip_edge(&a).pts, make_edge_id(1, 0));
    let far = edge_of(&[(0, 0), (7, 1), (9, 3)], 2, 0);
    eng.add_edge(a);
    eng.add_edge(sib);
    eng.add_edge(near);
    eng.add_edge(far);
    let own_id = make_edge_id(0, 1);
    let bd = eng.compute_best_diff(0, 3);
    assert_eq!(bd.len(), 3);
    assert!(bd[0].score <= bd[1].score && bd[1].score <= bd[2].score);
    assert_eq!(bd[0].edge, make_edge_id(1, 0));
    assert_eq!(bd[0].score, 0);
    assert_eq!(bd[1].edge, make_edge_id(2, 0));
    // Only two eligible candidates exist: the third slot is empty.
    assert_eq!(bd[2].edge, EMPTY_SLOT);
    assert!(bd.iter().all(|e| e.edge != own_id));
}

#[test]
fn solved_edge_short_circuits_to_partner() {
    let mut eng = MatchEngine::new();
    let a = edge_of(L_SHAPE, 0, 0);
    let b = new_edge(flip_edge(&a).pts, make_edge_id(1, 0));
    let c = edge_of(&[(0, 0), (5, 5)], 2, 0);
    let a_id = a.id;
    let b_id = b.id;
    eng.add_edge(a);
    eng.add_edge(b);
    eng.add_edge(c);
    eng.add_solved_link(a_id, b_id);
    for k in [1usize, 3usize] {
        let bd = eng.compute_best_diff(0, k);
        assert_eq!(bd.len(), k);
        for e in &bd {
            assert_eq!(e.edge, b_id);
            assert_eq!(e.score, 0);
        }
    }
    // The solved partner also leaves other edges' candidate lists.
    let bd_c = eng.compute_best_diff(2, 2);
    assert!(bd_c.iter().all(|e| e.edge != a_id && e.edge != b_id));
}

#[test]
fn replay_of_solved_links_is_idempotent() {
    let mut eng = MatchEngine::new();
    eng.add_edge(edge_of(L_SHAPE, 0, 0));
    eng.add_edge(edge_of(&[(0, 0), (1, 1)], 1, 0));
    let a_id = make_edge_id(0, 0);
    let b_id = make_edge_id(1, 0);
    assert!(eng.replay_solved_link(a_id, b_id));
    assert!(eng.replay_solved_link(a_id, b_id));
    assert_eq!(eng.find_partner(a_id), Some(b_id));
    assert_eq!(eng.find_partner(b_id), Some(a_id));
    // A conflicting record is rejected and changes nothing.
    eng.add_edge(edge_of(&[(0, 0), (2, 2)], 2, 0));
    assert!(!eng.replay_solved_link(a_id, make_edge_id(2, 0)));
    assert_eq!(eng.find_partner(a_id), Some(b_id));
    assert_eq!(eng.find_partner(make_edge_id(2, 0)), None);
}

/// A mated shape and its exact mirror, distinct per mating.
fn mate_shape(m: usize) -> Vec<(usize, usize)> {
    vec![(0, 0), (1, m + 1), (3, 2 * m + 3)]
}

fn flipped(coords: &[(usize, usize)]) -> Vec<(usize, usize)> {
    let mx = coords.iter().map(|c| c.0).max().unwrap();
    let my = coords.iter().map(|c| c.1).max().unwrap();
    coords.iter().map(|&(x, y)| (mx - x, my - y)).collect()
}

/// A filler shape that mates with nothing.
fn filler_shape(n: usize) -> Vec<(usize, usize)> {
    vec![(0, 0), (n + 2, 1), (2 * n + 7, 2), (2 * n + 8, 5 + n)]
}

/// Builds the toy four-piece instance: pieces laid out in a square, with
/// the four inner matings
/// `(P0.s0, P1.s2), (P1.s3, P3.s1), (P3.s2, P2.s0), (P2.s1, P0.s3)`
/// carrying exact mirror pairs and all outer sides carrying filler.
fn toy_instance() -> MatchEngine {
    let mut eng = MatchEngine::new();
    let matings: [((u64, u64), (u64, u64)); 4] =
        [((0, 0), (1, 2)), ((1, 3), (3, 1)), ((3, 2), (2, 0)), ((2, 1), (0, 3))];
    let mut shapes: Vec<((u64, u64), Vec<(usize, usize)>)> = Vec::new();
    for (m, &(fst, snd)) in matings.iter().enumerate() {
        shapes.push((fst, mate_shape(m)));
        shapes.push((snd, flipped(&mate_shape(m))));
    }
    let mut filler = 0usize;
    for p in 0..4u64 {
        for s in 0..4u64 {
            if !shapes.iter().any(|(k, _)| *k == (p, s)) {
                shapes.push(((p, s), filler_shape(filler)));
                filler += 1;
            }
        }
    }
    // Add in (piece, side) order so side ids are easy to find.
    shapes.sort_by_key(|(k, _)| (k.0, k.1));
    for ((p, s), coords) in shapes {
        eng.add_edge(edge_of(&coords, p, s));
    }
    eng
}

#[test]
fn toy_square_ground_truth_closes_at_zero() {
    let mut eng = toy_instance();
    let a = eng.find_edge(make_edge_id(0, 0)).unwrap();
    let k = 2usize;
    let best = eng.search_square(a, k);
    assert_eq!(best.total, 0);
    assert_eq!((best.c0, best.c1, best.c2), (0, 0, 0));
    for c0 in 0..k {
        for c1 in 0..k {
            for c2 in 0..k {
                let t = eng.eval_combo(a, k, c0, c1, c2);
                if (c0, c1, c2) == (0, 0, 0) {
                    assert_eq!(t, 0);
                } else {
                    assert!(t > 0);
                }
            }
        }
    }
}

#[test]
fn confirming_the_square_records_four_links() {
    let mut eng = toy_instance();
    let a = eng.find_edge(make_edge_id(0, 0)).unwrap();
    assert!(eng.confirm_square(a, 2, 0, 0, 0));
    assert_eq!(eng.find_partner(make_edge_id(0, 0)), Some(make_edge_id(1, 2)));
    assert_eq!(eng.find_partner(make_edge_id(1, 3)), Some(make_edge_id(3, 1)));
    assert_eq!(eng.find_partner(make_edge_id(3, 2)), Some(make_edge_id(2, 0)));
    assert_eq!(eng.find_partner(make_edge_id(2, 1)), Some(make_edge_id(0, 3)));
    // A solved start edge short-circuits, so confirming again fails.
    assert!(!eng.confirm_square(a, 2, 0, 0, 0));
    // The solved edges now answer with their partner at score zero.
    let bd = eng.compute_best_diff(a, 2);
    assert_eq!(bd[0].edge, make_edge_id(1, 2));
    assert_eq!(bd[0].score, 0);
    assert_eq!(bd[1].edge, make_edge_id(1, 2));
}

#[test]
fn pieces_carry_their_four_labelled_sides() {
    let sides: Vec<_> = (0..4u64).map(|s| edge_of(L_SHAPE, 7, s)).collect();
    let mut it = sides.into_iter();
    let outline = pts(&[(0, 0), (1, 0), (1, 1)]);
    let piece = new_piece(
        7,
        it.next().unwrap(),
        it.next().unwrap(),
        it.next().unwrap(),
        it.next().unwrap(),
        outline,
    );
    assert_eq!(piece.id, 7);
    assert_eq!(piece.sides.len(), 4);
    for (i, side) in piece.sides.iter().enumerate() {
        assert_eq!(side.id, 4 * 7 + i as u64);
    }
    assert_eq!(piece.outline.len(), 3);
}

#[test]
fn edge_construction_preserves_points_and_order() {
    let coords = [(3usize, 1usize), (0, 0), (2, 5), (4, 4)];
    let e = edge_of(&coords, 0, 0);
    assert_eq!(e.pts.len(), coords.len());
    for (p, &(x, y)) in e.pts.iter().zip(coords.iter()) {
        assert_eq!((p.x, p.y), (x, y));
    }
    assert_eq!((e.max_x, e.max_y), (4, 5));
}

#[test]
fn distance_field_cache_answers_repeat_queries() {
    let mut eng = MatchEngine::new();
    eng.add_edge(edge_of(L_SHAPE, 0, 0));
    eng.add_edge(edge_of(&[(0, 0), (4, 1), (6, 2)], 1, 0));
    let first = eng.compare_edges(0, 1);
    let again = eng.compare_edges(0, 1);
    assert_eq!(first, again);
}
