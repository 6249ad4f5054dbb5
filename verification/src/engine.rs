//! The edge-matching engine: the owned table of edges with their distance
//! fields and the confirmed solved links, pairwise scoring, top-K
//! candidate ranking, and the four-edge loop-closure search.

use vstd::prelude::*;
use vstd::std_specs::vec::vec_index_mut;
use crate::geom::{Point, MAX_SIDE};
use crate::edge::{
    EdgeCurve, ID_LIMIT, piece_of, next_side_of, prev_side_of, next_side_id, prev_side_id,
    lemma_max_of_props,
};
use crate::score::{
    diff_spec, score_spec, one_way, min_d2, diff_bound, lemma_diff_in_range,
};
use crate::dfield::DistanceField;
use crate::rank::{
    DiffEntry, EMPTY_SLOT, PENALTY, top_k, bounded_insert, sorted_by_score, lemma_top_k_props,
    lemma_bounded_insert_props, lemma_bounded_insert_noop,
};

verus! {

/// The solved partner of an edge id, if any pair of the solved set names
/// the id.
pub open spec fn partner_in(solved: Seq<(u64, u64)>, id: u64) -> Option<u64>
    decreases solved.len(),
{
    if solved.len() == 0 {
        None
    } else if solved[0].0 == id {
        Some(solved[0].1)
    } else if solved[0].1 == id {
        Some(solved[0].0)
    } else {
        partner_in(solved.drop_first(), id)
    }
}

/// Whether some edge of the sequence carries the id.
pub open spec fn has_id(edges: Seq<EdgeCurve>, id: u64) -> bool {
    exists|i: int| 0 <= i < edges.len() && (#[trigger] edges[i]).id == id
}

/// The index of the edge carrying the id (unique under `ev_wf`).
pub open spec fn idx_of(edges: Seq<EdgeCurve>, id: u64) -> int {
    choose|i: int| 0 <= i < edges.len() && (#[trigger] edges[i]).id == id
}

/// Well-formedness of the engine's mathematical state: well-formed edges
/// with distinct ids, and solved links that pair distinct ids with every
/// id solved at most once.
pub open spec fn ev_wf(edges: Seq<EdgeCurve>, solved: Seq<(u64, u64)>) -> bool {
    &&& forall|i: int| 0 <= i < edges.len() ==> (#[trigger] edges[i]).wf()
    &&& forall|i: int, j: int|
        0 <= i < j < edges.len() ==> (#[trigger] edges[i]).id != (#[trigger] edges[j]).id
    &&& forall|i: int|
        0 <= i < solved.len() ==> (#[trigger] solved[i]).0 < ID_LIMIT && solved[i].1 < ID_LIMIT
            && solved[i].0 != solved[i].1
    &&& forall|i: int, j: int|
        0 <= i < j < solved.len() ==> (#[trigger] solved[i]).0 != (#[trigger] solved[j]).0
            && solved[i].0 != solved[j].1 && solved[i].1 != solved[j].0 && solved[i].1
            != solved[j].1
}

/// An edge eligible as a candidate partner for edge `e`: from another
/// piece, and not already solved away.
pub open spec fn eligible(
    edges: Seq<EdgeCurve>,
    solved: Seq<(u64, u64)>,
    e: int,
    j: int,
) -> bool {
    &&& piece_of(edges[j].id) != piece_of(edges[e].id)
    &&& partner_in(solved, edges[j].id) is None
}

/// The candidate entries for edge `e` drawn from the first `n` edges, in
/// index order, each carrying its true symmetric match score.
pub open spec fn cand_entries(
    edges: Seq<EdgeCurve>,
    solved: Seq<(u64, u64)>,
    e: int,
    n: int,
) -> Seq<DiffEntry>
    decreases n,
{
    if n <= 0 {
        Seq::<DiffEntry>::empty()
    } else {
        let rest = cand_entries(edges, solved, e, n - 1);
        if eligible(edges, solved, e, n - 1) {
            rest.push(
                DiffEntry {
                    edge: edges[n - 1].id,
                    score: score_spec(edges[e], edges[n - 1]) as u64,
                },
            )
        } else {
            rest
        }
    }
}

/// Pads a candidate list with empty sentinel slots up to length `k`.
pub open spec fn pad_k(l: Seq<DiffEntry>, k: int) -> Seq<DiffEntry> {
    l + Seq::new((k - l.len()) as nat, |i: int| DiffEntry { edge: EMPTY_SLOT, score: PENALTY })
}

/// What `computeBestDiff(e, k)` returns: the solved partner with score 0
/// repeated `k` times when `e` is already solved, else the padded top-K
/// of the candidate entries.
pub open spec fn best_diff_spec(
    edges: Seq<EdgeCurve>,
    solved: Seq<(u64, u64)>,
    e: int,
    k: int,
) -> Seq<DiffEntry> {
    match partner_in(solved, edges[e].id) {
        Some(f) => Seq::new(k as nat, |i: int| DiffEntry { edge: f, score: 0 }),
        None => pad_k(top_k(cand_entries(edges, solved, e, edges.len() as int), k), k),
    }
}

/// The candidate entry edge `j` contributes for edge `e`.
pub open spec fn cand_of(edges: Seq<EdgeCurve>, e: int, j: int) -> DiffEntry {
    DiffEntry { edge: edges[j].id, score: score_spec(edges[e], edges[j]) as u64 }
}

/// A solved partner, when present, is a well-formed id distinct from the
/// id it partners.
pub proof fn lemma_partner_in_props(solved: Seq<(u64, u64)>, id: u64)
    requires
        forall|i: int|
            0 <= i < solved.len() ==> (#[trigger] solved[i]).0 < ID_LIMIT && solved[i].1
                < ID_LIMIT && solved[i].0 != solved[i].1,
    ensures
        match partner_in(solved, id) {
            Some(f) => f < ID_LIMIT && f != id,
            None => true,
        },
    decreases solved.len(),
{
    if solved.len() > 0 {
        if solved[0].0 != id && solved[0].1 != id {
            assert(forall|i: int|
                0 <= i < solved.drop_first().len() ==> solved.drop_first()[i] == solved[i + 1]);
            lemma_partner_in_props(solved.drop_first(), id);
        }
    }
}

/// An id with no partner occurs in no link at all.
pub proof fn lemma_partner_none(solved: Seq<(u64, u64)>, id: u64)
    requires
        partner_in(solved, id) is None,
    ensures
        forall|i: int|
            0 <= i < solved.len() ==> (#[trigger] solved[i]).0 != id && solved[i].1 != id,
    decreases solved.len(),
{
    if solved.len() > 0 {
        lemma_partner_none(solved.drop_first(), id);
        assert forall|i: int| 0 <= i < solved.len() implies (#[trigger] solved[i]).0 != id
            && solved[i].1 != id by {
            if i >= 1 {
                assert(solved.drop_first()[i - 1] == solved[i]);
            }
        }
    }
}

/// The candidate entries are exactly one true-score entry per eligible
/// edge, in index order.
pub proof fn lemma_cand_entries_props(
    edges: Seq<EdgeCurve>,
    solved: Seq<(u64, u64)>,
    e: int,
    n: int,
)
    requires
        0 <= n <= edges.len(),
    ensures
        cand_entries(edges, solved, e, n).len() <= n,
        forall|i: int|
            0 <= i < cand_entries(edges, solved, e, n).len() ==> exists|j: int|
                0 <= j < n && eligible(edges, solved, e, j) && #[trigger] cand_entries(
                    edges,
                    solved,
                    e,
                    n,
                )[i] == cand_of(edges, e, j),
        forall|j: int|
            0 <= j < n && eligible(edges, solved, e, j) ==> cand_entries(
                edges,
                solved,
                e,
                n,
            ).contains(cand_of(edges, e, j)),
    decreases n,
{
    if n > 0 {
        lemma_cand_entries_props(edges, solved, e, n - 1);
        let pre = cand_entries(edges, solved, e, n - 1);
        let cur = cand_entries(edges, solved, e, n);
        if eligible(edges, solved, e, n - 1) {
            assert(cur == pre.push(cand_of(edges, e, n - 1)));
            assert(forall|i: int| 0 <= i < pre.len() ==> cur[i] == pre[i]);
            assert(cur[cur.len() - 1] == cand_of(edges, e, n - 1));
            assert forall|i: int| 0 <= i < cur.len() implies exists|j: int|
                0 <= j < n && eligible(edges, solved, e, j) && #[trigger] cur[i] == cand_of(
                    edges,
                    e,
                    j,
                ) by {
                if i < pre.len() {
                    let j = choose|j: int|
                        0 <= j < n - 1 && eligible(edges, solved, e, j) && #[trigger] pre[i]
                            == cand_of(edges, e, j);
                    assert(cur[i] == cand_of(edges, e, j));
                } else {
                    assert(cur[i] == cand_of(edges, e, n - 1));
                }
            }
            assert forall|j: int| 0 <= j < n && eligible(edges, solved, e, j) implies cur
                .contains(cand_of(edges, e, j)) by {
                if j < n - 1 {
                    let i = choose|i: int| 0 <= i < pre.len() && pre[i] == cand_of(edges, e, j);
                    assert(cur[i] == cand_of(edges, e, j));
                } else {
                    assert(cur[cur.len() - 1] == cand_of(edges, e, j));
                }
            }
        } else {
            assert(cur == pre);
            assert forall|i: int| 0 <= i < cur.len() implies exists|j: int|
                0 <= j < n && eligible(edges, solved, e, j) && #[trigger] cur[i] == cand_of(
                    edges,
                    e,
                    j,
                ) by {
                let j = choose|j: int|
                    0 <= j < n - 1 && eligible(edges, solved, e, j) && #[trigger] pre[i]
                        == cand_of(edges, e, j);
                assert(cur[i] == cand_of(edges, e, j));
            }
        }
        assert forall|i: int| 0 <= i < cand_entries(edges, solved, e, n).len() implies exists|
            j: int,
        |
            0 <= j < n && eligible(edges, solved, e, j) && #[trigger] cand_entries(
                edges,
                solved,
                e,
                n,
            )[i] == cand_of(edges, e, j) by {
            let jj = choose|j: int|
                0 <= j < n && eligible(edges, solved, e, j) && #[trigger] cur[i] == cand_of(
                    edges,
                    e,
                    j,
                );
            assert(cand_entries(edges, solved, e, n)[i] == cand_of(edges, e, jj));
        }
    }
}

/// A real candidate's score, as stored in a `u64` entry, is the exact
/// symmetric match score, and stays below the penalty constant.
pub proof fn lemma_cand_score(edges: Seq<EdgeCurve>, e: int, j: int)
    requires
        0 <= e < edges.len(),
        0 <= j < edges.len(),
        edges[e].wf(),
        edges[j].wf(),
    ensures
        cand_of(edges, e, j).score == score_spec(edges[e], edges[j]),
        cand_of(edges, e, j).score < PENALTY,
{
    lemma_diff_in_range(edges[e], edges[j]);
    lemma_diff_in_range(edges[j], edges[e]);
}

/// The top-K law of `computeBestDiff`: the list has exactly `k` entries
/// in ascending score order; every filled entry is a true-scored eligible
/// candidate outside `e`'s own piece; every eligible candidate is either
/// listed or scores no better than the kept worst of a full list; and a
/// solved edge yields its partner with score 0, `k` times.
pub proof fn lemma_best_diff_props(edges: Seq<EdgeCurve>, solved: Seq<(u64, u64)>, e: int, k: int)
    requires
        ev_wf(edges, solved),
        0 <= e < edges.len(),
        k >= 1,
    ensures
        best_diff_spec(edges, solved, e, k).len() == k,
        sorted_by_score(best_diff_spec(edges, solved, e, k)),
        forall|i: int|
            0 <= i < k ==> (#[trigger] best_diff_spec(edges, solved, e, k)[i]).score <= PENALTY,
        forall|i: int|
            0 <= i < k ==> (#[trigger] best_diff_spec(edges, solved, e, k)[i]).edge == EMPTY_SLOT
                || best_diff_spec(edges, solved, e, k)[i].edge < ID_LIMIT,
        partner_in(solved, edges[e].id) is None ==> forall|i: int|
            0 <= i < k ==> ((#[trigger] best_diff_spec(edges, solved, e, k)[i]) == (DiffEntry {
                edge: EMPTY_SLOT,
                score: PENALTY,
            }) || exists|j: int|
                0 <= j < edges.len() && eligible(edges, solved, e, j) && best_diff_spec(
                    edges,
                    solved,
                    e,
                    k,
                )[i] == cand_of(edges, e, j)),
        partner_in(solved, edges[e].id) is None ==> forall|j: int|
            0 <= j < edges.len() && #[trigger] eligible(edges, solved, e, j) ==> best_diff_spec(
                edges,
                solved,
                e,
                k,
            ).contains(cand_of(edges, e, j)) || (best_diff_spec(edges, solved, e, k)[k - 1].edge
                != EMPTY_SLOT && cand_of(edges, e, j).score >= best_diff_spec(
                edges,
                solved,
                e,
                k,
            )[k - 1].score),
        forall|f: u64|
            partner_in(solved, edges[e].id) == Some(f) ==> forall|i: int|
                0 <= i < k ==> (#[trigger] best_diff_spec(edges, solved, e, k)[i]) == (DiffEntry {
                    edge: f,
                    score: 0,
                }),
{
    let bd = best_diff_spec(edges, solved, e, k);
    lemma_partner_in_props(solved, edges[e].id);
    match partner_in(solved, edges[e].id) {
        Some(f) => {
            assert(bd == Seq::new(k as nat, |i: int| DiffEntry { edge: f, score: 0 }));
            assert(forall|i: int| 0 <= i < k ==> bd[i] == (DiffEntry { edge: f, score: 0 }));
        },
        None => {
            let c = cand_entries(edges, solved, e, edges.len() as int);
            let tk = top_k(c, k);
            lemma_cand_entries_props(edges, solved, e, edges.len() as int);
            lemma_top_k_props(c, k);
            assert(bd == pad_k(tk, k));
            assert(bd.len() == k);
            assert forall|i: int| 0 <= i < c.len() implies (#[trigger] c[i]).score < PENALTY
                && c[i].edge < ID_LIMIT by {
                let j = choose|j: int|
                    0 <= j < edges.len() && eligible(edges, solved, e, j) && #[trigger] c[i]
                        == cand_of(edges, e, j);
                lemma_cand_score(edges, e, j);
            }
            assert forall|i: int| 0 <= i < tk.len() implies (#[trigger] tk[i]).score < PENALTY
                && tk[i].edge < ID_LIMIT && exists|j: int|
                0 <= j < edges.len() && eligible(edges, solved, e, j) && tk[i] == cand_of(
                    edges,
                    e,
                    j,
                ) by {
                let ci = choose|ci: int| 0 <= ci < c.len() && #[trigger] tk[i] == c[ci];
                assert(c[ci].score < PENALTY);
                let j = choose|j: int|
                    0 <= j < edges.len() && eligible(edges, solved, e, j) && #[trigger] c[ci]
                        == cand_of(edges, e, j);
            }
            assert forall|i: int, j: int| 0 <= i < j < bd.len() implies (#[trigger] bd[i]).score
                <= (#[trigger] bd[j]).score by {
                if j < tk.len() {
                } else if i < tk.len() {
                    assert(bd[j].score == PENALTY);
                } else {
                }
            }
            assert(sorted_by_score(bd));
            assert forall|j: int|
                0 <= j < edges.len() && #[trigger] eligible(edges, solved, e, j) implies bd
                .contains(cand_of(edges, e, j)) || (bd[k - 1].edge != EMPTY_SLOT && cand_of(
                edges,
                e,
                j,
            ).score >= bd[k - 1].score) by {
                assert(c.contains(cand_of(edges, e, j)));
                let ci = choose|ci: int| 0 <= ci < c.len() && c[ci] == cand_of(edges, e, j);
                if tk.contains(c[ci]) {
                    let i = choose|i: int| 0 <= i < tk.len() && tk[i] == c[ci];
                    assert(bd[i] == tk[i]);
                    assert(bd.contains(cand_of(edges, e, j)));
                } else {
                    assert(tk.len() == k && c[ci].score >= tk.last().score);
                    assert(bd[k - 1] == tk[k - 1]);
                    assert(tk[k - 1].edge < ID_LIMIT);
                }
            }
        },
    }
}

/// The edge a candidate entry chains to: the next side of the entry's
/// piece, when the entry is filled and that side is present.
pub open spec fn chain_idx(edges: Seq<EdgeCurve>, ent: DiffEntry) -> Option<int> {
    if ent.edge == EMPTY_SLOT {
        None
    } else {
        let nid = next_side_of(ent.edge);
        if has_id(edges, nid) {
            Some(idx_of(edges, nid))
        } else {
            None
        }
    }
}

/// The loop-closure term of a combination: the match score of A-minus
/// (the previous side of the start edge's piece) against D-plus, or the
/// fixed penalty when A-minus is missing or already solved away, or when
/// the loop closes on A-minus itself.
pub open spec fn closure_term(
    edges: Seq<EdgeCurve>,
    solved: Seq<(u64, u64)>,
    a: int,
    dp: int,
) -> int {
    let am_id = prev_side_of(edges[a].id);
    if !has_id(edges, am_id) {
        PENALTY as int
    } else if partner_in(solved, am_id) is Some {
        PENALTY as int
    } else if edges[dp].id == am_id {
        PENALTY as int
    } else {
        score_spec(edges[idx_of(edges, am_id)], edges[dp])
    }
}

/// The total of one loop-closure combination `(c0, c1, c2)` for start
/// edge `a`: the three chained candidate scores plus the closure term,
/// with the fixed penalty standing in for every link the chain cannot
/// resolve.
pub open spec fn combo_total(
    edges: Seq<EdgeCurve>,
    solved: Seq<(u64, u64)>,
    a: int,
    k: int,
    c0: int,
    c1: int,
    c2: int,
) -> int {
    let e0 = best_diff_spec(edges, solved, a, k)[c0];
    match chain_idx(edges, e0) {
        None => e0.score + 3 * (PENALTY as int),
        Some(bp) => {
            let e1 = best_diff_spec(edges, solved, bp, k)[c1];
            match chain_idx(edges, e1) {
                None => e0.score + e1.score + 2 * (PENALTY as int),
                Some(cp) => {
                    let e2 = best_diff_spec(edges, solved, cp, k)[c2];
                    match chain_idx(edges, e2) {
                        None => e0.score + e1.score + e2.score + PENALTY,
                        Some(dp) => e0.score + e1.score + e2.score + closure_term(
                            edges,
                            solved,
                            a,
                            dp,
                        ),
                    }
                },
            }
        },
    }
}

/// Pushing a link onto the solved set leaves earlier partners in place
/// and pairs the two new ids with each other.
pub proof fn lemma_partner_in_push(solved: Seq<(u64, u64)>, p: (u64, u64), id: u64)
    ensures
        partner_in(solved.push(p), id) == match partner_in(solved, id) {
            Some(f) => Some(f),
            None => if p.0 == id {
                Some(p.1)
            } else if p.1 == id {
                Some(p.0)
            } else {
                None
            },
        },
    decreases solved.len(),
{
    if solved.len() == 0 {
        assert(solved.push(p)[0] == p);
        assert(solved.push(p).drop_first() =~= Seq::<(u64, u64)>::empty());
        assert(partner_in(Seq::<(u64, u64)>::empty(), id) is None);
    } else {
        assert(solved.push(p)[0] == solved[0]);
        assert(solved.push(p).drop_first() =~= solved.drop_first().push(p));
        lemma_partner_in_push(solved.drop_first(), p, id);
    }
}

/// The eight edge ids of one resolvable combination, in link order:
/// `A, B, B-plus, C, C-plus, D, D-plus, A-minus`; `None` when the chain
/// cannot resolve or the closure is degenerate.
pub open spec fn combo_ids(
    edges: Seq<EdgeCurve>,
    solved: Seq<(u64, u64)>,
    a: int,
    k: int,
    c0: int,
    c1: int,
    c2: int,
) -> Option<Seq<u64>> {
    let e0 = best_diff_spec(edges, solved, a, k)[c0];
    match chain_idx(edges, e0) {
        None => None,
        Some(bp) => {
            let e1 = best_diff_spec(edges, solved, bp, k)[c1];
            match chain_idx(edges, e1) {
                None => None,
                Some(cp) => {
                    let e2 = best_diff_spec(edges, solved, cp, k)[c2];
                    match chain_idx(edges, e2) {
                        None => None,
                        Some(dp) => {
                            let am_id = prev_side_of(edges[a].id);
                            if !has_id(edges, am_id) || partner_in(solved, am_id) is Some
                                || edges[dp].id == am_id {
                                None
                            } else {
                                Some(
                                    seq![
                                        edges[a].id,
                                        e0.edge,
                                        edges[bp].id,
                                        e1.edge,
                                        edges[cp].id,
                                        e2.edge,
                                        edges[dp].id,
                                        am_id,
                                    ],
                                )
                            }
                        },
                    }
                },
            }
        },
    }
}

/// The four links of a confirmed combination may be recorded: all eight
/// ids distinct, none already solved.
pub open spec fn links_addable(solved: Seq<(u64, u64)>, ids: Seq<u64>) -> bool {
    &&& forall|i: int, j: int| 0 <= i < j < ids.len() ==> ids[i] != ids[j]
    &&& forall|i: int|
        0 <= i < ids.len() ==> partner_in(solved, #[trigger] ids[i]) is None && ids[i] < ID_LIMIT
}

/// The solved set after confirming a combination: the four links
/// `(A,B), (B-plus,C), (C-plus,D), (D-plus,A-minus)`.
pub open spec fn pushed_links(solved: Seq<(u64, u64)>, ids: Seq<u64>) -> Seq<(u64, u64)> {
    solved + seq![(ids[0], ids[1]), (ids[2], ids[3]), (ids[4], ids[5]), (ids[6], ids[7])]
}

/// The best combination found by a loop-closure search, with its total.
#[derive(Clone, Copy, PartialEq, Eq, Structural, Debug)]
pub struct SquareMatch {
    pub c0: usize,
    pub c1: usize,
    pub c2: usize,
    pub total: u64,
}

/// The matching engine: the owned edge table, each edge's cached distance
/// field, and the confirmed solved links.
pub struct MatchEngine {
    pub edges: Vec<EdgeCurve>,
    pub fields: Vec<DistanceField>,
    pub solved: Vec<(u64, u64)>,
    /// Per-edge candidate-list cache, keyed by the K it was computed
    /// for; dropped whenever a solved link or a new edge changes what a
    /// list would hold.
    pub bd_cache: Vec<Option<(u64, Vec<DiffEntry>)>>,
}

impl MatchEngine {
    /// Well-formedness: sound mathematical state, one coherent distance
    /// field per edge, and only true candidate lists in the cache.
    pub open spec fn wf(self) -> bool {
        &&& ev_wf(self.edges@, self.solved@)
        &&& self.fields@.len() == self.edges@.len()
        &&& forall|i: int|
            0 <= i < self.fields@.len() ==> (#[trigger] self.fields@[i]).wf()
                && self.fields@[i].pts@ == self.edges@[i].pts@
        &&& self.bd_cache@.len() == self.edges@.len()
        &&& forall|i: int|
            0 <= i < self.bd_cache@.len() ==> match #[trigger] self.bd_cache@[i] {
                Some(c) => c.0 >= 1 && c.1@ == best_diff_spec(
                    self.edges@,
                    self.solved@,
                    i,
                    c.0 as int,
                ),
                None => true,
            }
    }

    /// Creates an empty engine.
    pub fn new() -> (r: MatchEngine)
        ensures
            r.wf(),
            r.edges@.len() == 0,
            r.solved@.len() == 0,
    {
        MatchEngine {
            edges: Vec::new(),
            fields: Vec::new(),
            solved: Vec::new(),
            bd_cache: Vec::new(),
        }
    }

    /// Number of edges the engine owns.
    pub fn n_edges(&self) -> (r: usize)
        ensures
            r == self.edges@.len(),
    {
        self.edges.len()
    }

    /// Adds an edge (with a fresh id) and its empty distance field.
    pub fn add_edge(&mut self, curve: EdgeCurve)
        requires
            old(self).wf(),
            curve.wf(),
            forall|i: int|
                0 <= i < old(self).edges@.len() ==> (#[trigger] old(self).edges@[i]).id
                    != curve.id,
        ensures
            final(self).wf(),
            final(self).edges@ == old(self).edges@.push(curve),
            final(self).solved@ == old(self).solved@,
    {
        proof {
            lemma_max_of_props(curve.pts@);
        }
        let pts_copy = copy_points(&curve.pts);
        let df = DistanceField::new(pts_copy);
        self.edges.push(curve);
        self.fields.push(df);
        self.bd_cache = empty_slots(self.edges.len());
    }

    /// Finds the index of the edge carrying an id.
    pub fn find_edge(&self, id: u64) -> (r: Option<usize>)
        ensures
            match r {
                Some(i) => i < self.edges@.len() && self.edges@[i as int].id == id,
                None => !has_id(self.edges@, id),
            },
    {
        let mut i: usize = 0;
        while i < self.edges.len()
            invariant
                0 <= i <= self.edges@.len(),
                forall|j: int| 0 <= j < i ==> (#[trigger] self.edges@[j]).id != id,
            decreases self.edges@.len() - i,
        {
            if self.edges[i].id == id {
                return Some(i);
            }
            i += 1;
        }
        None
    }

    /// The solved partner of an edge id, if a link names it.
    pub fn find_partner(&self, id: u64) -> (r: Option<u64>)
        ensures
            r == partner_in(self.solved@, id),
    {
        let ghost solved = self.solved@;
        proof {
            assert(solved.subrange(0, solved.len() as int) =~= solved);
        }
        let mut i: usize = 0;
        while i < self.solved.len()
            invariant
                0 <= i <= solved.len(),
                self.solved@ == solved,
                partner_in(solved, id) == partner_in(solved.subrange(i as int, solved.len() as int), id),
            decreases solved.len() - i,
        {
            let pair = self.solved[i];
            proof {
                let tail = solved.subrange(i as int, solved.len() as int);
                let tail2 = solved.subrange(i + 1, solved.len() as int);
                assert(tail[0] == solved[i as int]);
                assert(tail.drop_first() =~= tail2);
            }
            if pair.0 == id {
                return Some(pair.1);
            }
            if pair.1 == id {
                return Some(pair.0);
            }
            i += 1;
        }
        proof {
            assert(solved.subrange(solved.len() as int, solved.len() as int) =~= Seq::<(
                u64,
                u64,
            )>::empty());
        }
        None
    }

    /// `compareEdges(a, b)`: the one-directional comparison sum of edge
    /// `a` (flipped about its own box) against edge `b`'s distance field.
    pub fn compare_edges(&mut self, a: usize, b: usize) -> (r: u64)
        requires
            old(self).wf(),
            a < old(self).edges@.len(),
            b < old(self).edges@.len(),
        ensures
            final(self).wf(),
            final(self).edges@ == old(self).edges@,
            final(self).solved@ == old(self).solved@,
            r as int == diff_spec(old(self).edges@[a as int], old(self).edges@[b as int]),
    {
        let a_curve = &self.edges[a];
        let fb = vec_index_mut(&mut self.fields, b);
        one_way_sum(a_curve, fb)
    }

    /// `MatchScore(a, b)`: the symmetric sum of both one-directional
    /// comparisons.
    pub fn match_score(&mut self, a: usize, b: usize) -> (r: u64)
        requires
            old(self).wf(),
            a < old(self).edges@.len(),
            b < old(self).edges@.len(),
        ensures
            final(self).wf(),
            final(self).edges@ == old(self).edges@,
            final(self).solved@ == old(self).solved@,
            r as int == score_spec(old(self).edges@[a as int], old(self).edges@[b as int]),
    {
        let r1 = self.compare_edges(a, b);
        let r2 = self.compare_edges(b, a);
        proof {
            lemma_diff_in_range(self.edges@[a as int], self.edges@[b as int]);
            lemma_diff_in_range(self.edges@[b as int], self.edges@[a as int]);
        }
        r1 + r2
    }

    /// `computeBestDiff(e, k)`: the `k` lowest-scoring partner candidates
    /// of edge `e`, ascending, excluding `e`'s own piece and solved
    /// edges, padded with empty slots when fewer exist.  A solved edge
    /// short-circuits to its partner with score 0, `k` times.  The
    /// expensive reverse direction is skipped when the one-directional
    /// sum alone already loses against the current k-th best.
    pub fn compute_best_diff(&mut self, e: usize, k: usize) -> (r: Vec<DiffEntry>)
        requires
            old(self).wf(),
            e < old(self).edges@.len(),
            k >= 1,
        ensures
            final(self).wf(),
            final(self).edges@ == old(self).edges@,
            final(self).solved@ == old(self).solved@,
            r@ == best_diff_spec(old(self).edges@, old(self).solved@, e as int, k as int),
    {
        let ghost edges0 = self.edges@;
        let ghost solved0 = self.solved@;
        // A list already computed for this edge and the same K is served
        // from the cache.
        match &self.bd_cache[e] {
            Some(c) => {
                if c.0 == k as u64 {
                    return copy_entries(&c.1);
                }
            },
            None => {},
        }
        let eid = self.edges[e].id;
        if let Some(f) = self.find_partner(eid) {
            let mut out: Vec<DiffEntry> = Vec::new();
            let mut i: usize = 0;
            while i < k
                invariant
                    0 <= i <= k,
                    out@.len() == i,
                    forall|j: int| 0 <= j < i ==> out@[j] == (DiffEntry { edge: f, score: 0 }),
                decreases k - i,
            {
                out.push(DiffEntry { edge: f, score: 0 });
                i += 1;
            }
            proof {
                assert(out@ =~= Seq::new(k as nat, |i: int| DiffEntry { edge: f, score: 0 }));
            }
            let kept = copy_entries(&out);
            let ghost cache0 = self.bd_cache@;
            *vec_index_mut(&mut self.bd_cache, e) = Some((k as u64, kept));
            proof {
                assert(forall|i: int|
                    0 <= i < cache0.len() && i != e ==> #[trigger] self.bd_cache@[i]
                        == cache0[i]);
            }
            return out;
        }
        let mut list: Vec<DiffEntry> = Vec::new();
        let mut j: usize = 0;
        let n = self.edges.len();
        let mut j_loop_done = false;
        proof {
            assert(cand_entries(edges0, solved0, e as int, 0) =~= Seq::<DiffEntry>::empty());
        }
        while j < n
            invariant
                self.wf(),
                self.edges@ == edges0,
                self.solved@ == solved0,
                n == edges0.len(),
                e < edges0.len(),
                k >= 1,
                0 <= j <= n,
                partner_in(solved0, edges0[e as int].id) is None,
                list@ == top_k(cand_entries(edges0, solved0, e as int, j as int), k as int),
                sorted_by_score(list@),
                list@.len() <= k,
            decreases n - j,
        {
            let ghost cpre = cand_entries(edges0, solved0, e as int, j as int);
            let ghost ccur = cand_entries(edges0, solved0, e as int, j + 1);
            let did = self.edges[j].id;
            let epid = self.edges[e].id;
            let not_solved = self.find_partner(did).is_none();
            let elig = (did / 4 != epid / 4) && not_solved;
            proof {
                assert(elig == eligible(edges0, solved0, e as int, j as int));
            }
            if elig {
                let ghost entry_spec = DiffEntry {
                    edge: edges0[j as int].id,
                    score: score_spec(edges0[e as int], edges0[j as int]) as u64,
                };
                proof {
                    assert(ccur == cpre.push(entry_spec));
                    assert(ccur.drop_last() =~= cpre);
                    assert(ccur.last() == entry_spec);
                    assert(top_k(ccur, k as int) == bounded_insert(
                        top_k(cpre, k as int),
                        entry_spec,
                        k as int,
                    ));
                    lemma_diff_in_range(edges0[e as int], edges0[j as int]);
                    lemma_diff_in_range(edges0[j as int], edges0[e as int]);
                }
                let one_dir = self.compare_edges(e, j);
                let mut skip = false;
                if list.len() == k {
                    let last = list[k - 1];
                    if one_dir >= last.score {
                        skip = true;
                        proof {
                            assert(entry_spec.score >= one_dir);
                            lemma_bounded_insert_noop(list@, entry_spec, k as int);
                        }
                    }
                }
                if !skip {
                    let rev = self.compare_edges(j, e);
                    let sc = one_dir + rev;
                    proof {
                        assert(sc == entry_spec.score);
                    }
                    insert_entry(&mut list, DiffEntry { edge: did, score: sc }, k);
                    proof {
                        lemma_bounded_insert_props(top_k(cpre, k as int), entry_spec, k as int);
                    }
                }
            } else {
                proof {
                    assert(ccur == cpre);
                }
            }
            j += 1;
        }
        let ghost cfull = cand_entries(edges0, solved0, e as int, edges0.len() as int);
        proof {
            lemma_top_k_props(cfull, k as int);
        }
        let ghost tk = top_k(cfull, k as int);
        let ghost filled = list@.len() as int;
        let mut s: usize = list.len();
        while s < k
            invariant
                filled <= s <= k,
                list@.len() == s,
                list@.subrange(0, filled) == tk,
                tk.len() == filled,
                forall|i: int| filled <= i < s ==> list@[i] == (DiffEntry {
                    edge: EMPTY_SLOT,
                    score: PENALTY,
                }),
            decreases k - s,
        {
            list.push(DiffEntry { edge: EMPTY_SLOT, score: PENALTY });
            proof {
                assert(list@.subrange(0, filled) =~= tk);
            }
            s += 1;
        }
        proof {
            assert(list@ =~= pad_k(tk, k as int));
        }
        let kept = copy_entries(&list);
        let ghost cache0 = self.bd_cache@;
        *vec_index_mut(&mut self.bd_cache, e) = Some((k as u64, kept));
        proof {
            assert(forall|i: int|
                0 <= i < cache0.len() && i != e ==> #[trigger] self.bd_cache@[i] == cache0[i]);
        }
        list
    }

    /// Records a confirmed solved link between two previously unsolved
    /// edge ids; both leave all further candidate searches.
    pub fn add_solved_link(&mut self, a: u64, b: u64)
        requires
            old(self).wf(),
            a < ID_LIMIT,
            b < ID_LIMIT,
            a != b,
            partner_in(old(self).solved@, a) is None,
            partner_in(old(self).solved@, b) is None,
        ensures
            final(self).wf(),
            final(self).edges@ == old(self).edges@,
            final(self).solved@ == old(self).solved@.push((a, b)),
    {
        proof {
            lemma_partner_none(self.solved@, a);
            lemma_partner_none(self.solved@, b);
        }
        self.solved.push((a, b));
        self.bd_cache = empty_slots(self.edges.len());
    }

    /// Replays a persisted solved link at startup: a no-op when the same
    /// link is already present, rejected when either id is solved with
    /// someone else, recorded otherwise.  Replaying a record twice leaves
    /// the state unchanged.
    pub fn replay_solved_link(&mut self, a: u64, b: u64) -> (r: bool)
        requires
            old(self).wf(),
            a < ID_LIMIT,
            b < ID_LIMIT,
            a != b,
        ensures
            final(self).wf(),
            final(self).edges@ == old(self).edges@,
            final(self).solved@ == if partner_in(old(self).solved@, a) is None && partner_in(
                old(self).solved@,
                b,
            ) is None {
                old(self).solved@.push((a, b))
            } else {
                old(self).solved@
            },
            r == (partner_in(old(self).solved@, a) == Some(b) || (partner_in(
                old(self).solved@,
                a,
            ) is None && partner_in(old(self).solved@, b) is None)),
    {
        match self.find_partner(a) {
            Some(p) => p == b,
            None => {
                if self.find_partner(b).is_some() {
                    false
                } else {
                    self.add_solved_link(a, b);
                    true
                }
            },
        }
    }

    /// Evaluates one loop-closure combination: walks the chain
    /// A -> B -> B-plus -> C -> C-plus -> D -> D-plus and totals the three
    /// candidate scores plus the closure score of A-minus against D-plus,
    /// charging the fixed penalty for every link that cannot resolve.
    pub fn eval_combo(&mut self, a: usize, k: usize, c0: usize, c1: usize, c2: usize) -> (r: u64)
        requires
            old(self).wf(),
            a < old(self).edges@.len(),
            k >= 1,
            c0 < k,
            c1 < k,
            c2 < k,
        ensures
            final(self).wf(),
            final(self).edges@ == old(self).edges@,
            final(self).solved@ == old(self).solved@,
            r as int == combo_total(
                old(self).edges@,
                old(self).solved@,
                a as int,
                k as int,
                c0 as int,
                c1 as int,
                c2 as int,
            ),
            r <= 4 * PENALTY,
    {
        let ghost edges0 = self.edges@;
        let ghost solved0 = self.solved@;
        proof {
            lemma_best_diff_props(edges0, solved0, a as int, k as int);
        }
        let bd_a = self.compute_best_diff(a, k);
        let e0 = bd_a[c0];
        let ghost ge0 = best_diff_spec(edges0, solved0, a as int, k as int)[c0 as int];
        proof {
            assert(e0 == ge0);
        }
        if e0.edge == EMPTY_SLOT {
            return e0.score + 3 * PENALTY;
        }
        let nid = next_side_id(e0.edge);
        let bp = match self.find_edge(nid) {
            None => {
                return e0.score + 3 * PENALTY;
            },
            Some(i) => i,
        };
        proof {
            assert(has_id(edges0, nid));
            let ci = idx_of(edges0, nid);
            assert(0 <= ci < edges0.len() && edges0[ci].id == nid);
            assert(ci == bp as int);
            assert(chain_idx(edges0, ge0) == Some(bp as int));
            lemma_best_diff_props(edges0, solved0, bp as int, k as int);
        }
        let bd_b = self.compute_best_diff(bp, k);
        let e1 = bd_b[c1];
        let ghost ge1 = best_diff_spec(edges0, solved0, bp as int, k as int)[c1 as int];
        if e1.edge == EMPTY_SLOT {
            return e0.score + e1.score + 2 * PENALTY;
        }
        let nid2 = next_side_id(e1.edge);
        let cp = match self.find_edge(nid2) {
            None => {
                return e0.score + e1.score + 2 * PENALTY;
            },
            Some(i) => i,
        };
        proof {
            assert(has_id(edges0, nid2));
            let ci = idx_of(edges0, nid2);
            assert(0 <= ci < edges0.len() && edges0[ci].id == nid2);
            assert(ci == cp as int);
            assert(chain_idx(edges0, ge1) == Some(cp as int));
            lemma_best_diff_props(edges0, solved0, cp as int, k as int);
        }
        let bd_c = self.compute_best_diff(cp, k);
        let e2 = bd_c[c2];
        let ghost ge2 = best_diff_spec(edges0, solved0, cp as int, k as int)[c2 as int];
        if e2.edge == EMPTY_SLOT {
            return e0.score + e1.score + e2.score + PENALTY;
        }
        let nid3 = next_side_id(e2.edge);
        let dp = match self.find_edge(nid3) {
            None => {
                return e0.score + e1.score + e2.score + PENALTY;
            },
            Some(i) => i,
        };
        proof {
            assert(has_id(edges0, nid3));
            let ci = idx_of(edges0, nid3);
            assert(0 <= ci < edges0.len() && edges0[ci].id == nid3);
            assert(ci == dp as int);
            assert(chain_idx(edges0, ge2) == Some(dp as int));
        }
        let am_id = prev_side_id(self.edges[a].id);
        let closure: u64 = match self.find_edge(am_id) {
            None => PENALTY,
            Some(am) => {
                proof {
                    assert(has_id(edges0, am_id));
                    let ci = idx_of(edges0, am_id);
                    assert(0 <= ci < edges0.len() && edges0[ci].id == am_id);
                    assert(ci == am as int);
                }
                if self.find_partner(am_id).is_some() {
                    PENALTY
                } else if self.edges[dp].id == am_id {
                    PENALTY
                } else {
                    proof {
                        lemma_diff_in_range(edges0[am as int], edges0[dp as int]);
                        lemma_diff_in_range(edges0[dp as int], edges0[am as int]);
                    }
                    self.match_score(am, dp)
                }
            },
        };
        proof {
            assert(closure as int == closure_term(edges0, solved0, a as int, dp as int));
        }
        e0.score + e1.score + e2.score + closure
    }

    /// Confirms one combination: records the four solved links
    /// `(A,B), (B-plus,C), (C-plus,D), (D-plus,A-minus)` when the chain
    /// resolves and every id involved is distinct and still unsolved;
    /// otherwise records nothing.
    #[verifier::rlimit(100)]
    pub fn confirm_square(&mut self, a: usize, k: usize, c0: usize, c1: usize, c2: usize) -> (r:
        bool)
        requires
            old(self).wf(),
            a < old(self).edges@.len(),
            k >= 1,
            c0 < k,
            c1 < k,
            c2 < k,
        ensures
            final(self).wf(),
            final(self).edges@ == old(self).edges@,
            match combo_ids(
                old(self).edges@,
                old(self).solved@,
                a as int,
                k as int,
                c0 as int,
                c1 as int,
                c2 as int,
            ) {
                None => r == false && final(self).solved@ == old(self).solved@,
                Some(ids) => if links_addable(old(self).solved@, ids) {
                    r && final(self).solved@ == pushed_links(old(self).solved@, ids)
                } else {
                    !r && final(self).solved@ == old(self).solved@
                },
            },
    {
        let ghost edges0 = self.edges@;
        let ghost solved0 = self.solved@;
        proof {
            lemma_best_diff_props(edges0, solved0, a as int, k as int);
        }
        let bd_a = self.compute_best_diff(a, k);
        let e0 = bd_a[c0];
        if e0.edge == EMPTY_SLOT {
            return false;
        }
        let nid = next_side_id(e0.edge);
        let bp = match self.find_edge(nid) {
            None => {
                return false;
            },
            Some(i) => i,
        };
        proof {
            assert(has_id(edges0, nid));
            let ci = idx_of(edges0, nid);
            assert(0 <= ci < edges0.len() && edges0[ci].id == nid);
            assert(ci == bp as int);
            lemma_best_diff_props(edges0, solved0, bp as int, k as int);
        }
        let bd_b = self.compute_best_diff(bp, k);
        let e1 = bd_b[c1];
        if e1.edge == EMPTY_SLOT {
            return false;
        }
        let nid2 = next_side_id(e1.edge);
        let cp = match self.find_edge(nid2) {
            None => {
                return false;
            },
            Some(i) => i,
        };
        proof {
            assert(has_id(edges0, nid2));
            let ci = idx_of(edges0, nid2);
            assert(0 <= ci < edges0.len() && edges0[ci].id == nid2);
            assert(ci == cp as int);
            lemma_best_diff_props(edges0, solved0, cp as int, k as int);
        }
        let bd_c = self.compute_best_diff(cp, k);
        let e2 = bd_c[c2];
        if e2.edge == EMPTY_SLOT {
            return false;
        }
        let nid3 = next_side_id(e2.edge);
        let dp = match self.find_edge(nid3) {
            None => {
                return false;
            },
            Some(i) => i,
        };
        proof {
            assert(has_id(edges0, nid3));
            let ci = idx_of(edges0, nid3);
            assert(0 <= ci < edges0.len() && edges0[ci].id == nid3);
            assert(ci == dp as int);
        }
        let am_id = prev_side_id(self.edges[a].id);
        match self.find_edge(am_id) {
            None => {
                return false;
            },
            Some(_) => {},
        };
        if self.find_partner(am_id).is_some() {
            return false;
        }
        if self.edges[dp].id == am_id {
            return false;
        }
        let ghost gids = combo_ids(
            edges0,
            solved0,
            a as int,
            k as int,
            c0 as int,
            c1 as int,
            c2 as int,
        ).unwrap();
        let mut ids: Vec<u64> = Vec::new();
        ids.push(self.edges[a].id);
        ids.push(e0.edge);
        ids.push(self.edges[bp].id);
        ids.push(e1.edge);
        ids.push(self.edges[cp].id);
        ids.push(e2.edge);
        ids.push(self.edges[dp].id);
        ids.push(am_id);
        proof {
            assert(ids@ =~= gids);
        }
        // Validate: all eight ids distinct and unsolved.
        let mut i: usize = 0;
        while i < 8
            invariant
                self.wf(),
                self.edges@ == old(self).edges@,
                self.solved@ == old(self).solved@,
                edges0 == old(self).edges@,
                solved0 == old(self).solved@,
                combo_ids(edges0, solved0, a as int, k as int, c0 as int, c1 as int, c2 as int)
                    == Some(gids),
                ids@ == gids,
                ids@.len() == 8,
                0 <= i <= 8,
                forall|i2: int, j2: int| 0 <= i2 < i && i2 < j2 < 8 ==> gids[i2] != gids[j2],
                forall|i2: int| 0 <= i2 < i ==> partner_in(solved0, #[trigger] gids[i2]) is None,
            decreases 8 - i,
        {
            let mut j: usize = i + 1;
            while j < 8
                invariant
                    self.wf(),
                    self.edges@ == old(self).edges@,
                    self.solved@ == old(self).solved@,
                    edges0 == old(self).edges@,
                    solved0 == old(self).solved@,
                    combo_ids(edges0, solved0, a as int, k as int, c0 as int, c1 as int, c2 as int)
                        == Some(gids),
                    ids@ == gids,
                    ids@.len() == 8,
                    i < 8,
                    i < j <= 8,
                    forall|j2: int| i < j2 < j ==> gids[i as int] != gids[j2],
                decreases 8 - j,
            {
                if ids[i] == ids[j] {
                    return false;
                }
                j += 1;
            }
            if self.find_partner(ids[i]).is_some() {
                return false;
            }
            i += 1;
        }
        proof {
            assert(links_addable(solved0, gids)) by {
                assert forall|i2: int| 0 <= i2 < 8 implies gids[i2] < ID_LIMIT by {
                    assert(gids[1] == e0.edge && gids[3] == e1.edge && gids[5] == e2.edge);
                }
            }
        }
        // Record the four links.
        let p0 = (ids[0], ids[1]);
        let p1 = (ids[2], ids[3]);
        let p2 = (ids[4], ids[5]);
        let p3 = (ids[6], ids[7]);
        self.add_solved_link(p0.0, p0.1);
        proof {
            lemma_partner_in_push(solved0, p0, p1.0);
            lemma_partner_in_push(solved0, p0, p1.1);
        }
        self.add_solved_link(p1.0, p1.1);
        proof {
            lemma_partner_in_push(solved0, p0, p2.0);
            lemma_partner_in_push(solved0, p0, p2.1);
            lemma_partner_in_push(solved0.push(p0), p1, p2.0);
            lemma_partner_in_push(solved0.push(p0), p1, p2.1);
        }
        self.add_solved_link(p2.0, p2.1);
        proof {
            lemma_partner_in_push(solved0, p0, p3.0);
            lemma_partner_in_push(solved0, p0, p3.1);
            lemma_partner_in_push(solved0.push(p0), p1, p3.0);
            lemma_partner_in_push(solved0.push(p0), p1, p3.1);
            lemma_partner_in_push(solved0.push(p0).push(p1), p2, p3.0);
            lemma_partner_in_push(solved0.push(p0).push(p1), p2, p3.1);
        }
        self.add_solved_link(p3.0, p3.1);
        proof {
            assert(self.solved@ =~= pushed_links(solved0, gids));
        }
        true
    }

    /// The four-edge loop-closure search: enumerates every combination
    /// `(c0, c1, c2)` in `[0, k)^3` and returns one with the minimum
    /// total.
    pub fn search_square(&mut self, a: usize, k: usize) -> (r: SquareMatch)
        requires
            old(self).wf(),
            a < old(self).edges@.len(),
            k >= 1,
        ensures
            final(self).wf(),
            final(self).edges@ == old(self).edges@,
            final(self).solved@ == old(self).solved@,
            r.c0 < k && r.c1 < k && r.c2 < k,
            r.total as int == combo_total(
                old(self).edges@,
                old(self).solved@,
                a as int,
                k as int,
                r.c0 as int,
                r.c1 as int,
                r.c2 as int,
            ),
            forall|d0: int, d1: int, d2: int|
                0 <= d0 < k && 0 <= d1 < k && 0 <= d2 < k ==> combo_total(
                    old(self).edges@,
                    old(self).solved@,
                    a as int,
                    k as int,
                    d0,
                    d1,
                    d2,
                ) >= r.total,
    {
        let ghost edges0 = self.edges@;
        let ghost solved0 = self.solved@;
        let mut best = self.eval_combo(a, k, 0, 0, 0);
        let mut bc0: usize = 0;
        let mut bc1: usize = 0;
        let mut bc2: usize = 0;
        let mut i0: usize = 0;
        while i0 < k
            invariant
                self.wf(),
                self.edges@ == edges0,
                self.solved@ == solved0,
                a < edges0.len(),
                k >= 1,
                0 <= i0 <= k,
                bc0 < k && bc1 < k && bc2 < k,
                best as int == combo_total(
                    edges0,
                    solved0,
                    a as int,
                    k as int,
                    bc0 as int,
                    bc1 as int,
                    bc2 as int,
                ),
                forall|d0: int, d1: int, d2: int|
                    0 <= d0 < i0 && 0 <= d1 < k && 0 <= d2 < k ==> combo_total(
                        edges0,
                        solved0,
                        a as int,
                        k as int,
                        d0,
                        d1,
                        d2,
                    ) >= best,
            decreases k - i0,
        {
            let mut i1: usize = 0;
            while i1 < k
                invariant
                    self.wf(),
                    self.edges@ == edges0,
                    self.solved@ == solved0,
                    a < edges0.len(),
                    k >= 1,
                    i0 < k,
                    0 <= i1 <= k,
                    bc0 < k && bc1 < k && bc2 < k,
                    best as int == combo_total(
                        edges0,
                        solved0,
                        a as int,
                        k as int,
                        bc0 as int,
                        bc1 as int,
                        bc2 as int,
                    ),
                    forall|d0: int, d1: int, d2: int|
                        0 <= d0 < i0 && 0 <= d1 < k && 0 <= d2 < k ==> combo_total(
                            edges0,
                            solved0,
                            a as int,
                            k as int,
                            d0,
                            d1,
                            d2,
                        ) >= best,
                    forall|d1: int, d2: int|
                        0 <= d1 < i1 && 0 <= d2 < k ==> combo_total(
                            edges0,
                            solved0,
                            a as int,
                            k as int,
                            i0 as int,
                            d1,
                            d2,
                        ) >= best,
                decreases k - i1,
            {
                let mut i2: usize = 0;
                while i2 < k
                    invariant
                        self.wf(),
                        self.edges@ == edges0,
                        self.solved@ == solved0,
                        a < edges0.len(),
                        k >= 1,
                        i0 < k,
                        i1 < k,
                        0 <= i2 <= k,
                        bc0 < k && bc1 < k && bc2 < k,
                        best as int == combo_total(
                            edges0,
                            solved0,
                            a as int,
                            k as int,
                            bc0 as int,
                            bc1 as int,
                            bc2 as int,
                        ),
                        forall|d0: int, d1: int, d2: int|
                            0 <= d0 < i0 && 0 <= d1 < k && 0 <= d2 < k ==> combo_total(
                                edges0,
                                solved0,
                                a as int,
                                k as int,
                                d0,
                                d1,
                                d2,
                            ) >= best,
                        forall|d1: int, d2: int|
                            0 <= d1 < i1 && 0 <= d2 < k ==> combo_total(
                                edges0,
                                solved0,
                                a as int,
                                k as int,
                                i0 as int,
                                d1,
                                d2,
                            ) >= best,
                        forall|d2: int|
                            0 <= d2 < i2 ==> combo_total(
                                edges0,
                                solved0,
                                a as int,
                                k as int,
                                i0 as int,
                                i1 as int,
                                d2,
                            ) >= best,
                    decreases k - i2,
                {
                    let t = self.eval_combo(a, k, i0, i1, i2);
                    if t < best {
                        best = t;
                        bc0 = i0;
                        bc1 = i1;
                        bc2 = i2;
                    }
                    i2 += 1;
                }
                i1 += 1;
            }
            i0 += 1;
        }
        SquareMatch { c0: bc0, c1: bc1, c2: bc2, total: best }
    }
}

/// Inserts a candidate into a sorted bounded list exactly as the
/// shift-and-drop specification does.
fn insert_entry(list: &mut Vec<DiffEntry>, x: DiffEntry, k: usize)
    requires
        sorted_by_score(old(list)@),
        old(list)@.len() <= k,
        k >= 1,
    ensures
        final(list)@ == bounded_insert(old(list)@, x, k as int),
{
    let ghost l0 = list@;
    proof {
        crate::rank::lemma_insert_pos_props(l0, x.score);
    }
    let mut pos: usize = 0;
    while pos < list.len() && list[pos].score <= x.score
        invariant
            0 <= pos <= l0.len(),
            list@ == l0,
            forall|i: int| 0 <= i < pos ==> (#[trigger] l0[i]).score <= x.score,
        decreases l0.len() - pos,
    {
        pos += 1;
    }
    proof {
        let sp = crate::rank::insert_pos(l0, x.score);
        if pos < sp {
            assert(l0[pos as int].score <= x.score);
        }
        if sp < pos {
            assert(l0[sp].score > x.score);
            assert(l0[sp].score <= x.score);
        }
        assert(pos == sp);
    }
    list.insert(pos, x);
    if list.len() > k {
        let ghost l2 = list@;
        list.pop();
        proof {
            assert(list@ =~= l2.drop_last());
        }
    }
}

/// A row of empty candidate-cache slots.
fn empty_slots(n: usize) -> (r: Vec<Option<(u64, Vec<DiffEntry>)>>)
    ensures
        r@.len() == n,
        forall|i: int| 0 <= i < n ==> (#[trigger] r@[i]) is None,
{
    let mut out: Vec<Option<(u64, Vec<DiffEntry>)>> = Vec::new();
    let mut i: usize = 0;
    while i < n
        invariant
            0 <= i <= n,
            out@.len() == i,
            forall|j: int| 0 <= j < i ==> (#[trigger] out@[j]) is None,
        decreases n - i,
    {
        out.push(None);
        i += 1;
    }
    out
}

/// Copies a candidate list.
fn copy_entries(v: &Vec<DiffEntry>) -> (r: Vec<DiffEntry>)
    ensures
        r@ == v@,
{
    let mut out: Vec<DiffEntry> = Vec::new();
    let mut i: usize = 0;
    while i < v.len()
        invariant
            0 <= i <= v@.len(),
            out@ =~= v@.subrange(0, i as int),
        decreases v@.len() - i,
    {
        out.push(v[i]);
        proof {
            assert(out@ =~= v@.subrange(0, i + 1));
        }
        i += 1;
    }
    proof {
        assert(v@.subrange(0, v@.len() as int) =~= v@);
    }
    out
}

/// Copies a point list.
fn copy_points(v: &Vec<Point>) -> (r: Vec<Point>)
    ensures
        r@ == v@,
{
    let mut out: Vec<Point> = Vec::new();
    let mut i: usize = 0;
    while i < v.len()
        invariant
            0 <= i <= v@.len(),
            out@ =~= v@.subrange(0, i as int),
        decreases v@.len() - i,
    {
        out.push(v[i]);
        proof {
            assert(out@ =~= v@.subrange(0, i + 1));
        }
        i += 1;
    }
    proof {
        assert(v@.subrange(0, v@.len() as int) =~= v@);
    }
    out
}

/// Sums, over every point of `a` flipped about `a`'s own box, the minimum
/// squared distance to the field's edge.
fn one_way_sum(a: &EdgeCurve, fb: &mut DistanceField) -> (r: u64)
    requires
        a.wf(),
        old(fb).wf(),
    ensures
        final(fb).wf(),
        final(fb).pts@ == old(fb).pts@,
        r as int == one_way(a.pts@, a.max_x as int, a.max_y as int, old(fb).pts@),
{
    let ghost apts = a.pts@;
    let ghost bpts = fb.pts@;
    let ghost mx = a.max_x as int;
    let ghost my = a.max_y as int;
    let ghost m2 = 2 * (MAX_SIDE as int) * (MAX_SIDE as int);
    proof {
        lemma_max_of_props(apts);
        assert(apts.subrange(0, 0) =~= Seq::<Point>::empty());
    }
    let mut sum: u64 = 0;
    let mut i: usize = 0;
    while i < a.pts.len()
        invariant
            a.wf(),
            fb.wf(),
            fb.pts@ == bpts,
            apts == a.pts@,
            mx == a.max_x as int,
            my == a.max_y as int,
            m2 == 2 * (MAX_SIDE as int) * (MAX_SIDE as int),
            forall|j: int| 0 <= j < apts.len() ==> (#[trigger] apts[j]).x <= a.max_x
                && apts[j].y <= a.max_y,
            0 <= i <= apts.len(),
            sum as int == one_way(apts.subrange(0, i as int), mx, my, bpts),
            sum as int <= i * m2,
        decreases apts.len() - i,
    {
        let p = a.pts[i];
        let qx = a.max_x - p.x;
        let qy = a.max_y - p.y;
        let d = fb.query(qx, qy);
        proof {
            let pre = apts.subrange(0, i as int);
            let cur = apts.subrange(0, i + 1);
            assert(cur.drop_last() =~= pre);
            assert(cur.last() == apts[i as int]);
            assert(one_way(cur, mx, my, bpts) == one_way(pre, mx, my, bpts) + min_d2(
                mx - apts[i as int].x,
                my - apts[i as int].y,
                bpts,
            ));
            assert(qx as int == mx - apts[i as int].x && qy as int == my - apts[i as int].y);
            assert(i * m2 + m2 == (i + 1) * m2) by (nonlinear_arith);
            assert((i + 1) * m2 <= (MAX_SIDE as int) * (MAX_SIDE as int) * m2)
                by (nonlinear_arith)
                requires i + 1 <= (MAX_SIDE as int) * (MAX_SIDE as int), m2 >= 0;
        }
        sum = sum + d;
        i += 1;
    }
    proof {
        assert(apts.subrange(0, apts.len() as int) =~= apts);
    }
    sum
}

} // verus!
