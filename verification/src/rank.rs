//! Fixed-size ranked candidate lists: a sorted shift-and-drop top-K.
//!
//! `top_k` folds candidate entries into a score-sorted list that never
//! grows past K entries; a new entry is inserted behind every entry with a
//! score no larger than its own (so earlier candidates win ties) and the
//! overflowing last entry is dropped.  The lemmas state the top-K laws:
//! the list is sorted, K-bounded, drawn from the candidates, and every
//! candidate left out scores no better than the kept worst.

use vstd::prelude::*;

verus! {

/// One ranked candidate: a partner edge id and its match score.
#[derive(Clone, Copy, PartialEq, Eq, Structural, Debug)]
pub struct DiffEntry {
    pub edge: u64,
    pub score: u64,
}

/// Sentinel id of an unfilled candidate slot.
pub const EMPTY_SLOT: u64 = 0xffffffffffffffff;

/// Score of an unfilled slot, and the fixed penalty charged to a
/// degenerate loop-closure combination; larger than any real score.
pub const PENALTY: u64 = 0x1000000000000000;

/// Entries appear in ascending score order.
pub open spec fn sorted_by_score(l: Seq<DiffEntry>) -> bool {
    forall|i: int, j: int|
        0 <= i < j < l.len() ==> (#[trigger] l[i]).score <= (#[trigger] l[j]).score
}

/// Insertion position of a score in a sorted list: behind every entry
/// whose score is no larger (stable for ties).
pub open spec fn insert_pos(l: Seq<DiffEntry>, sc: u64) -> int
    decreases l.len(),
{
    if l.len() == 0 {
        0
    } else if l.last().score <= sc {
        l.len() as int
    } else {
        insert_pos(l.drop_last(), sc)
    }
}

/// Inserts an entry into a sorted list, dropping the overflowing last
/// entry so the list never exceeds `k`.
pub open spec fn bounded_insert(l: Seq<DiffEntry>, x: DiffEntry, k: int) -> Seq<DiffEntry> {
    let l2 = l.insert(insert_pos(l, x.score), x);
    if l2.len() > k {
        l2.drop_last()
    } else {
        l2
    }
}

/// The top-K list of a candidate sequence, folded in input order.
pub open spec fn top_k(c: Seq<DiffEntry>, k: int) -> Seq<DiffEntry>
    decreases c.len(),
{
    if c.len() == 0 {
        Seq::<DiffEntry>::empty()
    } else {
        bounded_insert(top_k(c.drop_last(), k), c.last(), k)
    }
}

pub proof fn lemma_insert_pos_props(l: Seq<DiffEntry>, sc: u64)
    requires
        sorted_by_score(l),
    ensures
        0 <= insert_pos(l, sc) <= l.len(),
        forall|i: int| 0 <= i < insert_pos(l, sc) ==> (#[trigger] l[i]).score <= sc,
        forall|i: int| insert_pos(l, sc) <= i < l.len() ==> (#[trigger] l[i]).score > sc,
    decreases l.len(),
{
    if l.len() == 0 {
    } else if l.last().score <= sc {
        assert(forall|i: int| 0 <= i < l.len() - 1 ==> (#[trigger] l[i]).score <= l.last().score);
    } else {
        let rest = l.drop_last();
        assert(forall|i: int| 0 <= i < rest.len() ==> rest[i] == l[i]);
        lemma_insert_pos_props(rest, sc);
    }
}

/// Everything the top-K fold needs of one bounded insertion.
pub proof fn lemma_bounded_insert_props(l: Seq<DiffEntry>, x: DiffEntry, k: int)
    requires
        sorted_by_score(l),
        l.len() <= k,
        k >= 1,
    ensures
        sorted_by_score(bounded_insert(l, x, k)),
        bounded_insert(l, x, k).len() == if l.len() < k {
            l.len() + 1
        } else {
            k as nat
        },
        forall|i: int|
            0 <= i < bounded_insert(l, x, k).len() ==> bounded_insert(l, x, k)[i] == x
                || l.contains(#[trigger] bounded_insert(l, x, k)[i]),
        bounded_insert(l, x, k).contains(x) || (bounded_insert(l, x, k) == l && l.len() == k
            && x.score >= l.last().score),
        forall|e: DiffEntry|
            #[trigger] l.contains(e) ==> bounded_insert(l, x, k).contains(e) || (bounded_insert(
                l,
                x,
                k,
            ).len() == k && e.score >= bounded_insert(l, x, k).last().score),
        l.len() == k ==> bounded_insert(l, x, k).last().score <= l.last().score,
{
    let pos = insert_pos(l, x.score);
    lemma_insert_pos_props(l, x.score);
    let l2 = l.insert(pos, x);
    l.insert_ensures(pos, x);
    let r = bounded_insert(l, x, k);
    assert(sorted_by_score(l2)) by {
        assert forall|i: int, j: int| 0 <= i < j < l2.len() implies (#[trigger] l2[i]).score
            <= (#[trigger] l2[j]).score by {
            if i < pos {
                assert(l2[i] == l[i]);
            } else if i == pos {
                assert(l2[i] == x);
            } else {
                assert(l2[i] == l[i - 1]);
            }
            if j < pos {
                assert(l2[j] == l[j]);
            } else if j == pos {
                assert(l2[j] == x);
            } else {
                assert(l2[j] == l[j - 1]);
            }
        }
    }
    if l2.len() > k {
        assert(r == l2.drop_last());
        assert(forall|i: int| 0 <= i < r.len() ==> r[i] == l2[i]);
    } else {
        assert(r == l2);
    }
    // Sortedness and length carry over from l2 to r.
    assert(sorted_by_score(r));
    // Membership of every kept entry.
    assert forall|i: int| 0 <= i < r.len() implies r[i] == x || l.contains(#[trigger] r[i]) by {
        assert(r[i] == l2[i]);
        if i < pos {
            assert(l2[i] == l[i]);
            assert(l.contains(l[i]));
        } else if i == pos {
            assert(l2[i] == x);
        } else {
            assert(l2[i] == l[i - 1]);
            assert(l.contains(l[i - 1]));
        }
    }
    // Either x survives, or it was appended at the very end and dropped.
    if l2.len() > k && pos == l.len() {
        assert(l2[pos] == x);
        assert(r =~= l) by {
            assert(forall|i: int| 0 <= i < l.len() ==> r[i] == l2[i] && l2[i] == l[i]);
        }
        assert(l.len() == k);
        assert(x.score >= l.last().score) by {
            assert(l[l.len() - 1].score <= x.score);
        }
    } else {
        assert(pos < r.len());
        assert(r[pos] == l2[pos] && l2[pos] == x);
        assert(r.contains(x));
    }
    // A lost old entry must have been the dropped maximum.
    assert forall|e: DiffEntry| #[trigger] l.contains(e) implies r.contains(e) || (r.len() == k
        && e.score >= r.last().score) by {
        let i = choose|i: int| 0 <= i < l.len() && l[i] == e;
        let i2: int = if i < pos {
            i
        } else {
            i + 1
        };
        assert(l2[i2] == e);
        if i2 < r.len() {
            assert(r[i2] == l2[i2]);
            assert(r.contains(e));
        } else {
            // e sits in the dropped last slot of l2.
            assert(l2.len() > k && i2 == l2.len() - 1);
            assert(r.len() == k);
            assert(r.last() == l2[r.len() - 1]);
            assert(l2[r.len() - 1].score <= l2[i2].score);
        }
    }
    if l.len() == k {
        assert(r.len() == k && l2.len() == k + 1);
        assert(r.last() == l2[k - 1]);
        if pos == l.len() {
            assert(l2[k - 1] == l[k - 1]);
        } else {
            assert(l2[k].score >= l2[k - 1].score);
            assert(l2[k] == l[k - 1]);
        }
    }
}

/// Inserting an entry that scores no better than the worst of a full list
/// leaves the list unchanged.
pub proof fn lemma_bounded_insert_noop(l: Seq<DiffEntry>, x: DiffEntry, k: int)
    requires
        sorted_by_score(l),
        l.len() == k,
        k >= 1,
        x.score >= l.last().score,
    ensures
        bounded_insert(l, x, k) == l,
{
    lemma_insert_pos_props(l, x.score);
    let pos = insert_pos(l, x.score);
    assert(pos == l.len()) by {
        if pos < l.len() {
            assert(l[pos].score > x.score);
            assert(l[pos].score <= l[l.len() - 1].score);
        }
    }
    let l2 = l.insert(pos, x);
    l.insert_ensures(pos, x);
    assert(l2.len() == k + 1 > k);
    assert(bounded_insert(l, x, k) =~= l) by {
        assert(forall|i: int| 0 <= i < l.len() ==> l2.drop_last()[i] == l2[i] && l2[i] == l[i]);
    }
}

/// The top-K laws: K-bounded length, ascending order, entries drawn from
/// the candidates, and every candidate left out scoring no better than
/// the kept worst.
pub proof fn lemma_top_k_props(c: Seq<DiffEntry>, k: int)
    requires
        k >= 1,
    ensures
        top_k(c, k).len() == if c.len() < k {
            c.len()
        } else {
            k as nat
        },
        sorted_by_score(top_k(c, k)),
        forall|i: int|
            0 <= i < top_k(c, k).len() ==> exists|j: int|
                0 <= j < c.len() && #[trigger] top_k(c, k)[i] == c[j],
        forall|j: int|
            0 <= j < c.len() ==> top_k(c, k).contains(#[trigger] c[j]) || (top_k(c, k).len() == k
                && c[j].score >= top_k(c, k).last().score),
    decreases c.len(),
{
    if c.len() == 0 {
    } else {
        let rest = c.drop_last();
        let t = top_k(rest, k);
        let x = c.last();
        let r = top_k(c, k);
        lemma_top_k_props(rest, k);
        lemma_bounded_insert_props(t, x, k);
        assert(r == bounded_insert(t, x, k));
        assert(forall|i: int| 0 <= i < rest.len() ==> rest[i] == c[i]);
        assert(x == c[c.len() - 1]);
        // Entries of r come from t or are x; entries of t come from rest.
        assert forall|i: int| 0 <= i < r.len() implies exists|j: int|
            0 <= j < c.len() && #[trigger] r[i] == c[j] by {
            if r[i] == x {
                assert(r[i] == c[c.len() - 1]);
            } else {
                assert(t.contains(r[i]));
                let jt = choose|jt: int| 0 <= jt < t.len() && t[jt] == r[i];
                let j = choose|j: int| 0 <= j < rest.len() && #[trigger] t[jt] == rest[j];
                assert(r[i] == c[j]);
            }
        }
        // Dominance for every candidate.
        assert forall|j: int| 0 <= j < c.len() implies r.contains(#[trigger] c[j]) || (r.len()
            == k && c[j].score >= r.last().score) by {
            if j == c.len() - 1 {
                if !r.contains(x) {
                    assert(r == t && t.len() == k && x.score >= t.last().score);
                }
            } else {
                assert(rest[j] == c[j]);
                if t.contains(c[j]) {
                    assert(r.contains(c[j]) || (r.len() == k && c[j].score >= r.last().score));
                } else {
                    assert(t.len() == k && c[j].score >= t.last().score);
                    assert(r.len() == k);
                    assert(r.last().score <= t.last().score);
                }
            }
        }
    }
}

} // verus!
